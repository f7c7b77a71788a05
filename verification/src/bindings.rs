//! Variable binding constraints.
//!
//! A [`Bindings`] is a chain of [`Varset`]s. Each varset is an equality class
//! of step-variables (`(Variable, step_id)`) optionally pinned to a constant
//! object, with a non-codesignation list and a most-specific type. Adding
//! equality/inequality bindings merges or separates varsets, returning a fresh
//! `Bindings` (`None` when inconsistent). For ground actions every term is
//! already an object, so the same interface degenerates to constant equality
//! checks.
use std::rc::Rc;

use vstd::prelude::*;

use crate::chain::{self, elements, Chain};
use crate::formula::{same_terms, Atom, AtomView, Literal, LiteralView};
use crate::pattern_laws::{bindings_keep_composed, composed, no_classes_are_composed};
use crate::terms::{Object, Term, Variable};
use crate::types::Type;
use crate::typing::{TypeContext, Typing};

verus! {

/// A single variable binding (equality or inequality).
#[derive(Debug, Clone, Copy, PartialEq, Eq, Structural)]
pub struct Binding {
    pub var: Variable,
    pub var_id: usize,
    pub term: Term,
    pub term_id: usize,
    pub equality: bool,
}

impl Binding {
    pub fn new(var: Variable, var_id: usize, term: Term, term_id: usize, equality: bool) -> (res: Self)
        ensures
            res == (Binding { var, var_id, term, term_id, equality }),
    {
        Binding { var, var_id, term, term_id, equality }
    }
}

/// A variable codesignation / non-codesignation class.
#[derive(Debug)]
pub struct Varset {
    /// The constant this class is pinned to, if any.
    constant: Option<Object>,
    /// Codesignated step-variables.
    cd_set: Option<Rc<Chain<(Variable, usize)>>>,
    /// Non-codesignated step-variables.
    ncd_set: Option<Rc<Chain<(Variable, usize)>>>,
    /// Most specific type of any member.
    ty: Type,
}

/// The mathematical form of a class.
#[verifier::ext_equal]
pub struct Class {
    pub constant: Option<Object>,
    pub members: Seq<(Variable, usize)>,
    pub others: Seq<(Variable, usize)>,
    pub ty: Type,
}

impl View for Varset {
    type V = Class;

    closed spec fn view(&self) -> Class {
        Class {
            constant: self.constant,
            members: elements(&self.cd_set),
            others: elements(&self.ncd_set),
            ty: self.ty,
        }
    }
}

/// Where the members of `front` are put in front of `back` one after another.
pub open spec fn stacked(front: Seq<(Variable, usize)>, back: Seq<(Variable, usize)>) -> Seq<(Variable, usize)>
    decreases front.len(),
{
    if front.len() == 0 {
        back
    } else {
        stacked(front.drop_first(), seq![front[0]] + back)
    }
}

/// As [`stacked`], leaving out what is in `known`.
pub open spec fn stacked_new(
    front: Seq<(Variable, usize)>,
    back: Seq<(Variable, usize)>,
    known: Seq<(Variable, usize)>,
) -> Seq<(Variable, usize)>
    decreases front.len(),
{
    if front.len() == 0 {
        back
    } else if known.contains(front[0]) {
        stacked_new(front.drop_first(), back, known)
    } else {
        stacked_new(front.drop_first(), seq![front[0]] + back, known)
    }
}

/// Whether two lists have a common element.
pub open spec fn meet_in(a: Seq<(Variable, usize)>, b: Seq<(Variable, usize)>) -> bool {
    exists|i: int| 0 <= i < a.len() && b.contains(#[trigger] a[i])
}

impl Class {
    /// The class pinned to an object, or `None` if that cannot be.
    pub open spec fn with_object(self, t: Typing, o: Object) -> Option<Class> {
        match self.constant {
            Some(c) => if c == o {
                Some(self)
            } else {
                None
            },
            None => if t.below(t.object_ty(o), self.ty) {
                Some(Class { constant: Some(o), ty: t.object_ty(o), ..self })
            } else {
                None
            },
        }
    }

    /// The class with a variable added, or `None` if it is excluded or its type
    /// does not fit.
    pub open spec fn with_var(self, t: Typing, v: Variable, id: usize) -> Option<Class> {
        if self.others.contains((v, id)) {
            None
        } else {
            let ty = if self.constant is Some {
                if t.below(self.ty, t.var_ty(v, id)) {
                    Some(self.ty)
                } else {
                    None
                }
            } else {
                t.meet(self.ty, t.var_ty(v, id))
            };
            match ty {
                None => None,
                Some(u) => Some(Class { members: seq![(v, id)] + self.members, ty: u, ..self }),
            }
        }
    }

    pub open spec fn with_term(self, t: Typing, term: Term, id: usize) -> Option<Class> {
        match term {
            Term::Object(o) => self.with_object(t, o),
            Term::Variable(v) => self.with_var(t, v, id),
        }
    }

    /// The class kept apart from a variable.
    pub open spec fn without(self, v: Variable, id: usize) -> Class {
        Class { others: seq![(v, id)] + self.others, ..self }
    }

    /// The constant and type of the union of two classes, or `None` if constants
    /// or types clash.
    pub open spec fn merged_head(self, t: Typing, other: Class) -> Option<(Option<Object>, Type)> {
        match (self.constant, other.constant) {
            (Some(a), Some(b)) => if a == b {
                Some((Some(a), self.ty))
            } else {
                None
            },
            (Some(a), None) => if t.below(self.ty, other.ty) {
                Some((Some(a), self.ty))
            } else {
                None
            },
            (None, Some(b)) => if t.below(other.ty, self.ty) {
                Some((Some(b), other.ty))
            } else {
                None
            },
            (None, None) => match t.meet(self.ty, other.ty) {
                Some(u) => Some((None, u)),
                None => None,
            },
        }
    }

    /// The union of two classes, or `None` if they are inconsistent.
    pub open spec fn merged(self, t: Typing, other: Class) -> Option<Class> {
        match self.merged_head(t, other) {
            None => None,
            Some((constant, ty)) => if meet_in(other.members, self.others) || meet_in(other.others, self.members) {
                None
            } else {
                Some(
                    Class {
                        constant,
                        members: stacked(other.members, self.members),
                        others: stacked_new(other.others, self.others, self.others),
                        ty,
                    },
                )
            },
        }
    }
}

/// The class a single binding makes: of the two terms when it is an equality,
/// else of the variable (`reverse` unset) or of the term.
pub open spec fn made(t: Typing, b: Binding, reverse: bool) -> Option<Class> {
    let var = (b.var, b.var_id);
    if b.equality {
        match b.term {
            Term::Object(o) => Some(Class { constant: Some(o), members: seq![var], others: seq![], ty: t.object_ty(o) }),
            Term::Variable(tv) => match t.meet(t.var_ty(b.var, b.var_id), t.var_ty(tv, b.term_id)) {
                None => None,
                Some(u) => Some(Class { constant: None, members: seq![(tv, b.term_id), var], others: seq![], ty: u }),
            },
        }
    } else if reverse {
        match b.term {
            Term::Object(o) => Some(Class { constant: Some(o), members: seq![], others: seq![var], ty: t.object_ty(o) }),
            Term::Variable(tv) => Some(
                Class { constant: None, members: seq![(tv, b.term_id)], others: seq![var], ty: t.var_ty(tv, b.term_id) },
            ),
        }
    } else {
        match b.term {
            Term::Object(_) => None,
            Term::Variable(tv) => Some(
                Class { constant: None, members: seq![var], others: seq![(tv, b.term_id)], ty: t.var_ty(b.var, b.var_id) },
            ),
        }
    }
}

/// The newest class (the first in the chain) that holds a variable.
pub open spec fn var_class(sets: Seq<Class>, var: (Variable, usize)) -> Option<int>
    decreases sets.len(),
{
    if sets.len() == 0 {
        None
    } else if sets[0].members.contains(var) {
        Some(0)
    } else {
        match var_class(sets.drop_first(), var) {
            Some(i) => Some(i + 1),
            None => None,
        }
    }
}

/// The newest class pinned to an object.
pub open spec fn object_class(sets: Seq<Class>, o: Object) -> Option<int>
    decreases sets.len(),
{
    if sets.len() == 0 {
        None
    } else if sets[0].constant == Some(o) {
        Some(0)
    } else {
        match object_class(sets.drop_first(), o) {
            Some(i) => Some(i + 1),
            None => None,
        }
    }
}

/// The newest class of a term.
pub open spec fn term_class(sets: Seq<Class>, term: Term, id: usize) -> Option<int> {
    match term {
        Term::Object(o) => object_class(sets, o),
        Term::Variable(v) => var_class(sets, (v, id)),
    }
}

/// Puts a class in front, where there is one.
pub open spec fn fronted(c: Option<Class>, sets: Seq<Class>) -> Seq<Class> {
    match c {
        Some(v) => seq![v] + sets,
        None => sets,
    }
}

/// The class that an equality binding puts in front, or `None` if it is
/// inconsistent.
pub open spec fn equated(t: Typing, sets: Seq<Class>, b: Binding) -> Option<Class> {
    match (var_class(sets, (b.var, b.var_id)), term_class(sets, b.term, b.term_id)) {
        (None, None) => made(t, b, false),
        (Some(i), Some(j)) => if i == j {
            Some(sets[i])
        } else {
            sets[i].merged(t, sets[j])
        },
        (None, Some(j)) => sets[j].with_var(t, b.var, b.var_id),
        (Some(i), None) => sets[i].with_term(t, b.term, b.term_id),
    }
}

/// What an inequality binding puts in front for its variable.
pub open spec fn kept_from_term(t: Typing, sets: Seq<Class>, b: Binding) -> Option<Class> {
    match var_class(sets, (b.var, b.var_id)) {
        None => made(t, b, false),
        Some(i) => match b.term {
            Term::Variable(tv) => if sets[i].others.contains((tv, b.term_id)) {
                None
            } else {
                Some(sets[i].without(tv, b.term_id))
            },
            Term::Object(_) => None,
        },
    }
}

/// What an inequality binding puts in front for its term.
pub open spec fn kept_from_var(t: Typing, sets: Seq<Class>, b: Binding) -> Option<Class> {
    match term_class(sets, b.term, b.term_id) {
        None => made(t, b, true),
        Some(j) => if sets[j].others.contains((b.var, b.var_id)) {
            None
        } else {
            Some(sets[j].without(b.var, b.var_id))
        },
    }
}

/// The classes after one binding, or `None` if it is inconsistent with them.
pub open spec fn bound(t: Typing, sets: Seq<Class>, b: Binding) -> Option<Seq<Class>> {
    if b.equality {
        match equated(t, sets, b) {
            None => None,
            Some(c) => Some(seq![c] + sets),
        }
    } else {
        let i = var_class(sets, (b.var, b.var_id));
        if i is Some && i == term_class(sets, b.term, b.term_id) {
            None
        } else {
            Some(fronted(kept_from_var(t, sets, b), fronted(kept_from_term(t, sets, b), sets)))
        }
    }
}

/// The classes after a list of bindings, or `None` if they are inconsistent.
pub open spec fn bound_all(t: Typing, sets: Seq<Class>, bs: Seq<Binding>) -> Option<Seq<Class>>
    decreases bs.len(),
{
    if bs.len() == 0 {
        Some(sets)
    } else {
        match bound_all(t, sets, bs.drop_last()) {
            None => None,
            Some(s) => bound(t, s, bs.last()),
        }
    }
}

fn has(c: &Option<Rc<Chain<(Variable, usize)>>>, x: (Variable, usize)) -> (res: bool)
    ensures
        res == elements(c).contains(x),
    decreases c,
{
    match c {
        None => false,
        Some(node) => {
            let ghost rest = elements(&node.tail);
            let ghost all = elements(c);
            assert(all == seq![node.head] + rest);
            if node.head.0 == x.0 && node.head.1 == x.1 {
                assert(all[0] == x);
                true
            } else {
                let res = has(&node.tail, x);
                proof {
                    if rest.contains(x) {
                        let k = choose|k: int| 0 <= k < rest.len() && rest[k] == x;
                        assert(all[k + 1] == x);
                    }
                    if all.contains(x) {
                        let k = choose|k: int| 0 <= k < all.len() && all[k] == x;
                        assert(k > 0);
                        assert(rest[k - 1] == x);
                    }
                }
                res
            }
        },
    }
}

/// Puts the elements of `front` in front of `back`, or gives up at one that is in
/// `barred`.
fn stack(
    front: &Option<Rc<Chain<(Variable, usize)>>>,
    back: Option<Rc<Chain<(Variable, usize)>>>,
    barred: &Option<Rc<Chain<(Variable, usize)>>>,
) -> (res: Option<Option<Rc<Chain<(Variable, usize)>>>>)
    ensures
        res is None <==> meet_in(elements(front), elements(barred)),
        res matches Some(r) ==> elements(&r) == stacked(elements(front), elements(&back)),
    decreases front,
{
    match front {
        None => Some(back),
        Some(node) => {
            let ghost all = elements(front);
            assert(all[0] == node.head);
            assert(all.drop_first() =~= elements(&node.tail));
            if has(barred, node.head) {
                assert(elements(barred).contains(all[0]));
                return None;
            }
            let next = chain::cons(node.head, back);
            let res = stack(&node.tail, next, barred);
            proof {
                lemma_meet_in(all, elements(barred));
            }
            res
        },
    }
}

/// As [`stack`], leaving out what is in `known`.
fn stack_new(
    front: &Option<Rc<Chain<(Variable, usize)>>>,
    back: Option<Rc<Chain<(Variable, usize)>>>,
    barred: &Option<Rc<Chain<(Variable, usize)>>>,
    known: &Option<Rc<Chain<(Variable, usize)>>>,
) -> (res: Option<Option<Rc<Chain<(Variable, usize)>>>>)
    ensures
        res is None <==> meet_in(elements(front), elements(barred)),
        res matches Some(r) ==> elements(&r) == stacked_new(elements(front), elements(&back), elements(known)),
    decreases front,
{
    match front {
        None => Some(back),
        Some(node) => {
            let ghost all = elements(front);
            assert(all[0] == node.head);
            assert(all.drop_first() =~= elements(&node.tail));
            if has(barred, node.head) {
                assert(elements(barred).contains(all[0]));
                return None;
            }
            let next = if has(known, node.head) {
                back
            } else {
                chain::cons(node.head, back)
            };
            let res = stack_new(&node.tail, next, barred, known);
            proof {
                lemma_meet_in(all, elements(barred));
            }
            res
        },
    }
}

proof fn lemma_meet_in(a: Seq<(Variable, usize)>, b: Seq<(Variable, usize)>)
    requires
        a.len() > 0,
    ensures
        meet_in(a, b) == (b.contains(a[0]) || meet_in(a.drop_first(), b)),
{
    let rest = a.drop_first();
    if meet_in(rest, b) {
        let i = choose|i: int| 0 <= i < rest.len() && b.contains(#[trigger] rest[i]);
        assert(a[i + 1] == rest[i]);
    }
    if meet_in(a, b) {
        let i = choose|i: int| 0 <= i < a.len() && b.contains(#[trigger] a[i]);
        if i > 0 {
            assert(rest[i - 1] == a[i]);
        }
    }
}

impl Varset {
    fn includes_object(&self, obj: Object) -> (res: bool)
        ensures
            res == (self@.constant == Some(obj)),
    {
        match self.constant {
            Some(c) => c == obj,
            None => false,
        }
    }

    fn includes_var(&self, var: Variable, step_id: usize) -> (res: bool)
        ensures
            res == self@.members.contains((var, step_id)),
    {
        has(&self.cd_set, (var, step_id))
    }

    fn excludes_var(&self, var: Variable, step_id: usize) -> (res: bool)
        ensures
            res == self@.others.contains((var, step_id)),
    {
        has(&self.ncd_set, (var, step_id))
    }

    fn clone_shallow(&self) -> (res: Varset)
        ensures
            res@ == self@,
    {
        Varset { constant: self.constant, cd_set: chain::share(&self.cd_set), ncd_set: chain::share(&self.ncd_set), ty: self.ty }
    }

    /// Adds an object to this varset, or `None` if excluded.
    fn add_object(&self, ctx: &TypeContext, obj: Object) -> (res: Option<Varset>)
        requires
            ctx.wf(),
        ensures
            match self@.with_object(ctx@, obj) {
                None => res is None,
                Some(c) => res matches Some(r) && r@ == c,
            },
    {
        match self.constant {
            Some(c) => {
                if c == obj {
                    Some(self.clone_shallow())
                } else {
                    None
                }
            },
            None => {
                let ot = ctx.object_type(obj);
                if ctx.subtype(ot, self.ty) {
                    Some(
                        Varset {
                            constant: Some(obj),
                            cd_set: chain::share(&self.cd_set),
                            ncd_set: chain::share(&self.ncd_set),
                            ty: ot,
                        },
                    )
                } else {
                    None
                }
            },
        }
    }

    /// Adds a variable to this varset, or `None` if excluded/incompatible.
    fn add_var(&self, ctx: &TypeContext, var: Variable, step_id: usize) -> (res: Option<Varset>)
        requires
            ctx.wf(),
        ensures
            match self@.with_var(ctx@, var, step_id) {
                None => res is None,
                Some(c) => res matches Some(r) && r@ == c,
            },
    {
        if self.excludes_var(var, step_id) {
            return None;
        }
        let var_ty = ctx.variable_type(var, step_id);
        let tt = match self.constant {
            Some(_) => {
                if !ctx.subtype(self.ty, var_ty) {
                    return None;
                }
                self.ty
            },
            None => match ctx.most_specific(self.ty, var_ty) {
                Some(u) => u,
                None => {
                    return None;
                },
            },
        };
        let new_cd = chain::cons((var, step_id), chain::share(&self.cd_set));
        Some(Varset { constant: self.constant, cd_set: new_cd, ncd_set: chain::share(&self.ncd_set), ty: tt })
    }

    fn add_term(&self, ctx: &TypeContext, term: Term, step_id: usize) -> (res: Option<Varset>)
        requires
            ctx.wf(),
        ensures
            match self@.with_term(ctx@, term, step_id) {
                None => res is None,
                Some(c) => res matches Some(r) && r@ == c,
            },
    {
        match term {
            Term::Object(o) => self.add_object(ctx, o),
            Term::Variable(v) => self.add_var(ctx, v, step_id),
        }
    }

    /// Adds a variable to the non-codesignation list.
    fn restrict(&self, var: Variable, step_id: usize) -> (res: Varset)
        ensures
            res@ == self@.without(var, step_id),
    {
        let new_ncd = chain::cons((var, step_id), chain::share(&self.ncd_set));
        Varset { constant: self.constant, cd_set: chain::share(&self.cd_set), ncd_set: new_ncd, ty: self.ty }
    }

    /// Combines two varsets, or `None` if inconsistent.
    fn combine(&self, ctx: &TypeContext, vs: &Varset) -> (res: Option<Varset>)
        requires
            ctx.wf(),
        ensures
            match self@.merged(ctx@, vs@) {
                None => res is None,
                Some(c) => res matches Some(r) && r@ == c,
            },
    {
        let (comb_obj, tt) = match (self.constant, vs.constant) {
            (Some(c1), Some(c2)) => {
                if c1 != c2 {
                    return None;
                }
                (Some(c1), self.ty)
            },
            (Some(c1), None) => {
                if !ctx.subtype(self.ty, vs.ty) {
                    return None;
                }
                (Some(c1), self.ty)
            },
            (None, Some(c2)) => {
                if !ctx.subtype(vs.ty, self.ty) {
                    return None;
                }
                (Some(c2), vs.ty)
            },
            (None, None) => match ctx.most_specific(self.ty, vs.ty) {
                None => {
                    return None;
                },
                Some(u) => (None, u),
            },
        };
        // The codesignation lists together, rejecting any member that self excludes.
        let comb_cd = match stack(&vs.cd_set, chain::share(&self.cd_set), &self.ncd_set) {
            None => {
                return None;
            },
            Some(c) => c,
        };
        // The non-codesignation lists together, rejecting any member self includes.
        let comb_ncd = match stack_new(&vs.ncd_set, chain::share(&self.ncd_set), &self.cd_set, &self.ncd_set) {
            None => {
                return None;
            },
            Some(c) => c,
        };
        Some(Varset { constant: comb_obj, cd_set: comb_cd, ncd_set: comb_ncd, ty: tt })
    }

    /// Builds the varset representing a single binding.
    fn make(ctx: &TypeContext, b: &Binding, reverse: bool) -> (res: Option<Varset>)
        requires
            ctx.wf(),
        ensures
            match made(ctx@, *b, reverse) {
                None => res is None,
                Some(c) => res matches Some(r) && r@ == c,
            },
    {
        let var = (b.var, b.var_id);
        let none: Option<Rc<Chain<(Variable, usize)>>> = None;
        let only_var = chain::cons(var, None);
        assert(elements(&none) =~= seq![]);
        assert(elements(&only_var) =~= seq![var]);
        if b.equality {
            match b.term {
                Term::Object(obj) => Some(
                    Varset { constant: Some(obj), cd_set: only_var, ncd_set: none, ty: ctx.object_type(obj) },
                ),
                Term::Variable(tv) => {
                    match ctx.most_specific(ctx.variable_type(b.var, b.var_id), ctx.variable_type(tv, b.term_id)) {
                        None => None,
                        Some(tt) => {
                            let cd = chain::cons((tv, b.term_id), only_var);
                            assert(elements(&cd) =~= seq![(tv, b.term_id), var]);
                            Some(Varset { constant: None, cd_set: cd, ncd_set: none, ty: tt })
                        },
                    }
                },
            }
        } else if reverse {
            match b.term {
                Term::Object(obj) => Some(
                    Varset { constant: Some(obj), cd_set: none, ncd_set: only_var, ty: ctx.object_type(obj) },
                ),
                Term::Variable(tv) => {
                    let cd = chain::cons((tv, b.term_id), none);
                    assert(elements(&cd) =~= seq![(tv, b.term_id)]);
                    Some(Varset { constant: None, cd_set: cd, ncd_set: only_var, ty: ctx.variable_type(tv, b.term_id) })
                },
            }
        } else {
            match b.term {
                Term::Object(_) => None,
                Term::Variable(tv) => {
                    let ncd = chain::cons((tv, b.term_id), none);
                    assert(elements(&ncd) =~= seq![(tv, b.term_id)]);
                    Some(Varset { constant: None, cd_set: only_var, ncd_set: ncd, ty: ctx.variable_type(b.var, b.var_id) })
                },
            }
        }
    }
}

/// A collection of variable bindings. However it came about, its classes are
/// [`composed`].
#[derive(Debug)]
pub struct Bindings {
    /// Varsets; the head is the most recently added.
    varsets: Option<Rc<Chain<Varset>>>,
    /// Highest step id mentioned in any varset.
    high_step: usize,
}

/// The classes of a chain, newest first.
pub open spec fn classes(varsets: Seq<Varset>) -> Seq<Class> {
    Seq::new(varsets.len(), |i: int| varsets[i]@)
}

/// What a term at a step is bound to: an object, or the term itself.
pub open spec fn resolved(sets: Seq<Class>, term: Term, id: usize) -> Term {
    match term {
        Term::Object(_) => term,
        Term::Variable(v) => match var_class(sets, (v, id)) {
            None => term,
            Some(i) => match sets[i].constant {
                Some(c) => Term::Object(c),
                None => term,
            },
        },
    }
}

/// The highest of a step id and those a binding mentions.
pub open spec fn raised(high: usize, b: Binding) -> usize {
    let h = if b.var_id > high {
        b.var_id
    } else {
        high
    };
    if b.term is Variable && b.term_id > h {
        b.term_id
    } else {
        h
    }
}

pub open spec fn raised_all(high: usize, bs: Seq<Binding>) -> usize
    decreases bs.len(),
{
    if bs.len() == 0 {
        high
    } else {
        raised(raised_all(high, bs.drop_last()), bs.last())
    }
}

/// How far two argument lists have been matched: the bindings that this takes,
/// the objects found for variables, and whether it is still possible.
#[verifier::ext_equal]
pub struct Matching {
    pub mgu: Seq<Binding>,
    pub seen: Seq<(Variable, Object)>,
    pub ok: bool,
}

/// The object found for a variable.
pub open spec fn seen_object(seen: Seq<(Variable, Object)>, v: Variable) -> Option<Object>
    decreases seen.len(),
{
    if seen.len() == 0 {
        None
    } else if seen[0].0 == v {
        Some(seen[0].1)
    } else {
        seen_object(seen.drop_first(), v)
    }
}

/// One more argument matched against an object.
pub open spec fn match_object(t: Typing, sets: Seq<Class>, m: Matching, term: Term, id: usize, o: Object) -> Matching {
    match term {
        Term::Object(p) => Matching { ok: p == o, ..m },
        Term::Variable(v) => match seen_object(m.seen, v) {
            Some(p) => Matching { ok: p == o, ..m },
            None => match resolved(sets, term, id) {
                Term::Object(p) => if p == o {
                    Matching { seen: m.seen.push((v, o)), ..m }
                } else {
                    Matching { ok: false, ..m }
                },
                Term::Variable(_) => if t.below(t.object_ty(o), t.var_ty(v, id)) {
                    Matching {
                        mgu: m.mgu.push(Binding { var: v, var_id: id, term: Term::Object(o), term_id: 0, equality: true }),
                        seen: m.seen.push((v, o)),
                        ok: true,
                    }
                } else {
                    Matching { ok: false, ..m }
                },
            },
        },
    }
}

/// The first `n` arguments matched against objects.
pub open spec fn match_ground(t: Typing, sets: Seq<Class>, terms: Seq<Term>, id: usize, objs: Seq<Term>, n: nat) -> Matching
    decreases n,
{
    if n == 0 {
        Matching { mgu: seq![], seen: seq![], ok: true }
    } else {
        let m = match_ground(t, sets, terms, id, objs, (n - 1) as nat);
        if m.ok {
            match_object(t, sets, m, terms[n - 1], id, objs[n - 1]->Object_0)
        } else {
            m
        }
    }
}

/// One more pair of arguments matched.
pub open spec fn match_pair(t: Typing, m: Matching, t1: Term, id1: usize, t2: Term, id2: usize) -> Matching {
    match (t1, t2) {
        (Term::Object(o1), Term::Object(o2)) => Matching { ok: o1 == o2, ..m },
        (Term::Object(_), Term::Variable(v2)) => if t.below(t.term_ty(t1, id1), t.var_ty(v2, id2)) {
            Matching { mgu: m.mgu.push(Binding { var: v2, var_id: id2, term: t1, term_id: 0, equality: true }), ..m }
        } else {
            Matching { ok: false, ..m }
        },
        (Term::Variable(v1), Term::Object(_)) => if t.below(t.term_ty(t2, id2), t.var_ty(v1, id1)) {
            Matching { mgu: m.mgu.push(Binding { var: v1, var_id: id1, term: t2, term_id: id2, equality: true }), ..m }
        } else {
            Matching { ok: false, ..m }
        },
        (Term::Variable(v1), Term::Variable(v2)) => if t.meet(t.var_ty(v1, id1), t.var_ty(v2, id2)) is Some {
            Matching { mgu: m.mgu.push(Binding { var: v1, var_id: id1, term: t2, term_id: id2, equality: true }), ..m }
        } else {
            Matching { ok: false, ..m }
        },
    }
}

/// The first `n` arguments of two lists matched pair by pair.
pub open spec fn match_lifted(t: Typing, ts1: Seq<Term>, id1: usize, ts2: Seq<Term>, id2: usize, n: nat) -> Matching
    decreases n,
{
    if n == 0 {
        Matching { mgu: seq![], seen: seq![], ok: true }
    } else {
        let m = match_lifted(t, ts1, id1, ts2, id2, (n - 1) as nat);
        if m.ok {
            match_pair(t, m, ts1[n - 1], id1, ts2[n - 1], id2)
        } else {
            m
        }
    }
}

/// Two atoms of one predicate and arity matched, where not both are ground.
pub open spec fn matching(t: Typing, sets: Seq<Class>, a1: AtomView, id1: usize, a2: AtomView, id2: usize) -> Matching {
    if a1.ground() {
        match_ground(t, sets, a2.terms, id2, a1.terms, a2.terms.len())
    } else if a2.ground() {
        match_ground(t, sets, a1.terms, id1, a2.terms, a1.terms.len())
    } else {
        match_lifted(t, a1.terms, id1, a2.terms, id2, a1.terms.len())
    }
}

/// Whether two atoms have the same predicate and arity.
pub open spec fn same_head(a1: AtomView, a2: AtomView) -> bool {
    a1.predicate == a2.predicate && a1.terms.len() == a2.terms.len()
}

/// The bindings that matching two atoms takes, as far as it gets.
pub open spec fn unifier(t: Typing, sets: Seq<Class>, a1: AtomView, id1: usize, a2: AtomView, id2: usize) -> Seq<Binding> {
    if !same_head(a1, a2) || (a1.ground() && a2.ground()) {
        seq![]
    } else {
        matching(t, sets, a1, id1, a2, id2).mgu
    }
}

/// Whether two atoms unify, given classes and the bindings `pre` to be added to
/// them with the unifier.
pub open spec fn atoms_unify(
    t: Typing,
    sets: Seq<Class>,
    pre: Seq<Binding>,
    a1: AtomView,
    id1: usize,
    a2: AtomView,
    id2: usize,
) -> bool {
    if !same_head(a1, a2) {
        false
    } else if a1.ground() && a2.ground() {
        a1.terms == a2.terms
    } else {
        matching(t, sets, a1, id1, a2, id2).ok && bound_all(t, sets, pre + unifier(t, sets, a1, id1, a2, id2)) is Some
    }
}

/// Whether two literals unify.
pub open spec fn literals_unify(
    t: Typing,
    sets: Seq<Class>,
    pre: Seq<Binding>,
    l1: LiteralView,
    id1: usize,
    l2: LiteralView,
    id2: usize,
) -> bool {
    l1.negative == l2.negative && atoms_unify(t, sets, pre, l1.atom, id1, l2.atom, id2)
}

/// Whether one literal may be the negation of another.
pub open spec fn literals_clash(
    t: Typing,
    sets: Seq<Class>,
    pre: Seq<Binding>,
    l1: LiteralView,
    id1: usize,
    l2: LiteralView,
    id2: usize,
) -> bool {
    l1.negative != l2.negative && atoms_unify(t, sets, pre, l2.atom, id2, l1.atom, id1)
}

/// Whether object `o` is barred from the class of a variable: some class pinned
/// to it is kept from a member of the variable's class, or that class is kept
/// from a variable pinned to it.
pub open spec fn barred(sets: Seq<Class>, var: (Variable, usize), o: Object) -> bool {
    ||| exists|i: int| 0 <= i < sets.len() && #[trigger] pinned_apart(sets, i, var, o)
    ||| exists|v: Variable, id: usize| #[trigger] kept_apart(sets, var, v, id) && resolved(sets, Term::Variable(v), id) == Term::Object(o)
}

/// Whether class `i` is pinned to `o` and kept from a member of the class of a
/// variable.
pub open spec fn pinned_apart(sets: Seq<Class>, i: int, var: (Variable, usize), o: Object) -> bool {
    sets[i].constant == Some(o) && meet_in(sets[i].others, class_members(sets, var))
}

/// The members of the class of a variable: itself when it has none.
pub open spec fn class_members(sets: Seq<Class>, var: (Variable, usize)) -> Seq<(Variable, usize)> {
    match var_class(sets, var) {
        None => seq![var],
        Some(k) => sets[k].members,
    }
}

/// Whether the class of a variable is kept from another variable.
pub open spec fn kept_apart(sets: Seq<Class>, var: (Variable, usize), v: Variable, id: usize) -> bool {
    var_class(sets, var) is Some && sets[var_class(sets, var)->0].others.contains((v, id))
}

/// The objects of a list that are not barred from a variable.
pub open spec fn unbarred(sets: Seq<Class>, var: (Variable, usize), os: Seq<Object>) -> Seq<Object>
    decreases os.len(),
{
    if os.len() == 0 {
        seq![]
    } else {
        let rest = unbarred(sets, var, os.drop_last());
        if barred(sets, var, os.last()) {
            rest
        } else {
            rest.push(os.last())
        }
    }
}

/// Whether every term of an atom is an object.
pub fn is_ground(a: &Atom) -> (res: bool)
    ensures
        res == a@.ground(),
{
    let mut i: usize = 0;
    while i < a.terms.len()
        invariant
            i <= a.terms@.len(),
            forall|j: int| 0 <= j < i ==> (#[trigger] a.terms@[j]) is Object,
        decreases a.terms@.len() - i,
    {
        if !a.terms[i].object() {
            assert(!(a@.terms[i as int] is Object));
            return false;
        }
        i = i + 1;
    }
    true
}

/// Head-first scan for the authoritative varset of a step-variable.
fn scan_var(varsets: &Option<Rc<Chain<Varset>>>, var: Variable, step_id: usize) -> (res: Option<Rc<Chain<Varset>>>)
    ensures
        match var_class(classes(elements(varsets)), (var, step_id)) {
            None => res is None,
            Some(i) => res matches Some(n) && 0 <= i < elements(varsets).len() && n.head@ == classes(elements(varsets))[i],
        },
    decreases varsets,
{
    match varsets {
        None => None,
        Some(node) => {
            let ghost all = classes(elements(varsets));
            assert(all[0] == node.head@);
            assert(all.drop_first() =~= classes(elements(&node.tail)));
            if node.head.includes_var(var, step_id) {
                Some(node.clone())
            } else {
                scan_var(&node.tail, var, step_id)
            }
        },
    }
}

/// Head-first scan for the authoritative varset of a pinned constant.
fn scan_obj(varsets: &Option<Rc<Chain<Varset>>>, obj: Object) -> (res: Option<Rc<Chain<Varset>>>)
    ensures
        match object_class(classes(elements(varsets)), obj) {
            None => res is None,
            Some(i) => res matches Some(n) && 0 <= i < elements(varsets).len() && n.head@ == classes(elements(varsets))[i],
        },
    decreases varsets,
{
    match varsets {
        None => None,
        Some(node) => {
            let ghost all = classes(elements(varsets));
            assert(all[0] == node.head@);
            assert(all.drop_first() =~= classes(elements(&node.tail)));
            if node.head.includes_object(obj) {
                Some(node.clone())
            } else {
                scan_obj(&node.tail, obj)
            }
        },
    }
}

/// Whether a scan result is the class at a position.
spec fn is_found(sets: Seq<Class>, at: Option<int>, res: Option<Rc<Chain<Varset>>>) -> bool {
    match at {
        None => res is None,
        Some(i) => res matches Some(n) && 0 <= i < sets.len() && n.head@ == sets[i],
    }
}

fn scan_term(varsets: &Option<Rc<Chain<Varset>>>, term: Term, term_id: usize) -> (res: Option<Rc<Chain<Varset>>>)
    ensures
        is_found(classes(elements(varsets)), term_class(classes(elements(varsets)), term, term_id), res),
{
    match term {
        Term::Object(o) => scan_obj(varsets, o),
        Term::Variable(v) => scan_var(varsets, v, term_id),
    }
}

/// The authoritative varsets of both sides of a binding, and whether they are one.
fn scan_both(varsets: &Option<Rc<Chain<Varset>>>, b: &Binding) -> (res: (
    Option<Rc<Chain<Varset>>>,
    Option<Rc<Chain<Varset>>>,
    bool,
))
    ensures
        ({
            let sets = classes(elements(varsets));
            let i = var_class(sets, (b.var, b.var_id));
            let j = term_class(sets, b.term, b.term_id);
            &&& is_found(sets, i, res.0)
            &&& is_found(sets, j, res.1)
            &&& res.2 == (i is Some && i == j)
        }),
    decreases varsets,
{
    match varsets {
        None => (None, None, false),
        Some(node) => {
            let ghost all = classes(elements(varsets));
            let ghost rest = classes(elements(&node.tail));
            assert(all[0] == node.head@);
            assert(all.drop_first() =~= rest);
            let has_var = node.head.includes_var(b.var, b.var_id);
            let has_term = match b.term {
                Term::Object(o) => node.head.includes_object(o),
                Term::Variable(tv) => node.head.includes_var(tv, b.term_id),
            };
            proof {
                lemma_class_shift(all, b);
            }
            if has_var && has_term {
                (Some(node.clone()), Some(node.clone()), true)
            } else if has_var {
                (Some(node.clone()), scan_term(&node.tail, b.term, b.term_id), false)
            } else if has_term {
                (scan_var(&node.tail, b.var, b.var_id), Some(node.clone()), false)
            } else {
                scan_both(&node.tail, b)
            }
        },
    }
}

/// A class found lies in the chain.
pub proof fn lemma_found_class(sets: Seq<Class>, var: (Variable, usize))
    ensures
        match var_class(sets, var) {
            None => forall|i: int| 0 <= i < sets.len() ==> !(#[trigger] sets[i]).members.contains(var),
            Some(i) => 0 <= i < sets.len() && sets[i].members.contains(var) && forall|k: int|
                0 <= k < i ==> !(#[trigger] sets[k]).members.contains(var),
        },
    decreases sets.len(),
{
    if sets.len() > 0 && !sets[0].members.contains(var) {
        let rest = sets.drop_first();
        lemma_found_class(rest, var);
        assert forall|i: int| 0 < i < sets.len() implies #[trigger] sets[i] == rest[i - 1] by {}
    }
}

/// An object's class lies in the chain.
pub proof fn lemma_found_object(sets: Seq<Class>, o: Object)
    ensures
        match object_class(sets, o) {
            None => forall|i: int| 0 <= i < sets.len() ==> (#[trigger] sets[i]).constant != Some(o),
            Some(i) => 0 <= i < sets.len() && sets[i].constant == Some(o),
        },
    decreases sets.len(),
{
    if sets.len() > 0 && sets[0].constant != Some(o) {
        let rest = sets.drop_first();
        lemma_found_object(rest, o);
        assert forall|i: int| 0 < i < sets.len() implies #[trigger] sets[i] == rest[i - 1] by {}
    }
}

proof fn lemma_class_shift(sets: Seq<Class>, b: &Binding)
    requires
        sets.len() > 0,
    ensures
        var_class(sets.drop_first(), (b.var, b.var_id)) matches Some(i) ==> 0 <= i < sets.len() - 1,
        term_class(sets.drop_first(), b.term, b.term_id) matches Some(i) ==> 0 <= i < sets.len() - 1,
{
    let rest = sets.drop_first();
    lemma_found_class(rest, (b.var, b.var_id));
    match b.term {
        Term::Object(o) => {
            lemma_found_object(rest, o);
        },
        Term::Variable(v) => {
            lemma_found_class(rest, (v, b.term_id));
        },
    }
}

/// Adds one binding to a chain.
fn add_one(ctx: &TypeContext, varsets: Option<Rc<Chain<Varset>>>, b: &Binding) -> (res: Option<Option<Rc<Chain<Varset>>>>)
    requires
        ctx.wf(),
    ensures
        match bound(ctx@, classes(elements(&varsets)), *b) {
            None => res is None,
            Some(s) => res matches Some(r) && classes(elements(&r)) == s,
        },
{
    let ghost sets = classes(elements(&varsets));
    let (vs1, vs2, one) = scan_both(&varsets, b);
    if b.equality {
        let comb = match (vs1, vs2) {
            (None, None) => Varset::make(ctx, b, false),
            (Some(n1), Some(n2)) => {
                if one {
                    // Already bound to each other: reuse existing varset.
                    Some(n1.head.clone_shallow())
                } else {
                    n1.head.combine(ctx, &n2.head)
                }
            },
            (None, Some(n2)) => n2.head.add_var(ctx, b.var, b.var_id),
            (Some(n1), None) => n1.head.add_term(ctx, b.term, b.term_id),
        };
        match comb {
            None => None,
            Some(new_vs) => {
                let ghost front = new_vs@;
                let res = chain::cons(new_vs, varsets);
                assert(classes(elements(&res)) =~= seq![front] + sets);
                Some(res)
            },
        }
    } else {
        if one {
            // Already bound to each other: inconsistent.
            return None;
        }
        // Separate the second term from the first. When the variable side has no
        // varset yet and the term is an object, there is nothing to record here:
        // the separation is recorded in the object's varset.
        let new_vs1 = match vs1 {
            None => Varset::make(ctx, b, false),
            Some(n1) => match b.term {
                Term::Variable(tv) => {
                    if n1.head.excludes_var(tv, b.term_id) {
                        None
                    } else {
                        Some(n1.head.restrict(tv, b.term_id))
                    }
                },
                Term::Object(_) => None,
            },
        };
        // Separate the first term from the second.
        let new_vs2 = match vs2 {
            None => Varset::make(ctx, b, true),
            Some(n2) => {
                if n2.head.excludes_var(b.var, b.var_id) {
                    None
                } else {
                    Some(n2.head.restrict(b.var, b.var_id))
                }
            },
        };
        let first = match new_vs1 {
            Some(v1) => {
                let ghost front = v1@;
                let res = chain::cons(v1, varsets);
                assert(classes(elements(&res)) =~= seq![front] + sets);
                res
            },
            None => varsets,
        };
        let ghost middle = classes(elements(&first));
        assert(middle == fronted(kept_from_term(ctx@, sets, *b), sets));
        let second = match new_vs2 {
            Some(v2) => {
                let ghost front = v2@;
                let res = chain::cons(v2, first);
                assert(classes(elements(&res)) =~= seq![front] + middle);
                res
            },
            None => first,
        };
        Some(second)
    }
}

proof fn lemma_bound_prefix(t: Typing, sets: Seq<Class>, bs: Seq<Binding>, n: int)
    requires
        0 <= n <= bs.len(),
        bound_all(t, sets, bs.take(n)) is None,
    ensures
        bound_all(t, sets, bs) is None,
    decreases bs.len(),
{
    if n == bs.len() {
        assert(bs.take(n) =~= bs);
    } else {
        assert(bs.drop_last().take(n) =~= bs.take(n));
        lemma_bound_prefix(t, sets, bs.drop_last(), n);
    }
}

impl Bindings {
    /// The classes, newest first.
    pub closed spec fn view(&self) -> Seq<Class> {
        classes(elements(&self.varsets))
    }

    #[verifier::type_invariant]
    closed spec fn is_composed(self) -> bool {
        composed(classes(elements(&self.varsets)))
    }

    /// The highest step id mentioned.
    pub closed spec fn high(&self) -> usize {
        self.high_step
    }

    pub fn empty() -> (res: Rc<Bindings>)
        ensures
            res@ == Seq::<Class>::empty(),
            res.high() == 0,
            composed(res@),
    {
        proof {
            no_classes_are_composed();
        }
        assert(classes(elements(&None::<Rc<Chain<Varset>>>)) =~= Seq::empty());
        Rc::new(Bindings { varsets: None, high_step: 0 })
    }

    /// Lookups scan the chain: there is no index to drop.
    pub fn clear_index(&self) {
    }

    /// Returns the constant bound to `term` at `step_id`, or `term` itself when
    /// unbound.
    pub fn binding(&self, term: Term, step_id: usize) -> (res: Term)
        ensures
            res == resolved(self@, term, step_id),
    {
        match term {
            Term::Object(_) => term,
            Term::Variable(v) => match scan_var(&self.varsets, v, step_id) {
                None => term,
                Some(node) => match node.head.constant {
                    Some(c) => Term::Object(c),
                    None => term,
                },
            },
        }
    }

    /// Computes the varsets/high-step that would result from adding
    /// `new_bindings`, or `None` if inconsistent. Shared by [`Bindings::add`]
    /// and the consistency checks in `unify`/`affects`.
    fn try_add(&self, ctx: &TypeContext, new_bindings: &Vec<Binding>) -> (res: Option<(Option<Rc<Chain<Varset>>>, usize)>)
        requires
            ctx.wf(),
        ensures
            match bound_all(ctx@, self@, new_bindings@) {
                None => res is None,
                Some(s) => res matches Some((r, h)) && classes(elements(&r)) == s && h == raised_all(self.high(), new_bindings@),
            },
    {
        let mut varsets = chain::share(&self.varsets);
        let mut high_step = self.high_step;
        let mut i: usize = 0;
        assert(new_bindings@.take(0) =~= Seq::empty());
        while i < new_bindings.len()
            invariant
                ctx.wf(),
                i <= new_bindings@.len(),
                bound_all(ctx@, self@, new_bindings@.take(i as int)) == Some(classes(elements(&varsets))),
                high_step == raised_all(self.high(), new_bindings@.take(i as int)),
            decreases new_bindings@.len() - i,
        {
            let b = new_bindings[i];
            let ghost upto = new_bindings@.take(i + 1);
            assert(upto.drop_last() =~= new_bindings@.take(i as int));
            if b.var_id > high_step {
                high_step = b.var_id;
            }
            if b.term.variable() && b.term_id > high_step {
                high_step = b.term_id;
            }
            match add_one(ctx, varsets, &b) {
                None => {
                    proof {
                        lemma_bound_prefix(ctx@, self@, new_bindings@, i + 1);
                    }
                    return None;
                },
                Some(next) => {
                    varsets = next;
                },
            }
            i = i + 1;
        }
        assert(new_bindings@.take(i as int) =~= new_bindings@);
        Some((varsets, high_step))
    }

    /// Adds `new_bindings`, returning the resulting collection or `None` if
    /// inconsistent. When `test_only` is set, the result is `Some(self)` on
    /// success (no new collection is materialized).
    pub fn add(self: &Rc<Self>, ctx: &TypeContext, new_bindings: &Vec<Binding>, test_only: bool) -> (res: Option<Rc<Bindings>>)
        requires
            ctx.wf(),
        ensures
            match bound_all(ctx@, self@, new_bindings@) {
                None => res is None,
                Some(s) => res matches Some(r) && (if test_only || new_bindings@.len() == 0 {
                    *r == **self
                } else {
                    r@ == s && r.high() == raised_all(self.high(), new_bindings@)
                }) && composed(s),
            },
            composed(self@),
    {
        proof {
            use_type_invariant(&**self);
            if let Some(s) = bound_all(ctx@, self@, new_bindings@) {
                bindings_keep_composed(ctx@, self@, new_bindings@, s);
            }
        }
        match self.try_add(ctx, new_bindings) {
            None => None,
            Some((varsets, high_step)) => {
                if new_bindings.len() == 0 || test_only {
                    Some(self.clone())
                } else {
                    Some(Rc::new(Bindings { varsets, high_step }))
                }
            },
        }
    }

    /// Checks if `l1` is the negation of `l2` and the atoms unify.
    pub fn affects(&self, ctx: &TypeContext, l1: &Literal, id1: usize, l2: &Literal, id2: usize) -> (res: bool)
        requires
            ctx.wf(),
        ensures
            res == literals_clash(ctx@, self@, seq![], l1@, id1, l2@, id2),
    {
        let mut mgu: Vec<Binding> = Vec::new();
        assert(mgu@ =~= seq![]);
        self.affects_mgu(ctx, &mut mgu, l1, id1, l2, id2)
    }

    /// `affects`, collecting the unifier.
    pub fn affects_mgu(
        &self,
        ctx: &TypeContext,
        mgu: &mut Vec<Binding>,
        l1: &Literal,
        id1: usize,
        l2: &Literal,
        id2: usize,
    ) -> (res: bool)
        requires
            ctx.wf(),
        ensures
            res == literals_clash(ctx@, self@, old(mgu)@, l1@, id1, l2@, id2),
            final(mgu)@ == (if l1@.negative == l2@.negative {
                old(mgu)@
            } else {
                old(mgu)@ + unifier(ctx@, self@, l2@.atom, id2, l1@.atom, id1)
            }),
            composed(self@),
    {
        proof {
            use_type_invariant(self);
        }
        if l1.negative() == l2.negative() {
            return false;
        }
        self.unify_atoms(ctx, mgu, l2.atom(), id2, l1.atom(), id1)
    }

    /// Checks if two literals can be unified.
    pub fn unify(&self, ctx: &TypeContext, l1: &Literal, id1: usize, l2: &Literal, id2: usize) -> (res: bool)
        requires
            ctx.wf(),
        ensures
            res == literals_unify(ctx@, self@, seq![], l1@, id1, l2@, id2),
    {
        let mut mgu: Vec<Binding> = Vec::new();
        assert(mgu@ =~= seq![]);
        self.unify_mgu(ctx, &mut mgu, l1, id1, l2, id2)
    }

    /// `unify`, collecting the most general unifier. Atoms of different arity
    /// never unify.
    pub fn unify_mgu(
        &self,
        ctx: &TypeContext,
        mgu: &mut Vec<Binding>,
        l1: &Literal,
        id1: usize,
        l2: &Literal,
        id2: usize,
    ) -> (res: bool)
        requires
            ctx.wf(),
        ensures
            res == literals_unify(ctx@, self@, old(mgu)@, l1@, id1, l2@, id2),
            final(mgu)@ == (if l1@.negative == l2@.negative {
                old(mgu)@ + unifier(ctx@, self@, l1@.atom, id1, l2@.atom, id2)
            } else {
                old(mgu)@
            }),
            composed(self@),
    {
        proof {
            use_type_invariant(self);
        }
        if l1.negative() != l2.negative() {
            return false;
        }
        self.unify_atoms(ctx, mgu, l1.atom(), id1, l2.atom(), id2)
    }

    /// Unifies two atoms, collecting the bindings this takes.
    fn unify_atoms(&self, ctx: &TypeContext, mgu: &mut Vec<Binding>, a1: &Atom, id1: usize, a2: &Atom, id2: usize) -> (res: bool)
        requires
            ctx.wf(),
        ensures
            res == atoms_unify(ctx@, self@, old(mgu)@, a1@, id1, a2@, id2),
            final(mgu)@ == old(mgu)@ + unifier(ctx@, self@, a1@, id1, a2@, id2),
    {
        let ghost pre = mgu@;
        assert(pre + seq![] =~= pre);
        if a1.predicate != a2.predicate || a1.terms.len() != a2.terms.len() {
            return false;
        }
        let g1 = is_ground(a1);
        let g2 = is_ground(a2);
        let ok = if g1 && g2 {
            return same_terms(&a1.terms, &a2.terms);
        } else if g1 {
            self.unify_ground(ctx, mgu, &a2.terms, id2, &a1.terms)
        } else if g2 {
            self.unify_ground(ctx, mgu, &a1.terms, id1, &a2.terms)
        } else {
            self.unify_lifted(ctx, mgu, &a1.terms, id1, &a2.terms, id2)
        };
        // Unification must be consistent with current bindings.
        ok && self.try_add(ctx, mgu).is_some()
    }

    /// One literal is fully instantiated.
    fn unify_ground(&self, ctx: &TypeContext, mgu: &mut Vec<Binding>, terms: &Vec<Term>, id: usize, objs: &Vec<Term>) -> (res: bool)
        requires
            ctx.wf(),
            terms@.len() == objs@.len(),
            forall|i: int| 0 <= i < objs@.len() ==> (#[trigger] objs@[i]) is Object,
        ensures
            ({
                let m = match_ground(ctx@, self@, terms@, id, objs@, terms@.len());
                res == m.ok && final(mgu)@ == old(mgu)@ + m.mgu
            }),
    {
        let ghost pre = mgu@;
        let mut seen: Vec<(Variable, Object)> = Vec::new();
        let mut i: usize = 0;
        assert(seen@ =~= seq![]);
        assert(pre + seq![] =~= pre);
        while i < terms.len()
            invariant
                ctx.wf(),
                pre == old(mgu)@,
                i <= terms@.len(),
                terms@.len() == objs@.len(),
                forall|k: int| 0 <= k < objs@.len() ==> (#[trigger] objs@[k]) is Object,
                ({
                    let m = match_ground(ctx@, self@, terms@, id, objs@, i as nat);
                    m.ok && m.seen == seen@ && mgu@ == pre + m.mgu
                }),
            decreases terms@.len() - i,
        {
            let ghost m = match_ground(ctx@, self@, terms@, id, objs@, i as nat);
            let term = terms[i];
            let obj = objs[i].as_object();
            let mut failed = false;
            match term {
                Term::Object(o) => {
                    failed = o != obj;
                },
                Term::Variable(v) => {
                    match find_seen(&seen, v) {
                        Some(p) => {
                            failed = p != obj;
                        },
                        None => match self.binding(term, id) {
                            Term::Object(p) => {
                                if p != obj {
                                    failed = true;
                                } else {
                                    seen.push((v, obj));
                                }
                            },
                            Term::Variable(_) => {
                                if !ctx.subtype(ctx.object_type(obj), ctx.variable_type(v, id)) {
                                    failed = true;
                                } else {
                                    let b = Binding::new(v, id, Term::Object(obj), 0, true);
                                    mgu.push(b);
                                    seen.push((v, obj));
                                    assert(pre + m.mgu.push(b) =~= (pre + m.mgu).push(b));
                                }
                            },
                        },
                    }
                },
            }
            if failed {
                proof {
                    lemma_ground_stays(ctx@, self@, terms@, id, objs@, (i + 1) as nat, terms@.len());
                }
                return false;
            }
            i = i + 1;
        }
        true
    }

    /// Neither literal is fully instantiated.
    fn unify_lifted(
        &self,
        ctx: &TypeContext,
        mgu: &mut Vec<Binding>,
        ts1: &Vec<Term>,
        id1: usize,
        ts2: &Vec<Term>,
        id2: usize,
    ) -> (res: bool)
        requires
            ctx.wf(),
            ts1@.len() == ts2@.len(),
        ensures
            ({
                let m = match_lifted(ctx@, ts1@, id1, ts2@, id2, ts1@.len());
                res == m.ok && final(mgu)@ == old(mgu)@ + m.mgu
            }),
    {
        let ghost pre = mgu@;
        let mut i: usize = 0;
        assert(pre + seq![] =~= pre);
        while i < ts1.len()
            invariant
                ctx.wf(),
                pre == old(mgu)@,
                i <= ts1@.len(),
                ts1@.len() == ts2@.len(),
                ({
                    let m = match_lifted(ctx@, ts1@, id1, ts2@, id2, i as nat);
                    m.ok && mgu@ == pre + m.mgu
                }),
            decreases ts1@.len() - i,
        {
            let ghost m = match_lifted(ctx@, ts1@, id1, ts2@, id2, i as nat);
            let t1 = ts1[i];
            let t2 = ts2[i];
            let mut failed = false;
            match (t1, t2) {
                (Term::Object(o1), Term::Object(o2)) => {
                    failed = o1 != o2;
                },
                (Term::Object(_), Term::Variable(v2)) => {
                    if !ctx.subtype(ctx.term_type(t1, id1), ctx.variable_type(v2, id2)) {
                        failed = true;
                    } else {
                        let b = Binding::new(v2, id2, t1, 0, true);
                        mgu.push(b);
                        assert(pre + m.mgu.push(b) =~= (pre + m.mgu).push(b));
                    }
                },
                (Term::Variable(v1), Term::Object(_)) => {
                    if !ctx.subtype(ctx.term_type(t2, id2), ctx.variable_type(v1, id1)) {
                        failed = true;
                    } else {
                        let b = Binding::new(v1, id1, t2, id2, true);
                        mgu.push(b);
                        assert(pre + m.mgu.push(b) =~= (pre + m.mgu).push(b));
                    }
                },
                (Term::Variable(v1), Term::Variable(v2)) => {
                    if ctx.most_specific(ctx.variable_type(v1, id1), ctx.variable_type(v2, id2)).is_none() {
                        failed = true;
                    } else {
                        let b = Binding::new(v1, id1, t2, id2, true);
                        mgu.push(b);
                        assert(pre + m.mgu.push(b) =~= (pre + m.mgu).push(b));
                    }
                },
            }
            if failed {
                proof {
                    lemma_lifted_stays(ctx@, ts1@, id1, ts2@, id2, (i + 1) as nat, ts1@.len());
                }
                return false;
            }
            i = i + 1;
        }
        true
    }

    /// Checks consistency of an inequality `var != term`.
    pub fn consistent_with_inequality(&self, var: Variable, var_id: usize, term: Term, term_id: usize) -> (res: bool)
        ensures
            res == may_differ(self@, self.high(), var, var_id, term, term_id),
    {
        if term_id > self.high_step {
            return true;
        }
        match scan_term(&self.varsets, term, term_id) {
            None => true,
            Some(n) => !n.head.includes_var(var, var_id) || n.head.excludes_var(var, var_id),
        }
    }
}

/// Whether a variable is not known to equal a term: the term's class, if it has
/// one and its step is known, does not hold the variable.
pub open spec fn may_differ(sets: Seq<Class>, high: usize, var: Variable, var_id: usize, term: Term, term_id: usize) -> bool {
    term_id > high || match term_class(sets, term, term_id) {
        None => true,
        Some(i) => !sets[i].members.contains((var, var_id)) || sets[i].others.contains((var, var_id)),
    }
}

fn find_seen(seen: &Vec<(Variable, Object)>, v: Variable) -> (res: Option<Object>)
    ensures
        res == seen_object(seen@, v),
{
    let mut i: usize = 0;
    assert(seen@.skip(0) =~= seen@);
    while i < seen.len()
        invariant
            i <= seen@.len(),
            seen_object(seen@, v) == seen_object(seen@.skip(i as int), v),
        decreases seen@.len() - i,
    {
        assert(seen@.skip(i as int).drop_first() =~= seen@.skip(i + 1));
        if seen[i].0 == v {
            return Some(seen[i].1);
        }
        i = i + 1;
    }
    None
}

proof fn lemma_ground_stays(t: Typing, sets: Seq<Class>, terms: Seq<Term>, id: usize, objs: Seq<Term>, n: nat, m: nat)
    requires
        n <= m,
        !match_ground(t, sets, terms, id, objs, n).ok,
    ensures
        match_ground(t, sets, terms, id, objs, m) == match_ground(t, sets, terms, id, objs, n),
    decreases m - n,
{
    if n < m {
        lemma_ground_stays(t, sets, terms, id, objs, n, (m - 1) as nat);
    }
}

proof fn lemma_lifted_stays(t: Typing, ts1: Seq<Term>, id1: usize, ts2: Seq<Term>, id2: usize, n: nat, m: nat)
    requires
        n <= m,
        !match_lifted(t, ts1, id1, ts2, id2, n).ok,
    ensures
        match_lifted(t, ts1, id1, ts2, id2, m) == match_lifted(t, ts1, id1, ts2, id2, n),
    decreases m - n,
{
    if n < m {
        lemma_lifted_stays(t, ts1, id1, ts2, id2, n, (m - 1) as nat);
    }
}

/// Whether two chains have a common element.
fn chains_meet(a: &Option<Rc<Chain<(Variable, usize)>>>, b: &Option<Rc<Chain<(Variable, usize)>>>) -> (res: bool)
    ensures
        res == meet_in(elements(a), elements(b)),
    decreases a,
{
    match a {
        None => false,
        Some(node) => {
            let ghost all = elements(a);
            assert(all[0] == node.head);
            assert(all.drop_first() =~= elements(&node.tail));
            proof {
                lemma_meet_in(all, elements(b));
            }
            has(b, node.head) || chains_meet(&node.tail, b)
        },
    }
}

/// Whether some class pinned to `o` is kept from one of `members`.
spec fn some_pinned_apart(sets: Seq<Class>, members: Seq<(Variable, usize)>, o: Object) -> bool {
    exists|i: int| 0 <= i < sets.len() && (#[trigger] sets[i]).constant == Some(o) && meet_in(sets[i].others, members)
}

proof fn lemma_some_pinned(sets: Seq<Class>, members: Seq<(Variable, usize)>, o: Object)
    requires
        sets.len() > 0,
    ensures
        some_pinned_apart(sets, members, o) == ((sets[0].constant == Some(o) && meet_in(sets[0].others, members))
            || some_pinned_apart(sets.drop_first(), members, o)),
{
    let rest = sets.drop_first();
    if some_pinned_apart(sets, members, o) {
        let i = choose|i: int| 0 <= i < sets.len() && (#[trigger] sets[i]).constant == Some(o) && meet_in(sets[i].others, members);
        if i > 0 {
            assert(rest[i - 1] == sets[i]);
        }
    }
    if some_pinned_apart(rest, members, o) {
        let i = choose|i: int| 0 <= i < rest.len() && (#[trigger] rest[i]).constant == Some(o) && meet_in(rest[i].others, members);
        assert(sets[i + 1] == rest[i]);
    }
}

/// The objects to which classes kept from one of `members` are pinned.
fn pinned_apart_from(varsets: &Option<Rc<Chain<Varset>>>, members: &Option<Rc<Chain<(Variable, usize)>>>) -> (res: Vec<Object>)
    ensures
        forall|o: Object| #[trigger] res@.contains(o) <==> some_pinned_apart(classes(elements(varsets)), elements(members), o),
    decreases varsets,
{
    match varsets {
        None => Vec::new(),
        Some(node) => {
            let ghost all = classes(elements(varsets));
            assert(all[0] == node.head@);
            assert(all.drop_first() =~= classes(elements(&node.tail)));
            let mut res = pinned_apart_from(&node.tail, members);
            let ghost before = res@;
            proof {
                assert forall|o: Object| some_pinned_apart(all, elements(members), o) == ((all[0].constant == Some(o) && meet_in(
                    all[0].others,
                    elements(members),
                )) || #[trigger] before.contains(o)) by {
                    lemma_some_pinned(all, elements(members), o);
                }
            }
            match node.head.constant {
                Some(c) => {
                    if chains_meet(&node.head.ncd_set, members) {
                        res.push(c);
                        proof {
                            assert forall|o: Object| #[trigger] res@.contains(o) <==> before.contains(o) || o == c by {
                                if before.contains(o) {
                                    let k = choose|k: int| 0 <= k < before.len() && before[k] == o;
                                    assert(res@[k] == o);
                                }
                                if o == c {
                                    assert(res@[before.len() as int] == o);
                                }
                            }
                        }
                    }
                },
                None => {},
            }
            proof {
                assert forall|o: Object| #[trigger] res@.contains(o) <==> some_pinned_apart(all, elements(members), o) by {
                    assert(before.contains(o) || !before.contains(o));
                }
            }
            res
        },
    }
}

/// Whether `o` is among `os`.
pub fn has_object(os: &Vec<Object>, o: Object) -> (res: bool)
    ensures
        res == os@.contains(o),
{
    let mut i: usize = 0;
    while i < os.len()
        invariant
            i <= os@.len(),
            forall|j: int| 0 <= j < i ==> os@[j] != o,
        decreases os@.len() - i,
    {
        if os[i] == o {
            return true;
        }
        i = i + 1;
    }
    false
}

impl Bindings {
    /// The members of the class of a variable: itself when it has none.
    fn members_of(&self, var: Variable, step_id: usize) -> (res: Option<Rc<Chain<(Variable, usize)>>>)
        ensures
            elements(&res) == class_members(self@, (var, step_id)),
    {
        match scan_var(&self.varsets, var, step_id) {
            Some(node) => chain::share(&node.head.cd_set),
            None => {
                let res = chain::cons((var, step_id), None);
                assert(elements(&res) =~= seq![(var, step_id)]);
                res
            },
        }
    }

    /// Whether some variable of a chain is bound to `o`.
    fn some_bound_to(&self, vars: &Option<Rc<Chain<(Variable, usize)>>>, o: Object) -> (res: bool)
        ensures
            res == exists|i: int|
                0 <= i < elements(vars).len() && resolved(
                    self@,
                    Term::Variable((#[trigger] elements(vars)[i]).0),
                    elements(vars)[i].1,
                ) == Term::Object(o),
        decreases vars,
    {
        match vars {
            None => false,
            Some(node) => {
                let ghost all = elements(vars);
                let ghost rest = elements(&node.tail);
                assert(all[0] == node.head);
                assert(all.drop_first() =~= rest);
                let first = self.binding(Term::Variable(node.head.0), node.head.1) == Term::Object(o);
                if first {
                    assert(resolved(self@, Term::Variable(all[0].0), all[0].1) == Term::Object(o));
                    return true;
                }
                let res = self.some_bound_to(&node.tail, o);
                proof {
                    if res {
                        let i = choose|i: int|
                            0 <= i < rest.len() && resolved(self@, Term::Variable((#[trigger] rest[i]).0), rest[i].1) == Term::Object(o);
                        assert(all[i + 1] == rest[i]);
                    }
                    if exists|i: int|
                        0 <= i < all.len() && resolved(self@, Term::Variable((#[trigger] all[i]).0), all[i].1) == Term::Object(o) {
                        let i = choose|i: int|
                            0 <= i < all.len() && resolved(self@, Term::Variable((#[trigger] all[i]).0), all[i].1) == Term::Object(o);
                        assert(i > 0);
                        assert(rest[i - 1] == all[i]);
                    }
                }
                res
            },
        }
    }

    /// Returns the possible objects for a step variable, in order: its
    /// type-compatible objects minus any object excluded via non-codesignation.
    pub fn domain(&self, ctx: &TypeContext, var: Variable, step_id: usize) -> (res: Vec<Object>)
        requires
            ctx.wf(),
        ensures
            res@ == unbarred(self@, (var, step_id), ctx@.range(ctx@.var_ty(var, step_id))),
    {
        let ghost sv = (var, step_id);
        let names = ctx.compatible_objects(ctx.variable_type(var, step_id));
        let members = self.members_of(var, step_id);
        let pinned = pinned_apart_from(&self.varsets, &members);
        let others = match scan_var(&self.varsets, var, step_id) {
            Some(node) => chain::share(&node.head.ncd_set),
            None => None,
        };
        let mut res: Vec<Object> = Vec::new();
        let mut i: usize = 0;
        while i < names.len()
            invariant
                i <= names@.len(),
                sv == (var, step_id),
                elements(&members) == class_members(self@, sv),
                forall|o: Object| #[trigger] pinned@.contains(o) <==> some_pinned_apart(self@, elements(&members), o),
                match var_class(self@, sv) {
                    None => elements(&others) == Seq::<(Variable, usize)>::empty(),
                    Some(k) => elements(&others) == self@[k].others,
                },
                res@ == unbarred(self@, sv, names@.take(i as int)),
            decreases names@.len() - i,
        {
            let o = names[i];
            let out = has_object(&pinned, o) || self.some_bound_to(&others, o);
            proof {
                assert(names@.take(i + 1).drop_last() =~= names@.take(i as int));
                lemma_barred(self@, sv, o, elements(&others));
            }
            if !out {
                res.push(o);
            }
            i = i + 1;
        }
        assert(names@.take(i as int) =~= names@);
        res
    }
}

proof fn lemma_barred(sets: Seq<Class>, var: (Variable, usize), o: Object, others: Seq<(Variable, usize)>)
    requires
        match var_class(sets, var) {
            None => others == Seq::<(Variable, usize)>::empty(),
            Some(k) => others == sets[k].others,
        },
    ensures
        barred(sets, var, o) == (some_pinned_apart(sets, class_members(sets, var), o) || exists|i: int|
            0 <= i < others.len() && resolved(sets, Term::Variable((#[trigger] others[i]).0), others[i].1) == Term::Object(o)),
{
    let members = class_members(sets, var);
    if some_pinned_apart(sets, members, o) {
        let i = choose|i: int| 0 <= i < sets.len() && (#[trigger] sets[i]).constant == Some(o) && meet_in(sets[i].others, members);
        assert(pinned_apart(sets, i, var, o));
    }
    if exists|i: int| 0 <= i < sets.len() && #[trigger] pinned_apart(sets, i, var, o) {
        let i = choose|i: int| 0 <= i < sets.len() && #[trigger] pinned_apart(sets, i, var, o);
        assert(sets[i].constant == Some(o));
    }
    if exists|i: int| 0 <= i < others.len() && resolved(sets, Term::Variable((#[trigger] others[i]).0), others[i].1) == Term::Object(o) {
        let i = choose|i: int|
            0 <= i < others.len() && resolved(sets, Term::Variable((#[trigger] others[i]).0), others[i].1) == Term::Object(o);
        assert(others.contains(others[i]));
        assert(kept_apart(sets, var, others[i].0, others[i].1));
    }
    if exists|v: Variable, id: usize| #[trigger] kept_apart(sets, var, v, id) && resolved(sets, Term::Variable(v), id) == Term::Object(o) {
        let (v, id) = choose|v: Variable, id: usize| #[trigger]
            kept_apart(sets, var, v, id) && resolved(sets, Term::Variable(v), id) == Term::Object(o);
        let i = choose|i: int| 0 <= i < others.len() && others[i] == (v, id);
        assert(others[i].0 == v && others[i].1 == id);
    }
}

/// One position of an [`AtomPattern`]: a term resolved through the bindings.
#[derive(Debug, Clone, Copy, PartialEq, Eq, Structural)]
pub enum PatTerm {
    /// Resolved to a constant object.
    Obj(Object),
    /// Unbound variable: its equality class (pattern-local index) and the
    /// most-specific type the class admits.
    Var { class: usize, ty: Type },
}

/// A lifted atom's argument list resolved once against a [`Bindings`], plus
/// the binding constraints relevant to matching it against ground atoms.
/// [`AtomPattern::matches`] then decides per ground candidate with cheap
/// per-position checks instead of re-walking the varset chain.
#[derive(Debug)]
pub struct AtomPattern {
    /// Pattern positions, parallel to the atom's term list.
    terms: Vec<PatTerm>,
    /// Per-class constants excluded by non-codesignation constraints.
    excluded: Vec<Vec<Object>>,
    /// Class pairs that must not be assigned the same object.
    ncd_pairs: Vec<(usize, usize)>,
}

/// Whether two variables of one step are in the same class.
pub open spec fn same_class(sets: Seq<Class>, v: Variable, w: Variable, id: usize) -> bool {
    v == w || (var_class(sets, (v, id)) is Some && var_class(sets, (v, id)) == var_class(sets, (w, id)))
}

/// Whether the classes of two variables of one step are kept apart.
pub open spec fn classes_apart(sets: Seq<Class>, v: Variable, w: Variable, id: usize) -> bool {
    match (var_class(sets, (v, id)), var_class(sets, (w, id))) {
        (Some(i), Some(j)) => meet_in(sets[i].others, sets[j].members) || meet_in(sets[j].others, sets[i].members),
        _ => false,
    }
}

/// The type that the class of a variable admits.
pub open spec fn class_ty(t: Typing, sets: Seq<Class>, v: Variable, id: usize) -> Type {
    match var_class(sets, (v, id)) {
        Some(i) => sets[i].ty,
        None => t.var_ty(v, id),
    }
}

/// Whether some class pinned to `o` is kept from a member of the class of a
/// variable.
pub open spec fn is_excluded(sets: Seq<Class>, v: Variable, id: usize, o: Object) -> bool {
    exists|i: int| 0 <= i < sets.len() && #[trigger] pinned_apart(sets, i, (v, id), o)
}

/// Whether object `o` may stand at a position whose term is `term`.
pub open spec fn fits_term(t: Typing, sets: Seq<Class>, term: Term, id: usize, o: Object) -> bool {
    match resolved(sets, term, id) {
        Term::Object(p) => p == o,
        Term::Variable(v) => t.below(t.object_ty(o), class_ty(t, sets, v, id)) && !is_excluded(sets, v, id, o),
    }
}

/// Whether objects `o1` and `o2` may stand together at two positions.
pub open spec fn fits_pair(sets: Seq<Class>, t1: Term, t2: Term, id: usize, o1: Object, o2: Object) -> bool {
    match (resolved(sets, t1, id), resolved(sets, t2, id)) {
        (Term::Variable(v), Term::Variable(w)) => if same_class(sets, v, w, id) {
            o1 == o2
        } else {
            classes_apart(sets, v, w, id) ==> o1 != o2
        },
        _ => true,
    }
}

/// Whether a list of ground terms matches the terms of a lifted atom under the
/// classes.
pub open spec fn ground_matches(t: Typing, sets: Seq<Class>, terms: Seq<Term>, id: usize, ground: Seq<Term>) -> bool {
    &&& ground.len() == terms.len()
    &&& forall|i: int| 0 <= i < terms.len() ==> (#[trigger] ground[i]) is Object
    &&& forall|i: int| 0 <= i < terms.len() ==> fits_term(t, sets, #[trigger] terms[i], id, ground[i]->Object_0)
    &&& forall|i: int, j: int|
        0 <= i < j < terms.len() ==> fits_pair(
            sets,
            #[trigger] terms[i],
            #[trigger] terms[j],
            id,
            ground[i]->Object_0,
            ground[j]->Object_0,
        )
}

impl AtomPattern {
    /// The positions of the pattern.
    pub closed spec fn positions(&self) -> Seq<PatTerm> {
        self.terms@
    }

    /// Whether the classes are within the tables.
    pub closed spec fn wf(&self) -> bool {
        forall|i: int| 0 <= i < self.terms@.len() ==> match #[trigger] self.terms@[i] {
            PatTerm::Obj(_) => true,
            PatTerm::Var { class, ty: _ } => class < self.excluded@.len(),
        }
    }

    /// Whether object `o` may stand at a position.
    spec fn accepts_at(&self, t: Typing, p: PatTerm, o: Object) -> bool {
        match p {
            PatTerm::Obj(q) => q == o,
            PatTerm::Var { class, ty } => t.below(t.object_ty(o), ty) && !self.excluded@[class as int]@.contains(o),
        }
    }

    /// Whether two objects may stand together at two positions.
    spec fn accepts_both(&self, p: PatTerm, q: PatTerm, o1: Object, o2: Object) -> bool {
        match (p, q) {
            (PatTerm::Var { class: c, ty: _ }, PatTerm::Var { class: d, ty: _ }) => if c == d {
                o1 == o2
            } else {
                self.ncd_pairs@.contains((c, d)) || self.ncd_pairs@.contains((d, c)) ==> o1 != o2
            },
            _ => true,
        }
    }

    /// Whether a list of ground terms is accepted by the pattern.
    pub closed spec fn accepts(&self, t: Typing, ground: Seq<Term>) -> bool {
        &&& ground.len() == self.terms@.len()
        &&& forall|i: int| 0 <= i < ground.len() ==> (#[trigger] ground[i]) is Object
        &&& forall|i: int| 0 <= i < ground.len() ==> self.accepts_at(t, self.terms@[i], (#[trigger] ground[i])->Object_0)
        &&& forall|i: int, j: int|
            0 <= i < j < ground.len() ==> self.accepts_both(
                self.terms@[i],
                self.terms@[j],
                (#[trigger] ground[i])->Object_0,
                (#[trigger] ground[j])->Object_0,
            )
    }

    /// The fully-resolved term list, or `None` if any position is unbound.
    pub fn object_terms(&self) -> (res: Option<Vec<Term>>)
        ensures
            match res {
                None => exists|i: int| 0 <= i < self.positions().len() && !((#[trigger] self.positions()[i]) is Obj),
                Some(ts) => ts@.len() == self.positions().len() && forall|i: int|
                    0 <= i < ts@.len() ==> self.positions()[i] is Obj && #[trigger] ts@[i] == Term::Object(self.positions()[i]->Obj_0),
            },
    {
        let mut res: Vec<Term> = Vec::new();
        let mut i: usize = 0;
        while i < self.terms.len()
            invariant
                i <= self.terms@.len(),
                res@.len() == i,
                forall|k: int| 0 <= k < i ==> self.terms@[k] is Obj && #[trigger] res@[k] == Term::Object(self.terms@[k]->Obj_0),
            decreases self.terms@.len() - i,
        {
            match self.terms[i] {
                PatTerm::Obj(o) => res.push(Term::Object(o)),
                PatTerm::Var { class: _, ty: _ } => {
                    assert(!(self.positions()[i as int] is Obj));
                    return None;
                },
            }
            i = i + 1;
        }
        Some(res)
    }

    /// The argument positions the pattern fixes to an object, in order. The
    /// remaining positions still need [`AtomPattern::matches`] for their type,
    /// equality-class and non-codesignation constraints.
    pub fn bound_positions(&self) -> (res: Vec<(usize, Object)>)
        ensures
            res@ == fixed_upto(self.positions(), self.positions().len()),
    {
        let mut res: Vec<(usize, Object)> = Vec::new();
        let mut i: usize = 0;
        while i < self.terms.len()
            invariant
                i <= self.terms@.len(),
                res@ == fixed_upto(self.terms@, i as nat),
            decreases self.terms@.len() - i,
        {
            match self.terms[i] {
                PatTerm::Obj(o) => res.push((i, o)),
                PatTerm::Var { class: _, ty: _ } => {},
            }
            i = i + 1;
        }
        res
    }

    fn keeps_apart(&self, c: usize, d: usize) -> (res: bool)
        ensures
            res == (self.ncd_pairs@.contains((c, d)) || self.ncd_pairs@.contains((d, c))),
    {
        let mut i: usize = 0;
        while i < self.ncd_pairs.len()
            invariant
                i <= self.ncd_pairs@.len(),
                forall|k: int| 0 <= k < i ==> self.ncd_pairs@[k] != (c, d) && self.ncd_pairs@[k] != (d, c),
            decreases self.ncd_pairs@.len() - i,
        {
            let (a, b) = self.ncd_pairs[i];
            if (a == c && b == d) || (a == d && b == c) {
                assert(self.ncd_pairs@[i as int] == (a, b));
                return true;
            }
            i = i + 1;
        }
        false
    }

    /// Whether a ground candidate's terms unify with the pattern under the
    /// bindings it was resolved against.
    pub fn matches(&self, ctx: &TypeContext, ground_terms: &Vec<Term>) -> (res: bool)
        requires
            ctx.wf(),
            self.wf(),
        ensures
            res == self.accepts(ctx@, ground_terms@),
    {
        if ground_terms.len() != self.terms.len() {
            return false;
        }
        let mut i: usize = 0;
        while i < ground_terms.len()
            invariant
                ctx.wf(),
                self.wf(),
                ground_terms@.len() == self.terms@.len(),
                i <= ground_terms@.len(),
                forall|k: int| 0 <= k < i ==> (#[trigger] ground_terms@[k]) is Object && self.accepts_at(
                    ctx@,
                    self.terms@[k],
                    ground_terms@[k]->Object_0,
                ),
                forall|k: int, m: int|
                    0 <= k < m < i ==> self.accepts_both(
                        self.terms@[k],
                        self.terms@[m],
                        (#[trigger] ground_terms@[k])->Object_0,
                        (#[trigger] ground_terms@[m])->Object_0,
                    ),
            decreases ground_terms@.len() - i,
        {
            if !ground_terms[i].object() {
                return false;
            }
            let o = ground_terms[i].as_object();
            let p = self.terms[i];
            assert(ground_terms@[i as int]->Object_0 == o);
            match p {
                PatTerm::Obj(q) => {
                    if q != o {
                        assert(!self.accepts_at(ctx@, p, ground_terms@[i as int]->Object_0));
                        return false;
                    }
                },
                PatTerm::Var { class, ty } => {
                    if !ctx.subtype(ctx.object_type(o), ty) || has_object(&self.excluded[class], o) {
                        assert(!self.accepts_at(ctx@, p, ground_terms@[i as int]->Object_0));
                        return false;
                    }
                    let mut j: usize = 0;
                    while j < i
                        invariant
                            i < ground_terms@.len(),
                            ground_terms@.len() == self.terms@.len(),
                            p == self.terms@[i as int],
                            p == (PatTerm::Var { class, ty }),
                            ground_terms@[i as int] == Term::Object(o),
                            j <= i,
                            forall|k: int| 0 <= k < i ==> (#[trigger] ground_terms@[k]) is Object,
                            forall|k: int|
                                0 <= k < j ==> self.accepts_both(self.terms@[k], p, (#[trigger] ground_terms@[k])->Object_0, o),
                        decreases i - j,
                    {
                        assert(ground_terms@[j as int] is Object);
                        let q = ground_terms[j].as_object();
                        assert(ground_terms@[j as int]->Object_0 == q);
                        match self.terms[j] {
                            PatTerm::Obj(_) => {},
                            PatTerm::Var { class: d, ty: _ } => {
                                let clash = if d == class {
                                    q != o
                                } else {
                                    self.keeps_apart(d, class) && q == o
                                };
                                if clash {
                                    assert(!self.accepts_both(
                                        self.terms@[j as int],
                                        self.terms@[i as int],
                                        ground_terms@[j as int]->Object_0,
                                        ground_terms@[i as int]->Object_0,
                                    ));
                                    return false;
                                }
                            },
                        }
                        j = j + 1;
                    }
                },
            }
            i = i + 1;
        }
        true
    }
}

/// The positions among the first `n` that are fixed to an object.
pub open spec fn fixed_upto(ps: Seq<PatTerm>, n: nat) -> Seq<(usize, Object)>
    decreases n,
{
    if n == 0 {
        seq![]
    } else {
        let rest = fixed_upto(ps, (n - 1) as nat);
        match ps[n - 1] {
            PatTerm::Obj(o) => rest.push(((n - 1) as usize, o)),
            PatTerm::Var { class: _, ty: _ } => rest,
        }
    }
}

/// What a position of a pattern says of the term it was made from.
spec fn is_position(t: Typing, sets: Seq<Class>, id: usize, reps: Seq<Variable>, term: Term, p: PatTerm) -> bool {
    match resolved(sets, term, id) {
        Term::Object(o) => p == PatTerm::Obj(o),
        Term::Variable(v) => match p {
            PatTerm::Obj(_) => false,
            PatTerm::Var { class, ty } => class < reps.len() && same_class(sets, v, reps[class as int], id) && ty == class_ty(
                t,
                sets,
                v,
                id,
            ),
        },
    }
}

/// Whether no two representatives are in one class.
spec fn are_distinct(sets: Seq<Class>, id: usize, reps: Seq<Variable>) -> bool {
    forall|a: int, b: int| 0 <= a < b < reps.len() ==> !same_class(sets, #[trigger] reps[a], #[trigger] reps[b], id)
}

/// Whether the table of excluded objects is that of the representatives.
spec fn are_excluded(sets: Seq<Class>, id: usize, reps: Seq<Variable>, excluded: Seq<Vec<Object>>, n: int) -> bool {
    excluded.len() == n && forall|c: int, o: Object|
        0 <= c < n ==> (#[trigger] excluded[c]@.contains(o) <==> is_excluded(sets, reps[c], id, o))
}

/// Whether the pairs are those of the first `n` representatives kept apart.
spec fn are_pairs(sets: Seq<Class>, id: usize, reps: Seq<Variable>, pairs: Seq<(usize, usize)>, n: int, m: int) -> bool {
    forall|c: usize, d: usize| #[trigger]
        pairs.contains((c, d)) <==> c < d < reps.len() && (c < n || (c == n && d < m)) && classes_apart(
            sets,
            reps[c as int],
            reps[d as int],
            id,
        )
}

impl Bindings {
    /// Whether the classes of two variables of one step are kept apart.
    fn apart_classes(&self, v: Variable, w: Variable, step_id: usize) -> (res: bool)
        ensures
            res == classes_apart(self@, v, w, step_id),
    {
        match (scan_var(&self.varsets, v, step_id), scan_var(&self.varsets, w, step_id)) {
            (Some(a), Some(b)) => chains_meet(&a.head.ncd_set, &b.head.cd_set) || chains_meet(&b.head.ncd_set, &a.head.cd_set),
            _ => false,
        }
    }

    /// Whether two variables of one step are in the same class.
    fn one_class(&self, v: Variable, w: Variable, step_id: usize) -> (res: bool)
        ensures
            res == same_class(self@, v, w, step_id),
    {
        if v == w {
            return true;
        }
        let probe = Binding::new(v, step_id, Term::Variable(w), step_id, true);
        let (_, _, one) = scan_both(&self.varsets, &probe);
        one
    }

    /// Resolves a lifted atom's terms into an [`AtomPattern`] for repeated
    /// matching against ground atoms (the planning-graph heuristic lookups).
    pub fn resolve_pattern(&self, ctx: &TypeContext, terms: &Vec<Term>, step_id: usize) -> (res: AtomPattern)
        requires
            ctx.wf(),
        ensures
            res.wf(),
            res.positions().len() == terms@.len(),
            forall|i: int|
                0 <= i < terms@.len() ==> match resolved(self@, terms@[i], step_id) {
                    Term::Object(o) => #[trigger] res.positions()[i] == PatTerm::Obj(o),
                    Term::Variable(v) => res.positions()[i] matches PatTerm::Var { class: _, ty } && ty == class_ty(
                        ctx@,
                        self@,
                        v,
                        step_id,
                    ),
                },
            forall|ground: Seq<Term>| #[trigger] res.accepts(ctx@, ground) == ground_matches(ctx@, self@, terms@, step_id, ground),
            composed(self@),
    {
        proof {
            use_type_invariant(self);
        }
        let ghost sets = self@;
        let mut pat_terms: Vec<PatTerm> = Vec::new();
        let mut reps: Vec<Variable> = Vec::new();
        let mut i: usize = 0;
        while i < terms.len()
            invariant
                ctx.wf(),
                sets == self@,
                i <= terms@.len(),
                pat_terms@.len() == i,
                forall|k: int| 0 <= k < i ==> is_position(ctx@, sets, step_id, reps@, terms@[k], #[trigger] pat_terms@[k]),
                are_distinct(sets, step_id, reps@),
            decreases terms@.len() - i,
        {
            match self.binding(terms[i], step_id) {
                Term::Object(o) => pat_terms.push(PatTerm::Obj(o)),
                Term::Variable(v) => {
                    let mut class: usize = 0;
                    while class < reps.len() && !self.one_class(v, reps[class], step_id)
                        invariant
                            sets == self@,
                            class <= reps@.len(),
                            forall|k: int| 0 <= k < class ==> !same_class(sets, v, #[trigger] reps@[k], step_id),
                        decreases reps@.len() - class,
                    {
                        class = class + 1;
                    }
                    let ghost before = reps@;
                    if class == reps.len() {
                        reps.push(v);
                        proof {
                            assert forall|a: int, b: int| 0 <= a < b < reps@.len() implies !same_class(
                                sets,
                                #[trigger] reps@[a],
                                #[trigger] reps@[b],
                                step_id,
                            ) by {
                                assert(reps@[a] == before[a]);
                                if b < before.len() {
                                    assert(reps@[b] == before[b]);
                                } else {
                                    assert(!same_class(sets, v, before[a], step_id));
                                }
                            }
                            assert forall|k: int| 0 <= k < i implies is_position(
                                ctx@,
                                sets,
                                step_id,
                                reps@,
                                terms@[k],
                                #[trigger] pat_terms@[k],
                            ) by {
                                assert(is_position(ctx@, sets, step_id, before, terms@[k], pat_terms@[k]));
                            }
                        }
                    }
                    // An unbound variable's varset carries the most-specific
                    // type of its whole equality class.
                    let ty = match scan_var(&self.varsets, v, step_id) {
                        Some(n) => n.head.ty,
                        None => ctx.variable_type(v, step_id),
                    };
                    let ghost shown = pat_terms@;
                    pat_terms.push(PatTerm::Var { class, ty });
                    proof {
                        assert forall|k: int| 0 <= k < i + 1 implies is_position(
                            ctx@,
                            sets,
                            step_id,
                            reps@,
                            terms@[k],
                            #[trigger] pat_terms@[k],
                        ) by {
                            if k < i {
                                assert(pat_terms@[k] == shown[k]);
                            }
                        }
                    }
                },
            }
            i = i + 1;
        }
        // Excluded constants: a constant is excluded for a class when some chain
        // entry pinned to it non-codesignates a member of the class.
        let mut excluded: Vec<Vec<Object>> = Vec::new();
        let mut c: usize = 0;
        while c < reps.len()
            invariant
                sets == self@,
                c <= reps@.len(),
                are_excluded(sets, step_id, reps@, excluded@, c as int),
            decreases reps@.len() - c,
        {
            let members = self.members_of(reps[c], step_id);
            let out = pinned_apart_from(&self.varsets, &members);
            let ghost shown = excluded@;
            excluded.push(out);
            proof {
                assert forall|k: int, o: Object| 0 <= k < c + 1 implies (#[trigger] excluded@[k]@.contains(o) <==> is_excluded(
                    sets,
                    reps@[k],
                    step_id,
                    o,
                )) by {
                    if k < c {
                        assert(excluded@[k] == shown[k]);
                    } else {
                        lemma_excluded(sets, reps@[k], step_id, o);
                    }
                }
            }
            c = c + 1;
        }
        // Pairwise non-codesignation between the atom's classes: a candidate
        // may not assign such a pair the same object.
        let mut ncd_pairs: Vec<(usize, usize)> = Vec::new();
        let mut a: usize = 0;
        while a < reps.len()
            invariant
                sets == self@,
                a <= reps@.len(),
                are_pairs(sets, step_id, reps@, ncd_pairs@, a as int, 0),
            decreases reps@.len() - a,
        {
            let mut b: usize = a + 1;
            while b < reps.len()
                invariant
                    sets == self@,
                    a < b <= reps@.len(),
                    are_pairs(sets, step_id, reps@, ncd_pairs@, a as int, b as int),
                decreases reps@.len() - b,
            {
                let ghost shown = ncd_pairs@;
                if self.apart_classes(reps[a], reps[b], step_id) {
                    ncd_pairs.push((a, b));
                }
                proof {
                    assert forall|x: usize, y: usize| #[trigger] ncd_pairs@.contains((x, y)) <==> x < y < reps@.len() && (x < a || (x
                        == a && y < b + 1)) && classes_apart(sets, reps@[x as int], reps@[y as int], step_id) by {
                        lemma_pair_push(shown, (a, b), (x, y));
                        assert(shown.contains((x, y)) <==> x < y < reps@.len() && (x < a || (x == a && y < b)) && classes_apart(
                            sets,
                            reps@[x as int],
                            reps@[y as int],
                            step_id,
                        ));
                    }
                }
                b = b + 1;
            }
            a = a + 1;
            proof {
                assert forall|x: usize, y: usize| #[trigger] ncd_pairs@.contains((x, y)) <==> x < y < reps@.len() && (x < a || (x == a
                    && y < 0)) && classes_apart(sets, reps@[x as int], reps@[y as int], step_id) by {}
            }
        }
        let res = AtomPattern { terms: pat_terms, excluded, ncd_pairs };
        proof {
            assert forall|k: int| 0 <= k < res.terms@.len() implies match #[trigger] res.terms@[k] {
                PatTerm::Obj(_) => true,
                PatTerm::Var { class, ty: _ } => class < res.excluded@.len(),
            } by {
                assert(is_position(ctx@, sets, step_id, reps@, terms@[k], pat_terms@[k]));
            }
            assert forall|k: int| 0 <= k < terms@.len() implies match resolved(sets, terms@[k], step_id) {
                Term::Object(o) => #[trigger] res.positions()[k] == PatTerm::Obj(o),
                Term::Variable(v) => res.positions()[k] matches PatTerm::Var { class: _, ty } && ty == class_ty(ctx@, sets, v, step_id),
            } by {
                assert(is_position(ctx@, sets, step_id, reps@, terms@[k], pat_terms@[k]));
            }
            assert forall|ground: Seq<Term>| #[trigger] res.accepts(ctx@, ground) == ground_matches(
                ctx@,
                sets,
                terms@,
                step_id,
                ground,
            ) by {
                lemma_accepts(ctx@, sets, terms@, step_id, reps@, &res, ground);
            }
        }
        res
    }
}

proof fn lemma_pair_push(s: Seq<(usize, usize)>, x: (usize, usize), y: (usize, usize))
    ensures
        s.push(x).contains(y) <==> s.contains(y) || x == y,
{
    if s.contains(y) {
        let k = choose|k: int| 0 <= k < s.len() && s[k] == y;
        assert(s.push(x)[k] == y);
    }
    if x == y {
        assert(s.push(x)[s.len() as int] == y);
    }
}

proof fn lemma_excluded(sets: Seq<Class>, v: Variable, id: usize, o: Object)
    ensures
        is_excluded(sets, v, id, o) == some_pinned_apart(sets, class_members(sets, (v, id)), o),
{
    let members = class_members(sets, (v, id));
    if some_pinned_apart(sets, members, o) {
        let i = choose|i: int| 0 <= i < sets.len() && (#[trigger] sets[i]).constant == Some(o) && meet_in(sets[i].others, members);
        assert(pinned_apart(sets, i, (v, id), o));
    }
    if is_excluded(sets, v, id, o) {
        let i = choose|i: int| 0 <= i < sets.len() && #[trigger] pinned_apart(sets, i, (v, id), o);
        assert(sets[i].constant == Some(o));
    }
}

/// Variables of one class are excluded from the same objects and kept from the
/// same classes.
proof fn lemma_same_class(sets: Seq<Class>, v: Variable, w: Variable, id: usize)
    requires
        same_class(sets, v, w, id),
    ensures
        forall|o: Object| is_excluded(sets, v, id, o) == #[trigger] is_excluded(sets, w, id, o),
        forall|x: Variable| classes_apart(sets, v, x, id) == #[trigger] classes_apart(sets, w, x, id),
        forall|x: Variable| classes_apart(sets, x, v, id) == #[trigger] classes_apart(sets, x, w, id),
{
    assert(class_members(sets, (v, id)) == class_members(sets, (w, id)) || v == w);
    assert forall|o: Object| is_excluded(sets, v, id, o) == #[trigger] is_excluded(sets, w, id, o) by {
        lemma_excluded(sets, v, id, o);
        lemma_excluded(sets, w, id, o);
    }
}

proof fn lemma_pair_accepts(
    t: Typing,
    sets: Seq<Class>,
    terms: Seq<Term>,
    id: usize,
    reps: Seq<Variable>,
    p: &AtomPattern,
    i: int,
    j: int,
    o1: Object,
    o2: Object,
)
    requires
        0 <= i < terms.len(),
        0 <= j < terms.len(),
        p.terms@.len() == terms.len(),
        is_position(t, sets, id, reps, terms[i], p.terms@[i]),
        is_position(t, sets, id, reps, terms[j], p.terms@[j]),
        are_distinct(sets, id, reps),
        reps.len() <= usize::MAX,
        are_pairs(sets, id, reps, p.ncd_pairs@, reps.len() as int, 0),
    ensures
        p.accepts_both(p.terms@[i], p.terms@[j], o1, o2) == fits_pair(sets, terms[i], terms[j], id, o1, o2),
{
    match (resolved(sets, terms[i], id), resolved(sets, terms[j], id)) {
        (Term::Variable(v), Term::Variable(w)) => {
            let c = p.terms@[i]->class;
            let d = p.terms@[j]->class;
            let rc = reps[c as int];
            let rd = reps[d as int];
            lemma_same_class(sets, v, rc, id);
            lemma_same_class(sets, w, rd, id);
            if c != d {
                if same_class(sets, v, w, id) {
                    if c < d {
                        assert(!same_class(sets, reps[c as int], reps[d as int], id));
                    } else {
                        assert(!same_class(sets, reps[d as int], reps[c as int], id));
                    }
                    assert(false);
                }
                assert(classes_apart(sets, v, w, id) == classes_apart(sets, rc, w, id));
                assert(classes_apart(sets, rc, w, id) == classes_apart(sets, rc, rd, id));
                assert(classes_apart(sets, rc, rd, id) == classes_apart(sets, rd, rc, id));
                assert(p.ncd_pairs@.contains((c, d)) || !p.ncd_pairs@.contains((c, d)));
                assert(p.ncd_pairs@.contains((d, c)) || !p.ncd_pairs@.contains((d, c)));
            } else {
                assert(same_class(sets, v, w, id));
            }
        },
        _ => {},
    }
}

proof fn lemma_accepts(t: Typing, sets: Seq<Class>, terms: Seq<Term>, id: usize, reps: Seq<Variable>, p: &AtomPattern, ground: Seq<Term>)
    requires
        p.terms@.len() == terms.len(),
        forall|k: int| 0 <= k < terms.len() ==> is_position(t, sets, id, reps, terms[k], #[trigger] p.terms@[k]),
        are_distinct(sets, id, reps),
        reps.len() <= usize::MAX,
        are_excluded(sets, id, reps, p.excluded@, reps.len() as int),
        are_pairs(sets, id, reps, p.ncd_pairs@, reps.len() as int, 0),
    ensures
        p.accepts(t, ground) == ground_matches(t, sets, terms, id, ground),
{
    if ground.len() == terms.len() && (forall|i: int| 0 <= i < ground.len() ==> (#[trigger] ground[i]) is Object) {
        assert forall|i: int| 0 <= i < terms.len() implies p.accepts_at(t, p.terms@[i], #[trigger] ground[i]->Object_0) == fits_term(
            t,
            sets,
            terms[i],
            id,
            ground[i]->Object_0,
        ) by {
            assert(is_position(t, sets, id, reps, terms[i], p.terms@[i]));
            match resolved(sets, terms[i], id) {
                Term::Variable(v) => {
                    let c = p.terms@[i]->class;
                    lemma_same_class(sets, v, reps[c as int], id);
                    let o = ground[i]->Object_0;
                    assert(p.excluded@[c as int]@.contains(o) <==> is_excluded(sets, reps[c as int], id, o));
                },
                _ => {},
            }
        }
        assert forall|i: int, j: int| 0 <= i < j < terms.len() implies p.accepts_both(
            p.terms@[i],
            p.terms@[j],
            #[trigger] ground[i]->Object_0,
            #[trigger] ground[j]->Object_0,
        ) == fits_pair(sets, terms[i], terms[j], id, ground[i]->Object_0, ground[j]->Object_0) by {
            assert(is_position(t, sets, id, reps, terms[i], p.terms@[i]));
            assert(is_position(t, sets, id, reps, terms[j], p.terms@[j]));
            lemma_pair_accepts(t, sets, terms, id, reps, p, i, j, ground[i]->Object_0, ground[j]->Object_0);
        }
        if p.accepts(t, ground) {
            assert forall|i: int| 0 <= i < terms.len() implies fits_term(t, sets, #[trigger] terms[i], id, ground[i]->Object_0) by {
                assert(p.accepts_at(t, p.terms@[i], ground[i]->Object_0));
            }
            assert forall|i: int, j: int| 0 <= i < j < terms.len() implies fits_pair(
                sets,
                #[trigger] terms[i],
                #[trigger] terms[j],
                id,
                ground[i]->Object_0,
                ground[j]->Object_0,
            ) by {
                assert(p.accepts_both(p.terms@[i], p.terms@[j], ground[i]->Object_0, ground[j]->Object_0));
            }
        }
        if ground_matches(t, sets, terms, id, ground) {
            assert forall|i: int| 0 <= i < ground.len() implies p.accepts_at(t, p.terms@[i], (#[trigger] ground[i])->Object_0) by {
                assert(fits_term(t, sets, terms[i], id, ground[i]->Object_0));
            }
            assert forall|i: int, j: int| 0 <= i < j < ground.len() implies p.accepts_both(
                p.terms@[i],
                p.terms@[j],
                (#[trigger] ground[i])->Object_0,
                (#[trigger] ground[j])->Object_0,
            ) by {
                assert(fits_pair(sets, terms[i], terms[j], id, ground[i]->Object_0, ground[j]->Object_0));
            }
        }
    }
}

} // verus!
