//! Schema instantiation: formulas, atoms and effects under a substitution of
//! objects for schema variables.
//!
//! A substitution is dense: it holds, by variable number, the object a variable
//! stands for, if any.
use std::rc::Rc;

use vstd::prelude::*;

use crate::effect::{Effect, EffectView};
use crate::formula::{all_of, any_of, forms, Atom, AtomView, Formula, FormulaView, Literal, LiteralView};
use crate::terms::{Object, Term};
use crate::text::copy_vec;

verus! {

/// A term under a substitution.
pub open spec fn ground_term(t: Term, subst: Seq<Option<Object>>) -> Term {
    match t {
        Term::Variable(v) => if v.0 < subst.len() && subst[v.0 as int] is Some {
            Term::Object(subst[v.0 as int]->0)
        } else {
            t
        },
        Term::Object(_) => t,
    }
}

/// An atom under a substitution.
pub open spec fn ground_atom(a: AtomView, subst: Seq<Option<Object>>) -> AtomView {
    AtomView { predicate: a.predicate, terms: Seq::new(a.terms.len(), |i: int| ground_term(a.terms[i], subst)) }
}

/// A literal under a substitution.
pub open spec fn ground_literal(l: LiteralView, subst: Seq<Option<Object>>) -> LiteralView {
    LiteralView { negative: l.negative, atom: ground_atom(l.atom, subst) }
}

/// A list of formulas under a substitution.
pub open spec fn ground_all(fs: Seq<FormulaView>, subst: Seq<Option<Object>>) -> Seq<FormulaView>
    decreases fs, 0nat,
{
    Seq::new(
        fs.len(),
        |i: int|
            if 0 <= i < fs.len() {
                ground(fs[i], subst)
            } else {
                FormulaView::True
            },
    )
}

/// A formula under a substitution, flattened and simplified.
pub open spec fn ground(f: FormulaView, subst: Seq<Option<Object>>) -> FormulaView
    decreases f, 0nat,
{
    match f {
        FormulaView::True => f,
        FormulaView::False => f,
        FormulaView::Atom(a) => FormulaView::Atom(ground_atom(a, subst)),
        FormulaView::Negation(a) => FormulaView::Negation(ground_atom(a, subst)),
        FormulaView::Equality(l, li, r, ri) => FormulaView::Equality(ground_term(l, subst), li, ground_term(r, subst), ri),
        FormulaView::Inequality(l, li, r, ri) => FormulaView::Inequality(
            ground_term(l, subst),
            li,
            ground_term(r, subst),
            ri,
        ),
        FormulaView::Conjunction(cs) => all_of(ground_all(cs, subst)),
        FormulaView::Disjunction(ds) => any_of(ground_all(ds, subst)),
        FormulaView::Exists(params, body) => FormulaView::Exists(params, Box::new(ground(*body, subst))),
        FormulaView::Forall(params, body) => FormulaView::Forall(params, Box::new(ground(*body, subst))),
    }
}

/// An effect under a substitution.
pub open spec fn ground_effect(e: EffectView, subst: Seq<Option<Object>>) -> EffectView {
    EffectView {
        parameters: e.parameters,
        condition: ground(e.condition, subst),
        literal: ground_literal(e.literal, subst),
        when: e.when,
        link_condition: ground(e.link_condition, subst),
    }
}

/// Whether the (in)equalities among the conjuncts of a formula hold under a
/// substitution.
pub open spec fn consistent(f: FormulaView, subst: Seq<Option<Object>>) -> bool
    decreases f,
{
    match f {
        FormulaView::Conjunction(cs) => forall|i: int| 0 <= i < cs.len() ==> consistent(#[trigger] cs[i], subst),
        FormulaView::Equality(l, _, r, _) => ground_term(l, subst) == ground_term(r, subst),
        FormulaView::Inequality(l, _, r, _) => ground_term(l, subst) != ground_term(r, subst),
        _ => true,
    }
}

spec fn consistent_each(fs: Seq<FormulaView>, subst: Seq<Option<Object>>) -> bool {
    forall|i: int| 0 <= i < fs.len() ==> consistent(#[trigger] fs[i], subst)
}

proof fn lemma_consistent(f: FormulaView, subst: Seq<Option<Object>>)
    requires
        f is Conjunction,
    ensures
        consistent(f, subst) == consistent_each(f->Conjunction_0, subst),
{
    let fs = f->Conjunction_0;
    if consistent_each(fs, subst) {
        assert forall|i: int| 0 <= i < fs.len() implies consistent(#[trigger] fs[i], subst) by {}
    }
    if consistent(f, subst) {
        assert forall|i: int| 0 <= i < fs.len() implies consistent(#[trigger] fs[i], subst) by {}
    }
}

/// Whether a precondition's (in)equality literals are all satisfied by `subst`.
pub fn precondition_consistent(f: &Rc<Formula>, subst: &Vec<Option<Object>>) -> (res: bool)
    ensures
        res == consistent(f@, subst@),
    decreases f,
{
    match &**f {
        Formula::Conjunction(cs) => all_consistent(cs, subst),
        Formula::Equality { left, left_id: _, right, right_id: _ } => resolve(*left, subst) == resolve(*right, subst),
        Formula::Inequality { left, left_id: _, right, right_id: _ } => resolve(*left, subst) != resolve(*right, subst),
        _ => true,
    }
}

fn all_consistent(fs: &Vec<Rc<Formula>>, subst: &Vec<Option<Object>>) -> (res: bool)
    ensures
        res == consistent(FormulaView::Conjunction(forms(fs@)), subst@),
    decreases fs,
{
    let ghost all = forms(fs@);
    proof {
        lemma_consistent(FormulaView::Conjunction(all), subst@);
    }
    let mut i: usize = 0;
    while i < fs.len()
        invariant
            all == forms(fs@),
            consistent(FormulaView::Conjunction(all), subst@) == consistent_each(all, subst@),
            i <= fs@.len(),
            forall|k: int| 0 <= k < i ==> consistent(#[trigger] all[k], subst@),
        decreases fs@.len() - i,
    {
        if !precondition_consistent(&fs[i], subst) {
            assert(!consistent(all[i as int], subst@));
            return false;
        }
        assert(consistent(all[i as int], subst@));
        i = i + 1;
    }
    true
}

/// A term under a substitution.
pub fn resolve(t: Term, subst: &Vec<Option<Object>>) -> (res: Term)
    ensures
        res == ground_term(t, subst@),
{
    match t {
        Term::Variable(v) => {
            let i = v.0 as usize;
            if i < subst.len() {
                match subst[i] {
                    Some(o) => Term::Object(o),
                    None => t,
                }
            } else {
                t
            }
        },
        Term::Object(_) => t,
    }
}

pub fn instantiate_atom(a: &Atom, subst: &Vec<Option<Object>>) -> (res: Atom)
    ensures
        res@ == ground_atom(a@, subst@),
{
    let mut terms: Vec<Term> = Vec::new();
    let mut i: usize = 0;
    while i < a.terms.len()
        invariant
            i <= a.terms@.len(),
            terms@.len() == i,
            forall|k: int| 0 <= k < i ==> #[trigger] terms@[k] == ground_term(a.terms@[k], subst@),
        decreases a.terms@.len() - i,
    {
        terms.push(resolve(a.terms[i], subst));
        i = i + 1;
    }
    let res = Atom { predicate: a.predicate, terms };
    assert(res@.terms =~= ground_atom(a@, subst@).terms);
    res
}

pub fn instantiate_literal(l: &Literal, subst: &Vec<Option<Object>>) -> (res: Literal)
    ensures
        res@ == ground_literal(l@, subst@),
{
    match l {
        Literal::Atom(a) => Literal::Atom(instantiate_atom(a, subst)),
        Literal::Negation(a) => Literal::Negation(instantiate_atom(a, subst)),
    }
}

fn instantiate_each(fs: &Vec<Rc<Formula>>, subst: &Vec<Option<Object>>) -> (res: Vec<Rc<Formula>>)
    ensures
        forms(res@) == ground_all(forms(fs@), subst@),
    decreases fs,
{
    let mut res: Vec<Rc<Formula>> = Vec::new();
    let mut i: usize = 0;
    while i < fs.len()
        invariant
            i <= fs@.len(),
            res@.len() == i,
            forall|k: int| 0 <= k < i ==> (#[trigger] res@[k])@ == ground(fs@[k]@, subst@),
        decreases fs@.len() - i,
    {
        let g = instantiate_formula(&fs[i], subst);
        res.push(g);
        i = i + 1;
    }
    assert(forms(res@) =~= ground_all(forms(fs@), subst@));
    res
}

pub fn instantiate_formula(f: &Rc<Formula>, subst: &Vec<Option<Object>>) -> (res: Rc<Formula>)
    ensures
        res@ == ground(f@, subst@),
    decreases f,
{
    match &**f {
        Formula::True => f.clone(),
        Formula::False => f.clone(),
        Formula::Atom(a) => Rc::new(Formula::Atom(instantiate_atom(a, subst))),
        Formula::Negation(a) => Rc::new(Formula::Negation(instantiate_atom(a, subst))),
        Formula::Equality { left, left_id, right, right_id } => Rc::new(
            Formula::Equality {
                left: resolve(*left, subst),
                left_id: *left_id,
                right: resolve(*right, subst),
                right_id: *right_id,
            },
        ),
        Formula::Inequality { left, left_id, right, right_id } => Rc::new(
            Formula::Inequality {
                left: resolve(*left, subst),
                left_id: *left_id,
                right: resolve(*right, subst),
                right_id: *right_id,
            },
        ),
        Formula::Conjunction(cs) => Formula::conjoin_all(instantiate_each(cs, subst)),
        Formula::Disjunction(ds) => Formula::disjoin_all(instantiate_each(ds, subst)),
        Formula::Exists { params, body } => Rc::new(
            Formula::Exists { params: copy_vec(params), body: instantiate_formula(body, subst) },
        ),
        Formula::Forall { params, body } => Rc::new(
            Formula::Forall { params: copy_vec(params), body: instantiate_formula(body, subst) },
        ),
    }
}

pub fn instantiate_effect(e: &Effect, subst: &Vec<Option<Object>>) -> (res: Effect)
    ensures
        res@ == ground_effect(e@, subst@),
{
    let res = Effect {
        parameters: copy_vec(&e.parameters),
        condition: instantiate_formula(&e.condition, subst),
        literal: instantiate_literal(&e.literal, subst),
        when: e.when,
        link_condition: instantiate_formula(&e.link_condition, subst),
    };
    assert(res@.parameters == e@.parameters);
    res
}

} // verus!
