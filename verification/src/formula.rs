//! Logical formulas.
//!
//! Formulas are shared via [`Rc`]. The constructors flatten nested
//! conjunctions/disjunctions and short-circuit on `True`/`False`.
//! [`Formula::negation`] pushes negation inward via De Morgan and quantifier
//! duality.
use std::rc::Rc;

use vstd::prelude::*;

use crate::predicates::Predicate;
use crate::terms::{Term, Variable};
use crate::text::copy_vec;

verus! {

/// An atomic formula: a predicate applied to terms.
#[derive(Debug)]
pub struct Atom {
    pub predicate: Predicate,
    pub terms: Vec<Term>,
}

#[verifier::ext_equal]
pub struct AtomView {
    pub predicate: Predicate,
    pub terms: Seq<Term>,
}

impl AtomView {
    /// Whether every term is an object.
    pub open spec fn ground(self) -> bool {
        forall|i: int| 0 <= i < self.terms.len() ==> (#[trigger] self.terms[i]) is Object
    }
}

impl View for Atom {
    type V = AtomView;

    open spec fn view(&self) -> AtomView {
        AtomView { predicate: self.predicate, terms: self.terms@ }
    }
}

impl Clone for Atom {
    fn clone(&self) -> (res: Self)
        ensures
            res@ == self@,
    {
        Atom { predicate: self.predicate, terms: copy_vec(&self.terms) }
    }
}

/// Whether two term lists are equal.
pub fn same_terms(a: &Vec<Term>, b: &Vec<Term>) -> (res: bool)
    ensures
        res == (a@ == b@),
{
    if a.len() != b.len() {
        return false;
    }
    let mut i: usize = 0;
    while i < a.len()
        invariant
            a@.len() == b@.len(),
            i <= a@.len(),
            forall|j: int| 0 <= j < i ==> a@[j] == b@[j],
        decreases a@.len() - i,
    {
        if a[i] != b[i] {
            return false;
        }
        i = i + 1;
    }
    assert(a@ =~= b@);
    true
}

/// Whether two atoms are equal.
pub fn same_atom(a: &Atom, b: &Atom) -> (res: bool)
    ensures
        res == (a@ == b@),
{
    let res = a.predicate == b.predicate && same_terms(&a.terms, &b.terms);
    assert(a@.predicate == a.predicate && a@.terms == a.terms@);
    assert(b@.predicate == b.predicate && b@.terms == b.terms@);
    res
}

/// A literal is a (possibly negated) atom.
#[derive(Debug)]
pub enum Literal {
    Atom(Atom),
    Negation(Atom),
}

#[verifier::ext_equal]
pub struct LiteralView {
    pub negative: bool,
    pub atom: AtomView,
}

impl LiteralView {
    /// The complementary literal.
    pub open spec fn opposite(self) -> LiteralView {
        LiteralView { negative: !self.negative, atom: self.atom }
    }

    /// The literal as a formula.
    pub open spec fn formula(self) -> FormulaView {
        if self.negative {
            FormulaView::Negation(self.atom)
        } else {
            FormulaView::Atom(self.atom)
        }
    }
}

impl View for Literal {
    type V = LiteralView;

    open spec fn view(&self) -> LiteralView {
        match self {
            Literal::Atom(a) => LiteralView { negative: false, atom: a@ },
            Literal::Negation(a) => LiteralView { negative: true, atom: a@ },
        }
    }
}

impl Clone for Literal {
    fn clone(&self) -> (res: Self)
        ensures
            res@ == self@,
    {
        match self {
            Literal::Atom(a) => Literal::Atom(a.clone()),
            Literal::Negation(a) => Literal::Negation(a.clone()),
        }
    }
}

/// Whether two literals are equal.
pub fn same_literal(a: &Literal, b: &Literal) -> (res: bool)
    ensures
        res == (a@ == b@),
{
    let res = a.negative() == b.negative() && same_atom(a.atom(), b.atom());
    proof {
        assert(res == (a@.negative == b@.negative && a@.atom == b@.atom));
    }
    res
}

impl Literal {
    pub fn atom(&self) -> (res: &Atom)
        ensures
            res@ == self@.atom,
    {
        match self {
            Literal::Atom(a) => a,
            Literal::Negation(a) => a,
        }
    }

    pub fn negative(&self) -> (res: bool)
        ensures
            res == self@.negative,
    {
        match self {
            Literal::Atom(_) => false,
            Literal::Negation(_) => true,
        }
    }

    /// Returns the complementary literal.
    pub fn negate(&self) -> (res: Literal)
        ensures
            res@ == self@.opposite(),
    {
        match self {
            Literal::Atom(a) => Literal::Negation(a.clone()),
            Literal::Negation(a) => Literal::Atom(a.clone()),
        }
    }

    /// Lifts this literal into a formula.
    pub fn to_formula(&self) -> (res: Rc<Formula>)
        ensures
            res@ == self@.formula(),
    {
        match self {
            Literal::Atom(a) => Rc::new(Formula::Atom(a.clone())),
            Literal::Negation(a) => Rc::new(Formula::Negation(a.clone())),
        }
    }
}

/// A logical formula.
#[derive(Debug)]
pub enum Formula {
    /// The tautology.
    True,
    /// The contradiction.
    False,
    /// A positive literal.
    Atom(Atom),
    /// A negative literal.
    Negation(Atom),
    /// Equality of two terms (`=`).
    ///
    /// `left_id`/`right_id` are the step ids the terms are scoped to. They are
    /// `None` for (in)equalities coming from action preconditions / goals (where
    /// the scoping step is supplied later), and `Some(id)` for the separation
    /// (in)equalities made during threat resolution, where the two terms belong
    /// to *different* steps.
    Equality { left: Term, left_id: Option<usize>, right: Term, right_id: Option<usize> },
    /// Inequality of two terms (`(not (= ..))`).
    Inequality { left: Term, left_id: Option<usize>, right: Term, right_id: Option<usize> },
    /// Conjunction (flattened).
    Conjunction(Vec<Rc<Formula>>),
    /// Disjunction (flattened).
    Disjunction(Vec<Rc<Formula>>),
    /// Existential quantification.
    Exists { params: Vec<Variable>, body: Rc<Formula> },
    /// Universal quantification.
    Forall { params: Vec<Variable>, body: Rc<Formula> },
}

/// The mathematical form of a formula.
pub enum FormulaView {
    True,
    False,
    Atom(AtomView),
    Negation(AtomView),
    Equality(Term, Option<usize>, Term, Option<usize>),
    Inequality(Term, Option<usize>, Term, Option<usize>),
    Conjunction(Seq<FormulaView>),
    Disjunction(Seq<FormulaView>),
    Exists(Seq<Variable>, Box<FormulaView>),
    Forall(Seq<Variable>, Box<FormulaView>),
}

/// The forms of a list of formulas.
pub open spec fn forms(fs: Seq<Rc<Formula>>) -> Seq<FormulaView>
    decreases fs, 0nat,
{
    Seq::new(
        fs.len(),
        |i: int|
            if 0 <= i < fs.len() {
                fs[i].view()
            } else {
                FormulaView::True
            },
    )
}

impl Formula {
    pub open spec fn view(&self) -> FormulaView
        decreases self, 0nat,
    {
        match self {
            Formula::True => FormulaView::True,
            Formula::False => FormulaView::False,
            Formula::Atom(a) => FormulaView::Atom(a@),
            Formula::Negation(a) => FormulaView::Negation(a@),
            Formula::Equality { left, left_id, right, right_id } => FormulaView::Equality(*left, *left_id, *right, *right_id),
            Formula::Inequality { left, left_id, right, right_id } => FormulaView::Inequality(
                *left,
                *left_id,
                *right,
                *right_id,
            ),
            Formula::Conjunction(cs) => FormulaView::Conjunction(forms(cs@)),
            Formula::Disjunction(ds) => FormulaView::Disjunction(forms(ds@)),
            Formula::Exists { params, body } => FormulaView::Exists(params@, Box::new(body.view())),
            Formula::Forall { params, body } => FormulaView::Forall(params@, Box::new(body.view())),
        }
    }
}

/// The conjuncts of a formula: those of a conjunction, or the formula itself.
pub open spec fn conjuncts(f: FormulaView) -> Seq<FormulaView> {
    match f {
        FormulaView::Conjunction(cs) => cs,
        _ => seq![f],
    }
}

/// The disjuncts of a formula: those of a disjunction, or the formula itself.
pub open spec fn disjuncts(f: FormulaView) -> Seq<FormulaView> {
    match f {
        FormulaView::Disjunction(ds) => ds,
        _ => seq![f],
    }
}

/// The flattened, simplified conjunction of two formulas.
pub open spec fn both(f: FormulaView, g: FormulaView) -> FormulaView {
    if f is False || g is False {
        FormulaView::False
    } else if f is True {
        g
    } else if g is True {
        f
    } else {
        FormulaView::Conjunction(conjuncts(f) + conjuncts(g))
    }
}

/// The flattened, simplified disjunction of two formulas.
pub open spec fn either(f: FormulaView, g: FormulaView) -> FormulaView {
    if f is True || g is True {
        FormulaView::True
    } else if f is False {
        g
    } else if g is False {
        f
    } else {
        FormulaView::Disjunction(disjuncts(f) + disjuncts(g))
    }
}

/// The conjunction of a list; `True` when it is empty.
pub open spec fn all_of(fs: Seq<FormulaView>) -> FormulaView
    decreases fs.len(),
{
    if fs.len() == 0 {
        FormulaView::True
    } else {
        both(all_of(fs.drop_last()), fs.last())
    }
}

/// The disjunction of a list; `False` when it is empty.
pub open spec fn any_of(fs: Seq<FormulaView>) -> FormulaView
    decreases fs.len(),
{
    if fs.len() == 0 {
        FormulaView::False
    } else {
        either(any_of(fs.drop_last()), fs.last())
    }
}

/// The negations of a list of formulas.
pub open spec fn all_negated(fs: Seq<FormulaView>) -> Seq<FormulaView>
    decreases fs, 0nat,
{
    Seq::new(
        fs.len(),
        |i: int|
            if 0 <= i < fs.len() {
                negated(fs[i])
            } else {
                FormulaView::True
            },
    )
}

/// The negation of a formula, pushed inward.
pub open spec fn negated(f: FormulaView) -> FormulaView
    decreases f, 0nat,
{
    match f {
        FormulaView::True => FormulaView::False,
        FormulaView::False => FormulaView::True,
        FormulaView::Atom(a) => FormulaView::Negation(a),
        FormulaView::Negation(a) => FormulaView::Atom(a),
        FormulaView::Equality(l, li, r, ri) => FormulaView::Inequality(l, li, r, ri),
        FormulaView::Inequality(l, li, r, ri) => FormulaView::Equality(l, li, r, ri),
        FormulaView::Conjunction(cs) => any_of(all_negated(cs)),
        FormulaView::Disjunction(ds) => all_of(all_negated(ds)),
        FormulaView::Exists(params, body) => FormulaView::Forall(params, Box::new(negated(*body))),
        FormulaView::Forall(params, body) => FormulaView::Exists(params, Box::new(negated(*body))),
    }
}

/// What a substitution gives for a variable: the term of its first entry.
pub open spec fn lookup(subst: Seq<(Variable, Term)>, v: Variable) -> Option<Term>
    decreases subst.len(),
{
    if subst.len() == 0 {
        None
    } else if subst[0].0 == v {
        Some(subst[0].1)
    } else {
        lookup(subst.drop_first(), v)
    }
}

/// A term under a substitution.
pub open spec fn put_term(t: Term, subst: Seq<(Variable, Term)>) -> Term {
    match t {
        Term::Variable(v) => match lookup(subst, v) {
            Some(u) => u,
            None => t,
        },
        Term::Object(_) => t,
    }
}

/// A list of terms under a substitution.
pub open spec fn put_terms(ts: Seq<Term>, subst: Seq<(Variable, Term)>) -> Seq<Term> {
    Seq::new(ts.len(), |i: int| put_term(ts[i], subst))
}

/// An atom under a substitution.
pub open spec fn put_atom(a: AtomView, subst: Seq<(Variable, Term)>) -> AtomView {
    AtomView { predicate: a.predicate, terms: put_terms(a.terms, subst) }
}

/// The entries of a substitution that speak of none of the given variables.
pub open spec fn shadow(subst: Seq<(Variable, Term)>, params: Seq<Variable>) -> Seq<(Variable, Term)>
    decreases subst.len(),
{
    if subst.len() == 0 {
        seq![]
    } else {
        let rest = shadow(subst.drop_last(), params);
        if params.contains(subst.last().0) {
            rest
        } else {
            rest.push(subst.last())
        }
    }
}

/// A list of formulas under a substitution.
pub open spec fn put_all(fs: Seq<FormulaView>, subst: Seq<(Variable, Term)>) -> Seq<FormulaView>
    decreases fs, 0nat,
{
    Seq::new(
        fs.len(),
        |i: int|
            if 0 <= i < fs.len() {
                put(fs[i], subst)
            } else {
                FormulaView::True
            },
    )
}

/// A formula with each free variable replaced according to `subst`; variables
/// bound by a quantifier are left alone within its body.
pub open spec fn put(f: FormulaView, subst: Seq<(Variable, Term)>) -> FormulaView
    decreases f, 0nat,
{
    match f {
        FormulaView::True => f,
        FormulaView::False => f,
        FormulaView::Atom(a) => FormulaView::Atom(put_atom(a, subst)),
        FormulaView::Negation(a) => FormulaView::Negation(put_atom(a, subst)),
        FormulaView::Equality(l, li, r, ri) => FormulaView::Equality(put_term(l, subst), li, put_term(r, subst), ri),
        FormulaView::Inequality(l, li, r, ri) => FormulaView::Inequality(put_term(l, subst), li, put_term(r, subst), ri),
        FormulaView::Conjunction(cs) => FormulaView::Conjunction(put_all(cs, subst)),
        FormulaView::Disjunction(ds) => FormulaView::Disjunction(put_all(ds, subst)),
        FormulaView::Exists(params, body) => FormulaView::Exists(params, Box::new(put(*body, shadow(subst, params)))),
        FormulaView::Forall(params, body) => FormulaView::Forall(params, Box::new(put(*body, shadow(subst, params)))),
    }
}

/// The inequality of two unscoped terms.
pub open spec fn differ(l: Term, r: Term) -> FormulaView {
    FormulaView::Inequality(l, None, r, None)
}

/// What keeps the first `n` terms of two lists from being all equal: `None` when
/// two objects among them clash already, else the disjunction of inequalities
/// over the positions that are not decided.
pub open spec fn apart_upto(t1: Seq<Term>, t2: Seq<Term>, n: nat) -> Option<FormulaView>
    decreases n,
{
    if n == 0 {
        Some(FormulaView::False)
    } else {
        let l = t1[n - 1];
        let r = t2[n - 1];
        match apart_upto(t1, t2, (n - 1) as nat) {
            None => None,
            Some(d) => if l is Object && r is Object {
                if l == r {
                    Some(d)
                } else {
                    None
                }
            } else {
                Some(either(d, differ(l, r)))
            },
        }
    }
}

/// What keeps two atoms distinct: `None` when they cannot be equal anyway.
pub open spec fn apart(a1: AtomView, a2: AtomView) -> Option<FormulaView> {
    if a1.predicate != a2.predicate || a1.terms.len() != a2.terms.len() {
        None
    } else {
        apart_upto(a1.terms, a2.terms, a1.terms.len())
    }
}

/// What keeps a literal of a precondition from being the literal of an effect.
pub open spec fn literal_separator(l: LiteralView, effect: LiteralView) -> FormulaView {
    if l.negative != effect.negative {
        FormulaView::True
    } else {
        match apart(l.atom, effect.atom) {
            None => FormulaView::True,
            Some(f) => f,
        }
    }
}

/// The separators of a list of formulas.
pub open spec fn all_separators(fs: Seq<FormulaView>, effect: LiteralView) -> Seq<FormulaView>
    decreases fs, 0nat,
{
    Seq::new(
        fs.len(),
        |i: int|
            if 0 <= i < fs.len() {
                separated(fs[i], effect)
            } else {
                FormulaView::True
            },
    )
}

/// For each of a list of formulas: that it does not hold, or its separator.
pub open spec fn guarded_separators(fs: Seq<FormulaView>, effect: LiteralView) -> Seq<FormulaView>
    decreases fs, 0nat,
{
    Seq::new(
        fs.len(),
        |i: int|
            if 0 <= i < fs.len() {
                either(negated(fs[i]), separated(fs[i], effect))
            } else {
                FormulaView::True
            },
    )
}

/// What keeps the literals of a formula from being the literal of an effect.
pub open spec fn separated(f: FormulaView, effect: LiteralView) -> FormulaView
    decreases f, 0nat,
{
    match f {
        FormulaView::Atom(a) => literal_separator(LiteralView { negative: false, atom: a }, effect),
        FormulaView::Negation(a) => literal_separator(LiteralView { negative: true, atom: a }, effect),
        FormulaView::Conjunction(cs) => all_of(all_separators(cs, effect)),
        FormulaView::Disjunction(ds) => all_of(guarded_separators(ds, effect)),
        FormulaView::Exists(_, body) => separated(*body, effect),
        FormulaView::Forall(_, body) => separated(*body, effect),
        _ => FormulaView::True,
    }
}

/// A substitution without entries changes nothing.
pub proof fn put_nothing(f: FormulaView)
    ensures
        put(f, seq![]) == f,
    decreases f,
{
    let none: Seq<(Variable, Term)> = seq![];
    match f {
        FormulaView::Atom(a) => {
            assert(put_terms(a.terms, none) =~= a.terms);
        },
        FormulaView::Negation(a) => {
            assert(put_terms(a.terms, none) =~= a.terms);
        },
        FormulaView::Conjunction(cs) => {
            assert forall|i: int| 0 <= i < cs.len() implies put_all(cs, none)[i] == cs[i] by {
                put_nothing(cs[i]);
            }
            assert(put_all(cs, none) =~= cs);
        },
        FormulaView::Disjunction(ds) => {
            assert forall|i: int| 0 <= i < ds.len() implies put_all(ds, none)[i] == ds[i] by {
                put_nothing(ds[i]);
            }
            assert(put_all(ds, none) =~= ds);
        },
        FormulaView::Exists(params, body) => {
            assert(shadow(none, params) =~= none);
            put_nothing(*body);
        },
        FormulaView::Forall(params, body) => {
            assert(shadow(none, params) =~= none);
            put_nothing(*body);
        },
        _ => {},
    }
}

/// Whether two lists of formulas have the same forms.
fn same_formulas(fs: &Vec<Rc<Formula>>, gs: &Vec<Rc<Formula>>) -> (res: bool)
    ensures
        res == (forms(fs@) == forms(gs@)),
    decreases fs,
{
    if fs.len() != gs.len() {
        assert(forms(fs@).len() != forms(gs@).len());
        return false;
    }
    let mut i: usize = 0;
    while i < fs.len()
        invariant
            fs@.len() == gs@.len(),
            i <= fs@.len(),
            forall|j: int| 0 <= j < i ==> (#[trigger] fs@[j])@ == gs@[j]@,
        decreases fs@.len() - i,
    {
        if !same_formula(&fs[i], &gs[i]) {
            assert(forms(fs@)[i as int] != forms(gs@)[i as int]);
            return false;
        }
        i = i + 1;
    }
    assert(forms(fs@) =~= forms(gs@));
    true
}

/// Whether two formulas have the same form.
pub fn same_formula(f: &Rc<Formula>, g: &Rc<Formula>) -> (res: bool)
    ensures
        res == (f@ == g@),
    decreases f,
{
    match (&**f, &**g) {
        (Formula::True, Formula::True) => true,
        (Formula::False, Formula::False) => true,
        (Formula::Atom(a), Formula::Atom(b)) => same_atom(a, b),
        (Formula::Negation(a), Formula::Negation(b)) => same_atom(a, b),
        (
            Formula::Equality { left: l1, left_id: i1, right: r1, right_id: j1 },
            Formula::Equality { left: l2, left_id: i2, right: r2, right_id: j2 },
        ) => *l1 == *l2 && *r1 == *r2 && same_id(*i1, *i2) && same_id(*j1, *j2),
        (
            Formula::Inequality { left: l1, left_id: i1, right: r1, right_id: j1 },
            Formula::Inequality { left: l2, left_id: i2, right: r2, right_id: j2 },
        ) => *l1 == *l2 && *r1 == *r2 && same_id(*i1, *i2) && same_id(*j1, *j2),
        (Formula::Conjunction(a), Formula::Conjunction(b)) => same_formulas(a, b),
        (Formula::Disjunction(a), Formula::Disjunction(b)) => same_formulas(a, b),
        (Formula::Exists { params: p, body: a }, Formula::Exists { params: q, body: b }) => same_params(p, q) && same_formula(a, b),
        (Formula::Forall { params: p, body: a }, Formula::Forall { params: q, body: b }) => same_params(p, q) && same_formula(a, b),
        _ => false,
    }
}

fn same_id(a: Option<usize>, b: Option<usize>) -> (res: bool)
    ensures
        res == (a == b),
{
    match (a, b) {
        (Some(x), Some(y)) => x == y,
        (None, None) => true,
        _ => false,
    }
}

/// Whether two variable lists are equal.
pub fn same_params(a: &Vec<Variable>, b: &Vec<Variable>) -> (res: bool)
    ensures
        res == (a@ == b@),
{
    if a.len() != b.len() {
        return false;
    }
    let mut i: usize = 0;
    while i < a.len()
        invariant
            a@.len() == b@.len(),
            i <= a@.len(),
            forall|j: int| 0 <= j < i ==> a@[j] == b@[j],
        decreases a@.len() - i,
    {
        if a[i] != b[i] {
            return false;
        }
        i = i + 1;
    }
    assert(a@ =~= b@);
    true
}

fn append_shared(out: &mut Vec<Rc<Formula>>, fs: &Vec<Rc<Formula>>)
    ensures
        final(out)@ == old(out)@ + fs@,
{
    let mut i: usize = 0;
    let ghost before = out@;
    while i < fs.len()
        invariant
            i <= fs@.len(),
            out@ == before + fs@.take(i as int),
        decreases fs@.len() - i,
    {
        out.push(fs[i].clone());
        assert(fs@.take(i + 1) =~= fs@.take(i as int).push(fs@[i as int]));
        assert(before + fs@.take(i + 1) =~= (before + fs@.take(i as int)).push(fs@[i as int]));
        i = i + 1;
    }
    assert(fs@.take(i as int) =~= fs@);
}

impl Formula {
    pub fn tautology(&self) -> (res: bool)
        ensures
            res == (self@ is True),
    {
        match self {
            Formula::True => true,
            _ => false,
        }
    }

    pub fn contradiction(&self) -> (res: bool)
        ensures
            res == (self@ is False),
    {
        match self {
            Formula::False => true,
            _ => false,
        }
    }

    /// An equality with unscoped terms (ids resolved later).
    pub fn equality(left: Term, right: Term) -> (res: Rc<Formula>)
        ensures
            res@ == FormulaView::Equality(left, None, right, None),
    {
        Rc::new(Formula::Equality { left, left_id: None, right, right_id: None })
    }

    /// An inequality with unscoped terms (ids resolved later).
    pub fn inequality(left: Term, right: Term) -> (res: Rc<Formula>)
        ensures
            res@ == FormulaView::Inequality(left, None, right, None),
    {
        Rc::new(Formula::Inequality { left, left_id: None, right, right_id: None })
    }

    /// Conjoins two formulas, flattening nested conjunctions and simplifying
    /// against `True`/`False`.
    pub fn and(f1: Rc<Formula>, f2: Rc<Formula>) -> (res: Rc<Formula>)
        ensures
            res@ == both(f1@, f2@),
    {
        if f1.contradiction() {
            return f1;
        }
        if f2.contradiction() {
            return f2;
        }
        if f1.tautology() {
            return f2;
        }
        if f2.tautology() {
            return f1;
        }
        let mut conjuncts: Vec<Rc<Formula>> = Vec::new();
        Self::push_conjuncts(&mut conjuncts, &f1);
        Self::push_conjuncts(&mut conjuncts, &f2);
        proof {
            assert(forms(conjuncts@) =~= self::conjuncts(f1@) + self::conjuncts(f2@));
        }
        Rc::new(Formula::Conjunction(conjuncts))
    }

    fn push_conjuncts(out: &mut Vec<Rc<Formula>>, f: &Rc<Formula>)
        ensures
            forms(final(out)@) == forms(old(out)@) + conjuncts(f@),
    {
        match &**f {
            Formula::Conjunction(cs) => {
                append_shared(out, cs);
                assert(conjuncts(f@) == forms(cs@));
                assert(forms(out@) =~= forms(old(out)@) + forms(cs@));
            },
            _ => {
                out.push(f.clone());
                assert(conjuncts(f@) == seq![f@]);
                assert(forms(out@) =~= forms(old(out)@) + seq![f@]);
            },
        }
    }

    /// Disjoins two formulas, flattening nested disjunctions and simplifying
    /// against `True`/`False`.
    pub fn or(f1: Rc<Formula>, f2: Rc<Formula>) -> (res: Rc<Formula>)
        ensures
            res@ == either(f1@, f2@),
    {
        if f1.tautology() {
            return f1;
        }
        if f2.tautology() {
            return f2;
        }
        if f1.contradiction() {
            return f2;
        }
        if f2.contradiction() {
            return f1;
        }
        let mut disjuncts: Vec<Rc<Formula>> = Vec::new();
        Self::push_disjuncts(&mut disjuncts, &f1);
        Self::push_disjuncts(&mut disjuncts, &f2);
        proof {
            assert(forms(disjuncts@) =~= self::disjuncts(f1@) + self::disjuncts(f2@));
        }
        Rc::new(Formula::Disjunction(disjuncts))
    }

    fn push_disjuncts(out: &mut Vec<Rc<Formula>>, f: &Rc<Formula>)
        ensures
            forms(final(out)@) == forms(old(out)@) + disjuncts(f@),
    {
        match &**f {
            Formula::Disjunction(ds) => {
                append_shared(out, ds);
                assert(disjuncts(f@) == forms(ds@));
                assert(forms(out@) =~= forms(old(out)@) + forms(ds@));
            },
            _ => {
                out.push(f.clone());
                assert(disjuncts(f@) == seq![f@]);
                assert(forms(out@) =~= forms(old(out)@) + seq![f@]);
            },
        }
    }

    /// Builds the conjunction of a list, flattening and simplifying. The empty
    /// conjunction is `True`.
    pub fn conjoin_all(items: Vec<Rc<Formula>>) -> (res: Rc<Formula>)
        ensures
            res@ == all_of(forms(items@)),
    {
        let mut acc: Rc<Formula> = Rc::new(Formula::True);
        let mut i: usize = 0;
        while i < items.len()
            invariant
                i <= items@.len(),
                acc@ == all_of(forms(items@).take(i as int)),
            decreases items@.len() - i,
        {
            acc = Formula::and(acc, items[i].clone());
            assert(forms(items@).take(i + 1).drop_last() =~= forms(items@).take(i as int));
            i = i + 1;
        }
        assert(forms(items@).take(i as int) =~= forms(items@));
        acc
    }

    /// Builds the disjunction of a list, flattening and simplifying. The empty
    /// disjunction is `False`.
    pub fn disjoin_all(items: Vec<Rc<Formula>>) -> (res: Rc<Formula>)
        ensures
            res@ == any_of(forms(items@)),
    {
        let mut acc: Rc<Formula> = Rc::new(Formula::False);
        let mut i: usize = 0;
        while i < items.len()
            invariant
                i <= items@.len(),
                acc@ == any_of(forms(items@).take(i as int)),
            decreases items@.len() - i,
        {
            acc = Formula::or(acc, items[i].clone());
            assert(forms(items@).take(i + 1).drop_last() =~= forms(items@).take(i as int));
            i = i + 1;
        }
        assert(forms(items@).take(i as int) =~= forms(items@));
        acc
    }

    fn negate_each(fs: &Vec<Rc<Formula>>) -> (res: Vec<Rc<Formula>>)
        ensures
            forms(res@) == all_negated(forms(fs@)),
        decreases fs,
    {
        let mut res: Vec<Rc<Formula>> = Vec::new();
        let mut i: usize = 0;
        while i < fs.len()
            invariant
                i <= fs@.len(),
                res@.len() == i,
                forall|j: int| 0 <= j < i ==> (#[trigger] res@[j])@ == negated(fs@[j]@),
            decreases fs@.len() - i,
        {
            let g = fs[i].negation();
            res.push(g);
            i = i + 1;
        }
        assert(forms(res@) =~= all_negated(forms(fs@)));
        res
    }

    /// Returns the negation, pushing it inward via De Morgan / quantifier
    /// duality.
    pub fn negation(self: &Rc<Formula>) -> (res: Rc<Formula>)
        ensures
            res@ == negated(self@),
        decreases self,
    {
        match &**self {
            Formula::True => Rc::new(Formula::False),
            Formula::False => Rc::new(Formula::True),
            Formula::Atom(a) => Rc::new(Formula::Negation(a.clone())),
            Formula::Negation(a) => Rc::new(Formula::Atom(a.clone())),
            Formula::Equality { left, left_id, right, right_id } => Rc::new(
                Formula::Inequality { left: *left, left_id: *left_id, right: *right, right_id: *right_id },
            ),
            Formula::Inequality { left, left_id, right, right_id } => Rc::new(
                Formula::Equality { left: *left, left_id: *left_id, right: *right, right_id: *right_id },
            ),
            // De Morgan: !(a & b) == !a | !b.
            Formula::Conjunction(cs) => Formula::disjoin_all(Formula::negate_each(cs)),
            // De Morgan: !(a | b) == !a & !b.
            Formula::Disjunction(ds) => Formula::conjoin_all(Formula::negate_each(ds)),
            // !exists x. p == forall x. !p.
            Formula::Exists { params, body } => Rc::new(
                Formula::Forall { params: copy_vec(params), body: body.negation() },
            ),
            // !forall x. p == exists x. !p.
            Formula::Forall { params, body } => Rc::new(
                Formula::Exists { params: copy_vec(params), body: body.negation() },
            ),
        }
    }

    fn substitute_each(fs: &Vec<Rc<Formula>>, subst: &Vec<(Variable, Term)>) -> (res: Vec<Rc<Formula>>)
        ensures
            forms(res@) == put_all(forms(fs@), subst@),
        decreases fs,
    {
        let mut res: Vec<Rc<Formula>> = Vec::new();
        let mut i: usize = 0;
        while i < fs.len()
            invariant
                i <= fs@.len(),
                res@.len() == i,
                forall|j: int| 0 <= j < i ==> (#[trigger] res@[j])@ == put(fs@[j]@, subst@),
            decreases fs@.len() - i,
        {
            let g = fs[i].substitute(subst);
            res.push(g);
            i = i + 1;
        }
        assert(forms(res@) =~= put_all(forms(fs@), subst@));
        res
    }

    /// Returns this formula with each free variable replaced according to
    /// `subst` (identity for variables not in it). Used for forall-effect
    /// parameter renaming (variable to fresh variable) and universal-base
    /// expansion (variable to object). Quantifier-bound variables shadow the
    /// substitution within their body.
    pub fn substitute(self: &Rc<Formula>, subst: &Vec<(Variable, Term)>) -> (res: Rc<Formula>)
        ensures
            res@ == put(self@, subst@),
        decreases self,
    {
        if subst.len() == 0 {
            proof {
                put_nothing(self@);
                assert(subst@ =~= seq![]);
            }
            return self.clone();
        }
        match &**self {
            Formula::True => self.clone(),
            Formula::False => self.clone(),
            Formula::Atom(a) => Rc::new(Formula::Atom(subst_atom(a, subst))),
            Formula::Negation(a) => Rc::new(Formula::Negation(subst_atom(a, subst))),
            Formula::Equality { left, left_id, right, right_id } => Rc::new(
                Formula::Equality {
                    left: subst_term(*left, subst),
                    left_id: *left_id,
                    right: subst_term(*right, subst),
                    right_id: *right_id,
                },
            ),
            Formula::Inequality { left, left_id, right, right_id } => Rc::new(
                Formula::Inequality {
                    left: subst_term(*left, subst),
                    left_id: *left_id,
                    right: subst_term(*right, subst),
                    right_id: *right_id,
                },
            ),
            Formula::Conjunction(cs) => Rc::new(Formula::Conjunction(Formula::substitute_each(cs, subst))),
            Formula::Disjunction(ds) => Rc::new(Formula::Disjunction(Formula::substitute_each(ds, subst))),
            Formula::Exists { params, body } => {
                let inner = shadowed(subst, params);
                Rc::new(Formula::Exists { params: copy_vec(params), body: body.substitute(&inner) })
            },
            Formula::Forall { params, body } => {
                let inner = shadowed(subst, params);
                Rc::new(Formula::Forall { params: copy_vec(params), body: body.substitute(&inner) })
            },
        }
    }

    fn separate_each(fs: &Vec<Rc<Formula>>, effect_lit: &Literal) -> (res: Vec<Rc<Formula>>)
        ensures
            forms(res@) == all_separators(forms(fs@), effect_lit@),
        decreases fs,
    {
        let mut res: Vec<Rc<Formula>> = Vec::new();
        let mut i: usize = 0;
        while i < fs.len()
            invariant
                i <= fs@.len(),
                res@.len() == i,
                forall|j: int| 0 <= j < i ==> (#[trigger] res@[j])@ == separated(fs@[j]@, effect_lit@),
            decreases fs@.len() - i,
        {
            let g = fs[i].separator(effect_lit);
            res.push(g);
            i = i + 1;
        }
        assert(forms(res@) =~= all_separators(forms(fs@), effect_lit@));
        res
    }

    fn guard_each(fs: &Vec<Rc<Formula>>, effect_lit: &Literal) -> (res: Vec<Rc<Formula>>)
        ensures
            forms(res@) == guarded_separators(forms(fs@), effect_lit@),
        decreases fs,
    {
        let mut res: Vec<Rc<Formula>> = Vec::new();
        let mut i: usize = 0;
        while i < fs.len()
            invariant
                i <= fs@.len(),
                res@.len() == i,
                forall|j: int|
                    0 <= j < i ==> (#[trigger] res@[j])@ == either(negated(fs@[j]@), separated(fs@[j]@, effect_lit@)),
            decreases fs@.len() - i,
        {
            let g = Formula::or(fs[i].negation(), fs[i].separator(effect_lit));
            res.push(g);
            i = i + 1;
        }
        assert(forms(res@) =~= guarded_separators(forms(fs@), effect_lit@));
        res
    }

    /// Returns the formula that must hold for `effect_lit` to *not* interfere
    /// with this formula (a precondition) asserted at the same time: the
    /// disjunction of inequalities keeping them from denoting the same literal.
    /// A disjunction asks, of each disjunct, that it does not hold or is
    /// separated: whichever one held stays true.
    pub fn separator(self: &Rc<Formula>, effect_lit: &Literal) -> (res: Rc<Formula>)
        ensures
            res@ == separated(self@, effect_lit@),
        decreases self,
    {
        match &**self {
            Formula::Atom(a) => sep_literal(false, a, effect_lit),
            Formula::Negation(a) => sep_literal(true, a, effect_lit),
            Formula::Conjunction(cs) => Formula::conjoin_all(Formula::separate_each(cs, effect_lit)),
            Formula::Disjunction(ds) => Formula::conjoin_all(Formula::guard_each(ds, effect_lit)),
            Formula::Exists { params: _, body } => body.separator(effect_lit),
            Formula::Forall { params: _, body } => body.separator(effect_lit),
            _ => Rc::new(Formula::True),
        }
    }
}

/// The separator of a precondition literal (sign `precond_neg`, atom `a`)
/// against an effect literal: `True` if they cannot denote the same literal
/// (different sign/predicate, or a constant clash), `False` if they are forced
/// equal, else the disjunction of inequalities that keeps them apart.
fn sep_literal(precond_neg: bool, a: &Atom, effect_lit: &Literal) -> (res: Rc<Formula>)
    ensures
        res@ == literal_separator(LiteralView { negative: precond_neg, atom: a@ }, effect_lit@),
{
    if precond_neg != effect_lit.negative() {
        return Rc::new(Formula::True);
    }
    match atom_separator(a, effect_lit.atom()) {
        None => Rc::new(Formula::True),
        Some(f) => f,
    }
}

/// Unifies two atoms positionally, returning the disjunction of inequalities
/// needed to keep them distinct: `None` if they cannot unify (different
/// predicate/arity or a constant clash, so they are already distinct), `False`
/// if they are identical (cannot be separated), else the disjunction of
/// `t1 != t2` over the differing positions.
pub fn atom_separator(a1: &Atom, a2: &Atom) -> (res: Option<Rc<Formula>>)
    ensures
        match apart(a1@, a2@) {
            None => res is None,
            Some(f) => res matches Some(r) && r@ == f,
        },
{
    if a1.predicate != a2.predicate || a1.terms.len() != a2.terms.len() {
        return None;
    }
    let mut disj: Rc<Formula> = Rc::new(Formula::False);
    let mut i: usize = 0;
    while i < a1.terms.len()
        invariant
            a1.predicate == a2.predicate,
            a1.terms@.len() == a2.terms@.len(),
            i <= a1.terms@.len(),
            apart_upto(a1.terms@, a2.terms@, i as nat) == Some(disj@),
        decreases a1.terms@.len() - i,
    {
        let t1 = a1.terms[i];
        let t2 = a2.terms[i];
        if t1.object() && t2.object() {
            if t1 != t2 {
                proof {
                    lemma_clash(a1.terms@, a2.terms@, (i + 1) as nat, a1.terms@.len());
                }
                return None;
            }
        } else {
            disj = Formula::or(disj, Formula::inequality(t1, t2));
        }
        i = i + 1;
    }
    Some(disj)
}

proof fn lemma_clash(t1: Seq<Term>, t2: Seq<Term>, n: nat, m: nat)
    requires
        n <= m,
        apart_upto(t1, t2, n) is None,
    ensures
        apart_upto(t1, t2, m) is None,
    decreases m - n,
{
    if n < m {
        lemma_clash(t1, t2, n, (m - 1) as nat);
    }
}

/// What a substitution gives for a variable.
pub fn find_term(subst: &Vec<(Variable, Term)>, v: Variable) -> (res: Option<Term>)
    ensures
        res == lookup(subst@, v),
{
    let mut i: usize = 0;
    assert(subst@.skip(0) =~= subst@);
    while i < subst.len()
        invariant
            i <= subst@.len(),
            lookup(subst@, v) == lookup(subst@.skip(i as int), v),
        decreases subst@.len() - i,
    {
        assert(subst@.skip(i as int).drop_first() =~= subst@.skip(i + 1));
        if subst[i].0 == v {
            return Some(subst[i].1);
        }
        i = i + 1;
    }
    None
}

/// A term under a substitution.
pub fn subst_term(t: Term, subst: &Vec<(Variable, Term)>) -> (res: Term)
    ensures
        res == put_term(t, subst@),
{
    match t {
        Term::Variable(v) => match find_term(subst, v) {
            Some(u) => u,
            None => t,
        },
        Term::Object(_) => t,
    }
}

/// An atom under a substitution.
pub fn subst_atom(a: &Atom, subst: &Vec<(Variable, Term)>) -> (res: Atom)
    ensures
        res@ == put_atom(a@, subst@),
{
    let mut terms: Vec<Term> = Vec::new();
    let mut i: usize = 0;
    while i < a.terms.len()
        invariant
            i <= a.terms@.len(),
            terms@.len() == i,
            forall|j: int| 0 <= j < i ==> #[trigger] terms@[j] == put_term(a.terms@[j], subst@),
        decreases a.terms@.len() - i,
    {
        terms.push(subst_term(a.terms[i], subst));
        i = i + 1;
    }
    assert(terms@ =~= put_terms(a.terms@, subst@));
    Atom { predicate: a.predicate, terms }
}

/// Whether `v` is among `vs`.
pub fn has_variable(vs: &Vec<Variable>, v: Variable) -> (res: bool)
    ensures
        res == vs@.contains(v),
{
    let mut i: usize = 0;
    while i < vs.len()
        invariant
            i <= vs@.len(),
            forall|j: int| 0 <= j < i ==> vs@[j] != v,
        decreases vs@.len() - i,
    {
        if vs[i] == v {
            return true;
        }
        i = i + 1;
    }
    false
}

/// Returns `subst` with the given quantifier-bound parameters removed (so they
/// are not substituted within the quantifier's body).
fn shadowed(subst: &Vec<(Variable, Term)>, params: &Vec<Variable>) -> (res: Vec<(Variable, Term)>)
    ensures
        res@ == shadow(subst@, params@),
{
    let mut res: Vec<(Variable, Term)> = Vec::new();
    let mut i: usize = 0;
    while i < subst.len()
        invariant
            i <= subst@.len(),
            res@ == shadow(subst@.take(i as int), params@),
        decreases subst@.len() - i,
    {
        assert(subst@.take(i + 1).drop_last() =~= subst@.take(i as int));
        if !has_variable(params, subst[i].0) {
            res.push(subst[i]);
        }
        i = i + 1;
    }
    assert(subst@.take(i as int) =~= subst@);
    res
}

} // verus!
