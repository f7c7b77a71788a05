//! PDDL notation of terms, atoms, types and formulas.
use std::rc::Rc;

use vstd::prelude::*;

use crate::formula::{put_term, forms, Atom, AtomView, Formula, FormulaView, Literal, LiteralView};
use crate::lower_model::names_of;
use crate::predicates::{Predicate, PredicateTable};
use crate::terms::{Object, Term, TermTable, Variable};
use crate::text::{decimal, push_number};
use crate::types::{Type, TypeView, Types, OBJECT};

verus! {

/// The names that notation is made of.
#[verifier::ext_equal]
pub struct Names {
    pub types: Seq<TypeView>,
    /// By number.
    pub predicates: Seq<Seq<char>>,
    /// By number: the constants, then the objects of the problem.
    pub objects: Seq<Seq<char>>,
}

impl Names {
    /// The name of a predicate; empty for an unknown one.
    pub open spec fn predicate(self, p: Predicate) -> Seq<char> {
        if p.0 < self.predicates.len() {
            self.predicates[p.0 as int]
        } else {
            ""@
        }
    }

    /// The name of an object; empty for an unknown one.
    pub open spec fn object(self, o: Object) -> Seq<char> {
        if o.0 < self.objects.len() {
            self.objects[o.0 as int]
        } else {
            ""@
        }
    }

    /// The name of a type; empty for a union and for an unknown one.
    pub open spec fn simple(self, t: Type) -> Seq<char> {
        if t.0 < self.types.len() {
            self.types[t.0 as int].name
        } else {
            ""@
        }
    }

    /// A text with the names of the first `n` of some types behind it, separated by
    /// spaces.
    pub open spec fn simples(self, before: Seq<char>, ts: Seq<Type>, n: nat) -> Seq<char>
        decreases n,
    {
        if n == 0 {
            before
        } else if n == 1 {
            before + self.simple(ts[0])
        } else {
            self.simples(before, ts, (n - 1) as nat) + " "@ + self.simple(ts[n - 1])
        }
    }

    /// A choice of types.
    pub open spec fn choice(self, ts: Seq<Type>) -> Seq<char> {
        self.simples("(either "@, ts, ts.len()) + ")"@
    }

    /// A type: a name, or the choice of the components of a union.
    pub open spec fn type_text(self, t: Type) -> Seq<char> {
        if t.0 < self.types.len() && self.types[t.0 as int].components.len() > 0 {
            self.choice(self.types[t.0 as int].components)
        } else {
            self.simple(t)
        }
    }

    /// A term.
    pub open spec fn term(self, t: Term) -> Seq<char> {
        match t {
            Term::Variable(v) => variable_name(v),
            Term::Object(o) => self.object(o),
        }
    }

    /// A text with the first `n` of some terms behind it, each after a space.
    pub open spec fn terms(self, before: Seq<char>, ts: Seq<Term>, subst: Seq<(Variable, Term)>, n: nat) -> Seq<char>
        decreases n,
    {
        if n == 0 {
            before
        } else {
            self.terms(before, ts, subst, (n - 1) as nat) + " "@ + self.term(put_term(ts[n - 1], subst))
        }
    }

    /// An atom under a substitution.
    pub open spec fn atom(self, a: AtomView, subst: Seq<(Variable, Term)>) -> Seq<char> {
        self.terms("("@ + self.predicate(a.predicate), a.terms, subst, a.terms.len()) + ")"@
    }

    /// A literal under a substitution.
    pub open spec fn literal(self, l: LiteralView, subst: Seq<(Variable, Term)>) -> Seq<char> {
        if l.negative {
            "(not "@ + self.atom(l.atom, subst) + ")"@
        } else {
            self.atom(l.atom, subst)
        }
    }

    /// The equality of two terms under a substitution.
    pub open spec fn equality(self, l: Term, r: Term, subst: Seq<(Variable, Term)>) -> Seq<char> {
        "(= "@ + self.term(put_term(l, subst)) + " "@ + self.term(put_term(r, subst)) + ")"@
    }

    /// A text with the first `n` of some variables behind it, with their types,
    /// separated by spaces. A variable without a type is an `object`.
    pub open spec fn parameters(self, before: Seq<char>, vs: Seq<Variable>, types: Seq<Type>, n: nat) -> Seq<char>
        decreases n,
    {
        if n == 0 {
            before
        } else {
            let rest = self.parameters(before, vs, types, (n - 1) as nat);
            let apart = if n > 1 {
                rest + " "@
            } else {
                rest
            };
            apart + variable_name(vs[n - 1]) + " - "@ + self.type_text(type_at(types, vs[n - 1]))
        }
    }

    /// A formula.
    pub open spec fn formula(self, f: FormulaView, types: Seq<Type>) -> Seq<char>
        decreases f, 0nat,
    {
        match f {
            FormulaView::True => "(and)"@,
            FormulaView::False => "(or)"@,
            FormulaView::Atom(a) => self.atom(a, seq![]),
            FormulaView::Negation(a) => "(not "@ + self.atom(a, seq![]) + ")"@,
            FormulaView::Equality(l, _, r, _) => self.equality(l, r, seq![]),
            FormulaView::Inequality(l, _, r, _) => "(not "@ + self.equality(l, r, seq![]) + ")"@,
            FormulaView::Conjunction(cs) => self.formulas("(and"@, cs, types, cs.len()) + ")"@,
            FormulaView::Disjunction(ds) => self.formulas("(or"@, ds, types, ds.len()) + ")"@,
            FormulaView::Exists(params, body) => self.parameters("(exists ("@, params, types, params.len()) + ") "@ + self.formula(*body, types)
                + ")"@,
            FormulaView::Forall(params, body) => self.parameters("(forall ("@, params, types, params.len()) + ") "@ + self.formula(*body, types)
                + ")"@,
        }
    }

    /// A text with the first `n` of some formulas behind it, each after a space.
    pub open spec fn formulas(self, before: Seq<char>, fs: Seq<FormulaView>, types: Seq<Type>, n: nat) -> Seq<char>
        decreases fs, n,
    {
        if n == 0 || n > fs.len() {
            before
        } else {
            self.formulas(before, fs, types, (n - 1) as nat) + " "@ + self.formula(fs[n - 1], types)
        }
    }
}

/// The name of a variable.
pub open spec fn variable_name(v: Variable) -> Seq<char> {
    "?v"@ + decimal(v.0 as nat)
}

/// The type of a variable in a table; `object` where it has none.
pub open spec fn type_at(types: Seq<Type>, v: Variable) -> Type {
    if v.0 < types.len() {
        types[v.0 as int]
    } else {
        Type(OBJECT)
    }
}

pub(crate) fn find_type(types: &Vec<Type>, v: Variable) -> (res: Type)
    ensures
        res == type_at(types@, v),
{
    if (v.0 as usize) < types.len() {
        types[v.0 as usize]
    } else {
        Type(OBJECT)
    }
}

/// The tables that the names are in.
pub struct Lexicon<'a> {
    pub types: &'a Types,
    pub predicates: &'a PredicateTable,
    pub constants: &'a TermTable,
    /// The objects of a problem, behind the constants.
    pub objects: Option<&'a TermTable>,
}

impl<'a> Lexicon<'a> {
    pub open spec fn wf(&self) -> bool {
        &&& self.types.wf()
        &&& self.predicates.wf()
        &&& self.constants.wf()
        &&& self.constants.first() == 0
        &&& self.objects matches Some(o) ==> o.wf() && o.first() == self.constants.end()
    }

    pub open spec fn view(&self) -> Names {
        Names {
            types: self.types@,
            predicates: self.predicates.names(),
            objects: names_of(self.constants.objects()) + (match self.objects {
                Some(o) => names_of(o.objects()),
                None => seq![],
            }),
        }
    }

    pub fn push_predicate(&self, out: &mut String, p: Predicate)
        requires
            self.wf(),
        ensures
            final(out)@ == old(out)@ + self@.predicate(p),
    {
        if (p.0 as usize) < self.predicates.len() {
            out.append(self.predicates.name(p));
        } else {
            out.append("");
        }
    }

    pub fn push_object(&self, out: &mut String, o: Object)
        requires
            self.wf(),
        ensures
            final(out)@ == old(out)@ + self@.object(o),
    {
        let n = self.constants.len();
        if (o.0 as usize) < n {
            out.append(self.constants.object_name(None, o));
            return;
        }
        match self.objects {
            Some(t) => {
                if (o.0 as usize) - n < t.len() {
                    out.append(t.object_name(None, o));
                    return;
                }
            },
            None => {},
        }
        out.append("");
    }

    pub fn push_simple(&self, out: &mut String, t: Type)
        requires
            self.wf(),
        ensures
            final(out)@ == old(out)@ + self@.simple(t),
    {
        if (t.0 as usize) < self.types.len() {
            out.append(self.types.name(t));
        } else {
            out.append("");
        }
    }

    pub fn choice(&self, ts: &Vec<Type>) -> (res: String)
        requires
            self.wf(),
        ensures
            res@ == self@.choice(ts@),
    {
        let mut out = "(either ".to_string();
        let mut i: usize = 0;
        while i < ts.len()
            invariant
                self.wf(),
                i <= ts@.len(),
                out@ == self@.simples("(either "@, ts@, i as nat),
            decreases ts@.len() - i,
        {
            if i > 0 {
                out.append(" ");
            }
            self.push_simple(&mut out, ts[i]);
            i = i + 1;
        }
        out.append(")");
        out
    }

    pub fn push_type(&self, out: &mut String, t: Type)
        requires
            self.wf(),
        ensures
            final(out)@ == old(out)@ + self@.type_text(t),
    {
        if (t.0 as usize) < self.types.len() && self.types.components(t).len() > 0 {
            let text = self.choice(self.types.components(t));
            out.append(text.as_str());
        } else {
            self.push_simple(out, t);
        }
    }

    pub fn term(&self, t: Term) -> (res: String)
        requires
            self.wf(),
        ensures
            res@ == self@.term(t),
    {
        match t {
            Term::Variable(v) => variable_text(v),
            Term::Object(o) => {
                let mut out = String::new();
                self.push_object(&mut out, o);
                assert(Seq::<char>::empty() + self@.object(o) =~= self@.object(o));
                out
            },
        }
    }

    pub fn atom(&self, a: &Atom, subst: &Vec<(Variable, Term)>) -> (res: String)
        requires
            self.wf(),
        ensures
            res@ == self@.atom(a@, subst@),
    {
        let mut out = "(".to_string();
        self.push_predicate(&mut out, a.predicate);
        let ghost head = out@;
        let mut i: usize = 0;
        while i < a.terms.len()
            invariant
                self.wf(),
                i <= a.terms@.len(),
                out@ == self@.terms(head, a.terms@, subst@, i as nat),
            decreases a.terms@.len() - i,
        {
            out.append(" ");
            let t = self.term(substitute(a.terms[i], subst));
            out.append(t.as_str());
            i = i + 1;
        }
        out.append(")");
        out
    }

    pub fn literal(&self, l: &Literal, subst: &Vec<(Variable, Term)>) -> (res: String)
        requires
            self.wf(),
        ensures
            res@ == self@.literal(l@, subst@),
    {
        let inner = self.atom(l.atom(), subst);
        if l.negative() {
            let mut out = "(not ".to_string();
            out.append(inner.as_str());
            out.append(")");
            out
        } else {
            inner
        }
    }

    pub fn equality(&self, l: Term, r: Term, subst: &Vec<(Variable, Term)>) -> (res: String)
        requires
            self.wf(),
        ensures
            res@ == self@.equality(l, r, subst@),
    {
        let mut out = "(= ".to_string();
        let left = self.term(substitute(l, subst));
        out.append(left.as_str());
        out.append(" ");
        let right = self.term(substitute(r, subst));
        out.append(right.as_str());
        out.append(")");
        out
    }

    /// Appends variables with their types.
    pub fn push_parameters(&self, out: &mut String, vs: &Vec<Variable>, types: &Vec<Type>)
        requires
            self.wf(),
        ensures
            final(out)@ == self@.parameters(old(out)@, vs@, types@, vs@.len()),
    {
        let ghost head = out@;
        let mut i: usize = 0;
        while i < vs.len()
            invariant
                self.wf(),
                head == old(out)@,
                i <= vs@.len(),
                out@ == self@.parameters(head, vs@, types@, i as nat),
            decreases vs@.len() - i,
        {
            if i > 0 {
                out.append(" ");
            }
            let v = variable_text(vs[i]);
            out.append(v.as_str());
            out.append(" - ");
            self.push_type(out, find_type(types, vs[i]));
            i = i + 1;
        }
    }

    /// A formula.
    pub fn formula(&self, f: &Formula, types: &Vec<Type>) -> (res: String)
        requires
            self.wf(),
        ensures
            res@ == self@.formula(f@, types@),
        decreases f, 0nat,
    {
        let none: Vec<(Variable, Term)> = Vec::new();
        assert(none@ =~= seq![]);
        match f {
            Formula::True => "(and)".to_string(),
            Formula::False => "(or)".to_string(),
            Formula::Atom(a) => self.atom(a, &none),
            Formula::Negation(a) => {
                let mut out = "(not ".to_string();
                let inner = self.atom(a, &none);
                out.append(inner.as_str());
                out.append(")");
                out
            },
            Formula::Equality { left, right, .. } => self.equality(*left, *right, &none),
            Formula::Inequality { left, right, .. } => {
                let mut out = "(not ".to_string();
                let inner = self.equality(*left, *right, &none);
                out.append(inner.as_str());
                out.append(")");
                out
            },
            Formula::Conjunction(cs) => {
                let mut out = "(and".to_string();
                self.push_formulas(&mut out, cs, types);
                out.append(")");
                out
            },
            Formula::Disjunction(ds) => {
                let mut out = "(or".to_string();
                self.push_formulas(&mut out, ds, types);
                out.append(")");
                out
            },
            Formula::Exists { params, body } => {
                let mut out = "(exists (".to_string();
                self.push_parameters(&mut out, params, types);
                out.append(") ");
                let inner = self.formula(body, types);
                out.append(inner.as_str());
                out.append(")");
                out
            },
            Formula::Forall { params, body } => {
                let mut out = "(forall (".to_string();
                self.push_parameters(&mut out, params, types);
                out.append(") ");
                let inner = self.formula(body, types);
                out.append(inner.as_str());
                out.append(")");
                out
            },
        }
    }

    fn push_formulas(&self, out: &mut String, fs: &Vec<Rc<Formula>>, types: &Vec<Type>)
        requires
            self.wf(),
        ensures
            final(out)@ == self@.formulas(old(out)@, forms(fs@), types@, fs@.len()),
        decreases fs, 0nat,
    {
        let ghost head = out@;
        let ghost all = forms(fs@);
        let mut i: usize = 0;
        while i < fs.len()
            invariant
                self.wf(),
                head == old(out)@,
                all == forms(fs@),
                all.len() == fs@.len(),
                i <= fs@.len(),
                out@ == self@.formulas(head, all, types@, i as nat),
            decreases fs@.len() - i,
        {
            out.append(" ");
            assert(all[i as int] == fs@[i as int]@);
            let inner = self.formula(&fs[i], types);
            out.append(inner.as_str());
            i = i + 1;
        }
    }
}

pub(crate) fn variable_text(v: Variable) -> (res: String)
    ensures
        res@ == variable_name(v),
{
    let mut out = "?v".to_string();
    push_number(&mut out, v.0 as u128);
    out
}

/// A term under a substitution.
pub(crate) fn substitute(t: Term, subst: &Vec<(Variable, Term)>) -> (res: Term)
    ensures
        res == put_term(t, subst@),
{
    match t {
        Term::Object(_) => t,
        Term::Variable(v) => {
            let mut i: usize = 0;
            assert(subst@.skip(0) =~= subst@);
            while i < subst.len()
                invariant
                    i <= subst@.len(),
                    t == Term::Variable(v),
                    crate::formula::lookup(subst@, v) == crate::formula::lookup(subst@.skip(i as int), v),
                decreases subst@.len() - i,
            {
                assert(subst@.skip(i as int).drop_first() =~= subst@.skip(i + 1));
                if subst[i].0 == v {
                    return subst[i].1;
                }
                i = i + 1;
            }
            t
        },
    }
}

} // verus!
