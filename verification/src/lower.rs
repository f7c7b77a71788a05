//! Lowering from PDDL syntax to the owned data model in this crate.
//!
//! * Requirements are collected, ADL is expanded, and deferred (temporal /
//!   numeric) requirements are rejected up front.
//! * Types are declared, then supertypes wired with transitive closure.
//! * Atoms over an undeclared predicate auto-declare that predicate.
//! * `=` becomes [`Formula::Equality`]; `(not (= ..))` becomes
//!   [`Formula::Inequality`]; `imply a b` becomes `or (not a) b`.
//! * Each action schema gets a fresh variable scope mapping PDDL variable names
//!   to freshly allocated [`Variable`]s.
use std::rc::Rc;

use vstd::prelude::*;

use crate::action::ActionSchema;
use crate::ast::{
    AstAction, AstAmount, AstAtomic, AstDomain, AstEffect, AstGoal, AstInit, AstMetric, AstPrecondition, AstPrimitive, AstProblem, AstRequirement,
    AstSkeleton, AstStructure, AstTerm, AstType, AstTyped,
};
use crate::domain::Domain;
use crate::effect::{effect_views, strengthen_effects, Effect, EffectTime};
use crate::formula::{same_atom, Atom, Formula, FormulaView, Literal, LiteralView};
use crate::functions::{Function, FunctionTable};
use crate::lower_error::{Fault, LowerError};
use crate::lower_model::{
    action_in, actions_in, all_strengthened, are_types, are_wired_types, arguments_in, atomic_in, effect_in, effects_in, first_state, follows,
    are_wirings, fresh_scope, functions_in, goal_in, goals_in, init_element, init_in, is_wired_type, literal_effect, literal_form, members_of,
    names_of, objects_in, parameter_types, precondition_in, preconditions_in, predicates_in, primitive_in, primitives_in, requirements_of,
    sorted_with, term_in, terms_in, type_in, types_named, variable_named, variables_in, with_predicate, with_requirement, with_type, with_variable,
    AtomicView, DomainView, FunctionsView, InitView, are_bound, atom_forms, cost_in, cost_upto, is_bound, last_value, lowered_problem, problem_view,
    scope_of, state_of, domain_view, functions_view, is_lowered_domain, schema_view, schema_views, LowerScope, LowerView, SchemaView,
};
use crate::names::position_of;
use crate::predicates::{Predicate, PredicateTable};
use crate::problem::{Metric, Problem};
use crate::requirements::{deferred, Requirements};
use crate::search::{all_in_scope, copy_effects, in_scope};
use crate::terms::{Object, ObjectView, Term, TermTable, Variable};
use crate::text::{copy_vec, same_text};
use crate::types::{known_types, Type, Types, OBJECT};

verus! {

fn too_many() -> (res: LowerError)
    ensures
        res@ == Fault::TooManyNames,
{
    LowerError::TooManyNames
}

fn unsupported(what: &str) -> (res: LowerError)
    ensures
        res@ == Fault::UnsupportedFluent(what@),
{
    LowerError::UnsupportedFluent(what.to_string())
}

/// The tables being extended and, for the action or goal at hand, the variables,
/// the names in scope and the effects.
struct Lowering {
    types: Types,
    predicates: PredicateTable,
    /// Holds the variables.
    terms: TermTable,
    scope: Vec<(String, Variable)>,
    effects: Vec<Effect>,
    cost: usize,
    cost_functions: Vec<Function>,
}

/// What lowering reads.
struct LowerContext<'a> {
    constants: &'a TermTable,
    objects: Option<&'a TermTable>,
    functions: &'a FunctionTable,
    action_costs: bool,
}

/// The names in a scope with their variables.
spec fn scope_view(scope: Seq<(String, Variable)>) -> Seq<(Seq<char>, Variable)> {
    Seq::new(scope.len(), |i: int| (scope[i].0@, scope[i].1))
}

impl<'a> LowerContext<'a> {
    spec fn view(&self) -> LowerScope {
        LowerScope {
            constants: self.constants.objects(),
            objects: match self.objects {
                Some(o) => o.objects(),
                None => seq![],
            },
            function_names: self.functions.names(),
            function_signatures: self.functions.signatures(),
            action_costs: self.action_costs,
        }
    }

    spec fn wf(&self) -> bool {
        &&& self.constants.wf()
        &&& self.constants.first() == 0
        &&& self.functions.wf()
        &&& self.objects matches Some(o) ==> o.wf() && o.first() == self.constants.end()
    }

    /// The object of a name.
    fn object(&self, name: &str) -> (res: Option<Object>)
        requires
            self.wf(),
        ensures
            res == self@.object(name@),
    {
        proof {
            self.constants.lemma_wf();
            assert(names_of(self.constants.objects()) =~= self.constants.object_names());
        }
        match self.objects {
            Some(o) => {
                proof {
                    o.lemma_wf();
                    assert(names_of(o.objects()) =~= o.object_names());
                }
                o.find_object(Some(self.constants), name)
            },
            None => {
                assert(position_of(names_of(self@.objects), name@) is None);
                self.constants.find_object(None, name)
            },
        }
    }

    /// The function of a name that has no arguments.
    fn cost_function(&self, name: &str) -> (res: Option<Function>)
        requires
            self.wf(),
        ensures
            res == self@.cost_function(name@),
    {
        match self.functions.find_function(name) {
            Some(f) => {
                proof {
                    self.functions.lemma_wf();
                }
                if self.functions.parameters(f).len() == 0 {
                    Some(f)
                } else {
                    None
                }
            },
            None => None,
        }
    }
}

/// Whether the variables are among the first `n`.
spec fn all_declared(vs: Seq<Variable>, n: nat) -> bool {
    forall|i: int| 0 <= i < vs.len() ==> (#[trigger] vs[i]).0 < n
}

/// A type put in its place in an ascending list.
fn insert_sorted(ts: &mut Vec<Type>, t: Type)
    ensures
        final(ts)@ == sorted_with(old(ts)@, t),
{
    let ghost all = ts@;
    let mut i: usize = ts.len();
    assert(all.take(i as int) =~= all);
    assert(sorted_with(all, t) + all.skip(i as int) =~= sorted_with(all, t));
    while i > 0 && ts[i - 1].0 > t.0
        invariant
            ts@ == all,
            i <= all.len(),
            sorted_with(all, t) == sorted_with(all.take(i as int), t) + all.skip(i as int),
        decreases i,
    {
        proof {
            let front = all.take(i as int);
            assert(front.last() == all[i - 1]);
            assert(front.drop_last() =~= all.take(i - 1));
            assert(sorted_with(all.take(i - 1), t).push(all[i - 1]) + all.skip(i as int) =~= sorted_with(all.take(i - 1), t) + all.skip(i - 1));
        }
        i = i - 1;
    }
    let ghost front = all.take(i as int);
    proof {
        if i > 0 {
            assert(front.last() == all[i - 1]);
        }
    }
    if i > 0 && ts[i - 1] == t {
        assert(front + all.skip(i as int) =~= all);
        return;
    }
    ts.insert(i, t);
    assert(ts@ =~= front.push(t) + all.skip(i as int));
    assert(i == 0 ==> seq![t] =~= front.push(t));
}

/// A list ascending with a type in its place has known types only.
proof fn lemma_sorted_known(ts: Seq<Type>, t: Type, n: nat)
    requires
        known_types(ts, n),
        t.0 < n,
    ensures
        known_types(sorted_with(ts, t), n),
    decreases ts.len(),
{
    if ts.len() > 0 && ts.last() != t && !(ts.last().0 < t.0) {
        lemma_sorted_known(ts.drop_last(), t, n);
    }
}

impl Lowering {
    spec fn view(&self) -> LowerView {
        LowerView {
            types: self.types@,
            names: self.predicates.names(),
            signatures: self.predicates.signatures(),
            dynamic: self.predicates.dynamics(),
            vars: self.terms.variables(),
            scope: scope_view(self.scope@),
            effects: effect_views(self.effects@),
            cost: self.cost,
            cost_functions: self.cost_functions@,
        }
    }

    spec fn wf(&self) -> bool {
        self.types.wf() && self.predicates.wf() && self.terms.wf()
    }

    /// A simple type, declared if need be.
    fn named_type(&mut self, name: &str) -> (res: Result<Type, LowerError>)
        requires
            old(self).wf(),
        ensures
            final(self).wf(),
            old(self)@.vars.len() <= final(self)@.vars.len(),
            match (with_type(old(self)@, name@), res) {
                (Ok((t, s)), Ok(r)) => r == t && final(self)@ == s && t.0 < s.types.len() && old(self)@.types.len() <= s.types.len(),
                (Err(f), Err(e)) => e@ == f,
                _ => false,
            },
    {
        if self.types.len() >= u32::MAX as usize {
            return Err(too_many());
        }
        let t = self.types.add_type(name);
        Ok(t)
    }

    /// Resolves a type expression, declaring simple types as needed and building
    /// union types for `(either ...)`.
    fn lower_type(&mut self, ty: &AstType) -> (res: Result<Type, LowerError>)
        requires
            old(self).wf(),
        ensures
            final(self).wf(),
            old(self)@.vars.len() <= final(self)@.vars.len(),
            match (type_in(old(self)@, *ty), res) {
                (Ok((t, s)), Ok(r)) => r == t && final(self)@ == s && t.0 < s.types.len() && old(self)@.types.len() <= s.types.len(),
                (Err(f), Err(e)) => e@ == f,
                _ => false,
            },
    {
        match ty {
            AstType::Exactly(name) => self.named_type(name.as_str()),
            AstType::Either(names) => {
                let ghost start = self@;
                let mut members: Vec<Type> = Vec::new();
                let mut i: usize = 0;
                assert(members@ =~= seq![]);
                while i < names.len()
                    invariant
                        start == old(self)@,
                        start.vars.len() <= self@.vars.len(),
                        self.wf(),
                        start.types.len() <= self@.types.len(),
                        i <= names@.len(),
                        *ty == AstType::Either(*names),
                        known_types(members@, self@.types.len()),
                        members_of(start, names@, i as nat) == Ok::<(Seq<Type>, LowerView), Fault>((members@, self@)),
                    decreases names@.len() - i,
                {
                    match self.named_type(names[i].as_str()) {
                        Err(e) => {
                            proof {
                                lemma_members_fail(start, names@, (i + 1) as nat, names@.len());
                            }
                            return Err(e);
                        },
                        Ok(t) => {
                            proof {
                                lemma_sorted_known(members@, t, self@.types.len());
                            }
                            insert_sorted(&mut members, t);
                        },
                    }
                    i = i + 1;
                }
                if members.len() == 0 {
                    proof {
                        self.types.lemma_wf();
                    }
                    return Ok(Type(OBJECT));
                }
                if self.types.len() >= u32::MAX as usize {
                    return Err(too_many());
                }
                Ok(self.types.union_type(&members))
            },
        }
    }

    /// Declares the domain's type hierarchy. Two passes: first declare every
    /// simple type name, then wire supertypes.
    fn lower_types(&mut self, decls: &Vec<AstTyped>) -> (res: Result<(), LowerError>)
        requires
            old(self).wf(),
        ensures
            final(self).wf(),
            old(self)@.vars.len() <= final(self)@.vars.len(),
            match res {
                Ok(_) => are_types(old(self)@, decls@, Ok(final(self)@)),
                Err(e) => are_types(old(self)@, decls@, Err(e@)),
            },
    {
        let ghost start = self@;
        let mut i: usize = 0;
        while i < decls.len()
            invariant
                start == old(self)@,
                start.vars.len() <= self@.vars.len(),
                self.wf(),
                i <= decls@.len(),
                types_named(start, decls@, i as nat) == Ok::<LowerView, Fault>(self@),
            decreases decls@.len() - i,
        {
            match self.named_type(decls[i].name.as_str()) {
                Err(e) => {
                    proof {
                        lemma_types_fail(start, decls@, (i + 1) as nat, decls@.len());
                    }
                    return Err(e);
                },
                Ok(_) => {},
            }
            i = i + 1;
        }
        let ghost named = self@;
        let mut j: usize = 0;
        assert(are_wirings(named, decls@, 0, seq![Ok(named)]));
        while j < decls.len()
            invariant
                start == old(self)@,
                start.vars.len() <= self@.vars.len(),
                self.wf(),
                types_named(start, decls@, decls@.len()) == Ok::<LowerView, Fault>(named),
                j <= decls@.len(),
                are_wired_types(named, decls@, j as nat, Ok(self@)),
            decreases decls@.len() - j,
        {
            let ghost before = self@;
            let wired = self.wire_type(&decls[j]);
            proof {
                let after: Result<LowerView, Fault> = if wired is Ok {
                    Ok(self@)
                } else {
                    Err(wired->Err_0@)
                };
                assert(are_wired_types(named, decls@, j as nat, Ok(before)));
                assert(is_wired_type(before, decls@[j as int], after));
                lemma_wired_more(named, decls@, j as nat, Ok(before), after);
            }
            match wired {
                Err(e) => {
                    proof {
                        lemma_wired_fail(named, decls@, (j + 1) as nat, decls@.len(), e@);
                    }
                    return Err(e);
                },
                Ok(_) => {},
            }
            j = j + 1;
        }
        Ok(())
    }

    /// Wires one declared type to its supertype.
    fn wire_type(&mut self, decl: &AstTyped) -> (res: Result<(), LowerError>)
        requires
            old(self).wf(),
        ensures
            final(self).wf(),
            old(self)@.vars.len() <= final(self)@.vars.len(),
            is_wired_type(
                old(self)@,
                *decl,
                match res {
                    Ok(_) => Ok(final(self)@),
                    Err(e) => Err(e@),
                },
            ),
    {
        let sub = match self.named_type(decl.name.as_str()) {
            Err(e) => {
                return Err(e);
            },
            Ok(t) => t,
        };
        let sup = match self.lower_type(&decl.ty) {
            Err(e) => {
                return Err(e);
            },
            Ok(t) => t,
        };
        self.types.add_supertype(sub, sup);
        Ok(())
    }

    /// Declares a variable in the innermost scope.
    fn declare(&mut self, name: &str, ty: Type) -> (res: Result<Variable, LowerError>)
        requires
            old(self).wf(),
        ensures
            final(self).wf(),
            old(self)@.vars.len() <= final(self)@.vars.len(),
            match (with_variable(old(self)@, name@, ty), res) {
                (Ok((v, s)), Ok(r)) => r == v && final(self)@ == s,
                (Err(f), Err(e)) => e@ == f,
                _ => false,
            },
    {
        let n = self.terms.num_variables();
        if n >= u32::MAX as usize {
            return Err(too_many());
        }
        let ghost before = scope_view(self.scope@);
        let v = self.terms.add_variable(ty);
        self.scope.push((name.to_string(), v));
        assert(scope_view(self.scope@) =~= before.push((name@, v)));
        Ok(v)
    }

    /// Declares a typed-variable list into the current scope, returning the
    /// allocated variables in order.
    fn declare_typed_variables(&mut self, decls: &Vec<AstTyped>) -> (res: Result<Vec<Variable>, LowerError>)
        requires
            old(self).wf(),
        ensures
            final(self).wf(),
            old(self)@.vars.len() <= final(self)@.vars.len(),
            res matches Ok(r) ==> all_declared(r@, final(self)@.vars.len()),
            match (variables_in(old(self)@, decls@, decls@.len()), res) {
                (Ok((vs, s)), Ok(r)) => r@ == vs && final(self)@ == s,
                (Err(f), Err(e)) => e@ == f,
                _ => false,
            },
    {
        let ghost start = self@;
        let mut params: Vec<Variable> = Vec::new();
        let mut i: usize = 0;
        assert(params@ =~= seq![]);
        while i < decls.len()
            invariant
                start == old(self)@,
                start.vars.len() <= self@.vars.len(),
                self.wf(),
                i <= decls@.len(),
                all_declared(params@, self@.vars.len()),
                variables_in(start, decls@, i as nat) == Ok::<(Seq<Variable>, LowerView), Fault>((params@, self@)),
            decreases decls@.len() - i,
        {
            proof {
                if variables_in(start, decls@, (i + 1) as nat) is Err {
                    lemma_variables_fail(start, decls@, (i + 1) as nat, decls@.len());
                }
            }
            let ty = match self.lower_type(&decls[i].ty) {
                Err(e) => {
                    return Err(e);
                },
                Ok(t) => t,
            };
            match self.declare(decls[i].name.as_str(), ty) {
                Err(e) => {
                    return Err(e);
                },
                Ok(v) => params.push(v),
            }
            i = i + 1;
        }
        Ok(params)
    }

    /// Leaves the scopes opened since there were `depth` names in scope.
    fn leave(&mut self, depth: usize, outer: Ghost<Seq<(Seq<char>, Variable)>>)
        requires
            old(self).wf(),
            depth <= old(self).scope@.len(),
            outer@ == old(self)@.scope.take(depth as int),
        ensures
            final(self).wf(),
            old(self)@.vars.len() <= final(self)@.vars.len(),
            final(self)@ == (LowerView { scope: outer@, ..old(self)@ }),
    {
        self.scope.truncate(depth);
        assert(scope_view(self.scope@) =~= outer@);
    }

    /// Resolves a variable name, searching innermost-to-outermost.
    fn lookup(&self, name: &str) -> (res: Option<Variable>)
        ensures
            res == variable_named(self@.scope, name@),
    {
        let ghost all = self@.scope;
        let mut i: usize = self.scope.len();
        assert(all.take(i as int) =~= all);
        while i > 0
            invariant
                all == scope_view(self.scope@),
                i <= all.len(),
                variable_named(all, name@) == variable_named(all.take(i as int), name@),
            decreases i,
        {
            proof {
                assert(all.take(i as int).drop_last() =~= all.take(i - 1));
                assert(all.take(i as int).last() == all[i - 1]);
            }
            if same_text(self.scope[i - 1].0.as_str(), name) {
                return Some(self.scope[i - 1].1);
            }
            i = i - 1;
        }
        None
    }

    /// Lowers a term, resolving variables against the scope and objects/constants
    /// against the term tables.
    fn lower_term(&self, cx: &LowerContext, t: &AstTerm) -> (res: Result<Term, LowerError>)
        requires
            cx.wf(),
        ensures
            match (term_in(cx@, self@, *t), res) {
                (Ok(x), Ok(r)) => r == x,
                (Err(f), Err(e)) => e@ == f,
                _ => false,
            },
    {
        match t {
            AstTerm::Variable(name) => match self.lookup(name.as_str()) {
                Some(v) => Ok(Term::Variable(v)),
                None => Err(LowerError::UnboundVariable(name.clone())),
            },
            AstTerm::Name(name) => match cx.object(name.as_str()) {
                Some(o) => Ok(Term::Object(o)),
                None => Err(LowerError::UnknownObject(name.clone())),
            },
            AstTerm::Function => Err(LowerError::FunctionTerm),
        }
    }

    fn lower_terms(&self, cx: &LowerContext, ts: &Vec<AstTerm>) -> (res: Result<Vec<Term>, LowerError>)
        requires
            cx.wf(),
        ensures
            match (terms_in(cx@, self@, ts@, ts@.len()), res) {
                (Ok(x), Ok(r)) => r@ == x,
                (Err(f), Err(e)) => e@ == f,
                _ => false,
            },
    {
        let mut terms: Vec<Term> = Vec::new();
        let mut i: usize = 0;
        assert(terms@ =~= seq![]);
        while i < ts.len()
            invariant
                cx.wf(),
                i <= ts@.len(),
                terms_in(cx@, self@, ts@, i as nat) == Ok::<Seq<Term>, Fault>(terms@),
            decreases ts@.len() - i,
        {
            match self.lower_term(cx, &ts[i]) {
                Err(e) => {
                    proof {
                        lemma_terms_fail(cx@, self@, ts@, (i + 1) as nat, ts@.len());
                    }
                    return Err(e);
                },
                Ok(t) => terms.push(t),
            }
            i = i + 1;
        }
        Ok(terms)
    }

    /// The predicate of a name, declared if need be.
    fn predicate_for(&mut self, name: &str) -> (res: Result<Predicate, LowerError>)
        requires
            old(self).wf(),
        ensures
            final(self).wf(),
            old(self)@.vars.len() <= final(self)@.vars.len(),
            match (with_predicate(old(self)@, name@), res) {
                (Ok((p, s)), Ok(r)) => r == p && final(self)@ == s && p.0 < s.names.len(),
                (Err(f), Err(e)) => e@ == f,
                _ => false,
            },
    {
        if self.predicates.len() >= u32::MAX as usize {
            return Err(too_many());
        }
        Ok(self.predicates.add_predicate(name))
    }

    /// Lowers an atomic formula into an atom or an equality.
    fn lower_atomic(&mut self, cx: &LowerContext, f: &AstAtomic) -> (res: Result<LoweredAtomic, LowerError>)
        requires
            old(self).wf(),
            cx.wf(),
        ensures
            final(self).wf(),
            old(self)@.vars.len() <= final(self)@.vars.len(),
            match (atomic_in(cx@, old(self)@, *f), res) {
                (Ok((a, s)), Ok(r)) => r@ == a && final(self)@ == s,
                (Err(f), Err(e)) => e@ == f,
                _ => false,
            },
    {
        match f {
            AstAtomic::Equality(l, r) => {
                let left = match self.lower_term(cx, l) {
                    Err(e) => {
                        return Err(e);
                    },
                    Ok(t) => t,
                };
                match self.lower_term(cx, r) {
                    Err(e) => Err(e),
                    Ok(right) => Ok(LoweredAtomic::Equality(left, right)),
                }
            },
            AstAtomic::Predicate(name, args) => {
                let predicate = match self.predicate_for(name.as_str()) {
                    Err(e) => {
                        return Err(e);
                    },
                    Ok(p) => p,
                };
                match self.lower_terms(cx, args) {
                    Err(e) => Err(e),
                    Ok(terms) => Ok(LoweredAtomic::Atom(Atom { predicate, terms })),
                }
            },
        }
    }

    /// Lowers an atomic formula or its negation.
    fn lower_literal(&mut self, cx: &LowerContext, f: &AstAtomic, negative: bool) -> (res: Result<Rc<Formula>, LowerError>)
        requires
            old(self).wf(),
            cx.wf(),
        ensures
            final(self).wf(),
            old(self)@.vars.len() <= final(self)@.vars.len(),
            match (atomic_in(cx@, old(self)@, *f), res) {
                (Ok((a, s)), Ok(r)) => r@ == literal_form(a, negative) && final(self)@ == s,
                (Err(f), Err(e)) => e@ == f,
                _ => false,
            },
    {
        match self.lower_atomic(cx, f) {
            Err(e) => Err(e),
            Ok(LoweredAtomic::Atom(a)) => if negative {
                Ok(Rc::new(Formula::Negation(a)))
            } else {
                Ok(Rc::new(Formula::Atom(a)))
            },
            Ok(LoweredAtomic::Equality(l, r)) => if negative {
                Ok(Formula::inequality(l, r))
            } else {
                Ok(Formula::equality(l, r))
            },
        }
    }

    /// Lowers a list of goal descriptions, conjoined or disjoined.
    fn lower_goals(&mut self, cx: &LowerContext, gs: &Vec<AstGoal>, conjoined: bool) -> (res: Result<Rc<Formula>, LowerError>)
        requires
            old(self).wf(),
            cx.wf(),
        ensures
            final(self).wf(),
            old(self)@.vars.len() <= final(self)@.vars.len(),
            match (goals_in(cx@, old(self)@, gs@, conjoined, gs@.len()), res) {
                (Ok((f, s)), Ok(r)) => r@ == f && final(self)@ == s && s.scope == old(self)@.scope,
                (Err(f), Err(e)) => e@ == f,
                _ => false,
            },
        decreases gs, 0nat,
    {
        let ghost start = self@;
        let mut acc: Rc<Formula> = if conjoined {
            Rc::new(Formula::True)
        } else {
            Rc::new(Formula::False)
        };
        let mut i: usize = 0;
        while i < gs.len()
            invariant
                start == old(self)@,
                start.vars.len() <= self@.vars.len(),
                self.wf(),
                cx.wf(),
                self@.scope == start.scope,
                i <= gs@.len(),
                goals_in(cx@, start, gs@, conjoined, i as nat) == Ok::<(FormulaView, LowerView), Fault>((acc@, self@)),
            decreases gs@.len() - i,
        {
            match self.lower_goal(cx, &gs[i]) {
                Err(e) => {
                    proof {
                        lemma_goals_fail(cx@, start, gs@, conjoined, (i + 1) as nat, gs@.len());
                    }
                    return Err(e);
                },
                Ok(f) => {
                    acc = if conjoined {
                        Formula::and(acc, f)
                    } else {
                        Formula::or(acc, f)
                    };
                },
            }
            i = i + 1;
        }
        Ok(acc)
    }

    /// Lowers a goal description.
    fn lower_goal(&mut self, cx: &LowerContext, g: &AstGoal) -> (res: Result<Rc<Formula>, LowerError>)
        requires
            old(self).wf(),
            cx.wf(),
        ensures
            final(self).wf(),
            old(self)@.vars.len() <= final(self)@.vars.len(),
            match (goal_in(cx@, old(self)@, *g), res) {
                (Ok((f, s)), Ok(r)) => r@ == f && final(self)@ == s && s.scope == old(self)@.scope,
                (Err(f), Err(e)) => e@ == f,
                _ => false,
            },
        decreases g, 0nat,
    {
        match g {
            AstGoal::Atomic(a) => self.lower_literal(cx, a, false),
            AstGoal::NotAtomic(a) => self.lower_literal(cx, a, true),
            AstGoal::And(gs) => self.lower_goals(cx, gs, true),
            AstGoal::Or(gs) => self.lower_goals(cx, gs, false),
            AstGoal::Not(inner) => match self.lower_goal(cx, inner) {
                Err(e) => Err(e),
                Ok(f) => Ok(f.negation()),
            },
            AstGoal::Imply(a, b) => {
                let fa = match self.lower_goal(cx, a) {
                    Err(e) => {
                        return Err(e);
                    },
                    Ok(f) => f,
                };
                match self.lower_goal(cx, b) {
                    Err(e) => Err(e),
                    Ok(fb) => Ok(Formula::or(fa.negation(), fb)),
                }
            },
            AstGoal::Exists(vars, body) => match self.lower_quantified(cx, vars, body) {
                Err(e) => Err(e),
                Ok((params, f)) => Ok(Rc::new(Formula::Exists { params, body: f })),
            },
            AstGoal::ForAll(vars, body) => match self.lower_quantified(cx, vars, body) {
                Err(e) => Err(e),
                Ok((params, f)) => Ok(Rc::new(Formula::Forall { params, body: f })),
            },
            AstGoal::FluentComparison => Err(unsupported("fluent comparison")),
        }
    }

    /// Lowers a goal description under quantified variables.
    fn lower_quantified(&mut self, cx: &LowerContext, vars: &Vec<AstTyped>, body: &AstGoal) -> (res: Result<(Vec<Variable>, Rc<Formula>), LowerError>)
        requires
            old(self).wf(),
            cx.wf(),
        ensures
            final(self).wf(),
            old(self)@.vars.len() <= final(self)@.vars.len(),
            match variables_in(old(self)@, vars@, vars@.len()) {
                Err(f) => res matches Err(e) && e@ == f,
                Ok((params, s1)) => match goal_in(cx@, s1, *body) {
                    Err(f) => res matches Err(e) && e@ == f,
                    Ok((f, s2)) => res matches Ok((p, r)) && p@ == params && r@ == f && final(self)@ == (LowerView { scope: old(self)@.scope, ..s2 }),
                },
            },
        decreases body, 1nat,
    {
        let ghost outer = self@.scope;
        let depth = self.scope.len();
        proof {
            lemma_variables_scope(self@, vars@, vars@.len());
        }
        let params = match self.declare_typed_variables(vars) {
            Err(e) => {
                return Err(e);
            },
            Ok(p) => p,
        };
        match self.lower_goal(cx, body) {
            Err(e) => Err(e),
            Ok(f) => {
                self.leave(depth, Ghost(outer));
                Ok((params, f))
            },
        }
    }

    /// Lowers a part of a precondition.
    fn lower_precondition(&mut self, cx: &LowerContext, p: &AstPrecondition) -> (res: Result<Rc<Formula>, LowerError>)
        requires
            old(self).wf(),
            cx.wf(),
        ensures
            final(self).wf(),
            old(self)@.vars.len() <= final(self)@.vars.len(),
            match (precondition_in(cx@, old(self)@, *p), res) {
                (Ok((f, s)), Ok(r)) => r@ == f && final(self)@ == s && s.scope == old(self)@.scope,
                (Err(f), Err(e)) => e@ == f,
                _ => false,
            },
        decreases p,
    {
        match p {
            AstPrecondition::Goal(g) => self.lower_goal(cx, g),
            AstPrecondition::Preference => Err(LowerError::Preference),
            AstPrecondition::ForAll(vars, body) => {
                let ghost outer = self@.scope;
                let depth = self.scope.len();
                proof {
                    lemma_variables_scope(self@, vars@, vars@.len());
                }
                let params = match self.declare_typed_variables(vars) {
                    Err(e) => {
                        return Err(e);
                    },
                    Ok(p) => p,
                };
                match self.lower_preconditions(cx, body) {
                    Err(e) => Err(e),
                    Ok(f) => {
                        self.leave(depth, Ghost(outer));
                        Ok(Rc::new(Formula::Forall { params, body: f }))
                    },
                }
            },
        }
    }

    /// Lowers the parts of a precondition, conjoining them.
    fn lower_preconditions(&mut self, cx: &LowerContext, ps: &Vec<AstPrecondition>) -> (res: Result<Rc<Formula>, LowerError>)
        requires
            old(self).wf(),
            cx.wf(),
        ensures
            final(self).wf(),
            old(self)@.vars.len() <= final(self)@.vars.len(),
            match (preconditions_in(cx@, old(self)@, ps@, ps@.len()), res) {
                (Ok((f, s)), Ok(r)) => r@ == f && final(self)@ == s && s.scope == old(self)@.scope,
                (Err(f), Err(e)) => e@ == f,
                _ => false,
            },
        decreases ps,
    {
        let ghost start = self@;
        let mut acc: Rc<Formula> = Rc::new(Formula::True);
        let mut i: usize = 0;
        while i < ps.len()
            invariant
                start == old(self)@,
                start.vars.len() <= self@.vars.len(),
                self.wf(),
                cx.wf(),
                self@.scope == start.scope,
                i <= ps@.len(),
                preconditions_in(cx@, start, ps@, i as nat) == Ok::<(FormulaView, LowerView), Fault>((acc@, self@)),
            decreases ps@.len() - i,
        {
            match self.lower_precondition(cx, &ps[i]) {
                Err(e) => {
                    proof {
                        lemma_preconditions_fail(cx@, start, ps@, (i + 1) as nat, ps@.len());
                    }
                    return Err(e);
                },
                Ok(f) => {
                    acc = Formula::and(acc, f);
                },
            }
            i = i + 1;
        }
        Ok(acc)
    }

    /// Adds an add or delete effect and marks its predicate dynamic.
    fn lower_literal_effect(&mut self, cx: &LowerContext, a: &AstAtomic, negative: bool, params: &Vec<Variable>, cond: &Rc<Formula>) -> (res: Result<
        (),
        LowerError,
    >)
        requires
            old(self).wf(),
            cx.wf(),
        ensures
            final(self).wf(),
            old(self)@.vars.len() <= final(self)@.vars.len(),
            match (literal_effect(cx@, old(self)@, *a, negative, params@, cond@), res) {
                (Ok(s), Ok(_)) => final(self)@ == s && s.scope == old(self)@.scope,
                (Err(f), Err(e)) => e@ == f,
                _ => false,
            },
    {
        match self.lower_atomic(cx, a) {
            Err(e) => Err(e),
            Ok(LoweredAtomic::Equality(_, _)) => Err(LowerError::BadEqualityTerm),
            Ok(LoweredAtomic::Atom(atom)) => {
                let ghost av = atom@;
                let ghost before = self@;
                self.predicates.make_dynamic(atom.predicate);
                let literal = if negative {
                    Literal::Negation(atom)
                } else {
                    Literal::Atom(atom)
                };
                let e = Effect {
                    parameters: copy_vec(params),
                    condition: cond.clone(),
                    literal,
                    when: EffectTime::AtEnd,
                    link_condition: Rc::new(Formula::True),
                };
                let ghost ev = e@;
                assert(ev.literal == (LiteralView { negative, atom: av }));
                self.effects.push(e);
                assert(effect_views(self.effects@) =~= before.effects.push(ev));
                Ok(())
            },
        }
    }

    /// Lowers a primitive effect.
    fn lower_primitive_effect(&mut self, cx: &LowerContext, p: &AstPrimitive, params: &Vec<Variable>, cond: &Rc<Formula>) -> (res: Result<
        (),
        LowerError,
    >)
        requires
            old(self).wf(),
            cx.wf(),
        ensures
            final(self).wf(),
            old(self)@.vars.len() <= final(self)@.vars.len(),
            match (primitive_in(cx@, old(self)@, *p, params@, cond@), res) {
                (Ok(s), Ok(_)) => final(self)@ == s && s.scope == old(self)@.scope,
                (Err(f), Err(e)) => e@ == f,
                _ => false,
            },
    {
        match p {
            AstPrimitive::Add(a) => self.lower_literal_effect(cx, a, false, params, cond),
            AstPrimitive::Delete(a) => self.lower_literal_effect(cx, a, true, params, cond),
            AstPrimitive::Increase(f, amount) => {
                if !cx.action_costs || params.len() > 0 || !cond.tautology() || !same_text(f.as_str(), "total-cost") {
                    return Err(unsupported("numeric assignment"));
                }
                match amount {
                    AstAmount::Number(n) => {
                        self.cost = self.cost.saturating_add(*n);
                        Ok(())
                    },
                    AstAmount::Function(name) => match cx.cost_function(name.as_str()) {
                        Some(f) => {
                            self.cost_functions.push(f);
                            Ok(())
                        },
                        None => Err(unsupported("numeric assignment")),
                    },
                }
            },
            AstPrimitive::AssignNumber => Err(unsupported("numeric assignment")),
            AstPrimitive::AssignObject => Err(unsupported("object assignment")),
        }
    }

    fn lower_primitives(&mut self, cx: &LowerContext, ps: &Vec<AstPrimitive>, params: &Vec<Variable>, cond: &Rc<Formula>) -> (res: Result<
        (),
        LowerError,
    >)
        requires
            old(self).wf(),
            cx.wf(),
        ensures
            final(self).wf(),
            old(self)@.vars.len() <= final(self)@.vars.len(),
            match (primitives_in(cx@, old(self)@, ps@, ps@.len(), params@, cond@), res) {
                (Ok(s), Ok(_)) => final(self)@ == s && s.scope == old(self)@.scope,
                (Err(f), Err(e)) => e@ == f,
                _ => false,
            },
    {
        let ghost start = self@;
        let mut i: usize = 0;
        while i < ps.len()
            invariant
                start == old(self)@,
                start.vars.len() <= self@.vars.len(),
                self.wf(),
                cx.wf(),
                self@.scope == start.scope,
                i <= ps@.len(),
                primitives_in(cx@, start, ps@, i as nat, params@, cond@) == Ok::<LowerView, Fault>(self@),
            decreases ps@.len() - i,
        {
            match self.lower_primitive_effect(cx, &ps[i], params, cond) {
                Err(e) => {
                    proof {
                        lemma_primitives_fail(cx@, start, ps@, (i + 1) as nat, ps@.len(), params@, cond@);
                    }
                    return Err(e);
                },
                Ok(_) => {},
            }
            i = i + 1;
        }
        Ok(())
    }

    /// Lowers an effect.
    fn lower_conditional_effect(&mut self, cx: &LowerContext, e: &AstEffect, params: &Vec<Variable>, cond: &Rc<Formula>) -> (res: Result<(), LowerError>)
        requires
            old(self).wf(),
            cx.wf(),
        ensures
            final(self).wf(),
            old(self)@.vars.len() <= final(self)@.vars.len(),
            match (effect_in(cx@, old(self)@, *e, params@, cond@), res) {
                (Ok(s), Ok(_)) => final(self)@ == s && s.scope == old(self)@.scope,
                (Err(f), Err(e)) => e@ == f,
                _ => false,
            },
        decreases e,
    {
        match e {
            AstEffect::Primitive(p) => self.lower_primitive_effect(cx, p, params, cond),
            AstEffect::ForAll(vars, inner) => {
                let ghost outer = self@.scope;
                let depth = self.scope.len();
                proof {
                    lemma_variables_scope(self@, vars@, vars@.len());
                }
                let vs = match self.declare_typed_variables(vars) {
                    Err(e) => {
                        return Err(e);
                    },
                    Ok(p) => p,
                };
                let mut all = copy_vec(params);
                let mut i: usize = 0;
                assert(params@ + vs@.take(0) =~= params@);
                while i < vs.len()
                    invariant
                        i <= vs@.len(),
                        all@ == params@ + vs@.take(i as int),
                    decreases vs@.len() - i,
                {
                    all.push(vs[i]);
                    assert(params@ + vs@.take(i + 1) =~= (params@ + vs@.take(i as int)).push(vs@[i as int]));
                    i = i + 1;
                }
                assert(vs@.take(i as int) =~= vs@);
                match self.lower_effects(cx, inner, &all, cond) {
                    Err(e) => Err(e),
                    Ok(_) => {
                        self.leave(depth, Ghost(outer));
                        Ok(())
                    },
                }
            },
            AstEffect::When(guard, ps) => {
                let g = match self.lower_goal(cx, guard) {
                    Err(e) => {
                        return Err(e);
                    },
                    Ok(f) => f,
                };
                let combined = Formula::and(cond.clone(), g);
                self.lower_primitives(cx, ps, params, &combined)
            },
        }
    }

    fn lower_effects(&mut self, cx: &LowerContext, es: &Vec<AstEffect>, params: &Vec<Variable>, cond: &Rc<Formula>) -> (res: Result<(), LowerError>)
        requires
            old(self).wf(),
            cx.wf(),
        ensures
            final(self).wf(),
            old(self)@.vars.len() <= final(self)@.vars.len(),
            match (effects_in(cx@, old(self)@, es@, es@.len(), params@, cond@), res) {
                (Ok(s), Ok(_)) => final(self)@ == s && s.scope == old(self)@.scope,
                (Err(f), Err(e)) => e@ == f,
                _ => false,
            },
        decreases es,
    {
        let ghost start = self@;
        let mut i: usize = 0;
        while i < es.len()
            invariant
                start == old(self)@,
                start.vars.len() <= self@.vars.len(),
                self.wf(),
                cx.wf(),
                self@.scope == start.scope,
                i <= es@.len(),
                effects_in(cx@, start, es@, i as nat, params@, cond@) == Ok::<LowerView, Fault>(self@),
            decreases es@.len() - i,
        {
            match self.lower_conditional_effect(cx, &es[i], params, cond) {
                Err(e) => {
                    proof {
                        lemma_effects_fail(cx@, start, es@, (i + 1) as nat, es@.len(), params@, cond@);
                    }
                    return Err(e);
                },
                Ok(_) => {},
            }
            i = i + 1;
        }
        Ok(())
    }
}

/// An atomic formula: an atom or an equality.
enum LoweredAtomic {
    Atom(Atom),
    Equality(Term, Term),
}

impl LoweredAtomic {
    spec fn view(&self) -> AtomicView {
        match self {
            LoweredAtomic::Atom(a) => AtomicView::Atom(a@),
            LoweredAtomic::Equality(l, r) => AtomicView::Equality(*l, *r),
        }
    }
}

/// Declaring variables puts them behind the names in scope.
proof fn lemma_variables_scope(s: LowerView, decls: Seq<AstTyped>, n: nat)
    ensures
        variables_in(s, decls, n) matches Ok((_, s1)) ==> s.scope.len() <= s1.scope.len() && s1.scope.take(s.scope.len() as int) == s.scope,
    decreases n,
{
    if n == 0 {
        assert(s.scope.take(s.scope.len() as int) =~= s.scope);
    } else {
        lemma_variables_scope(s, decls, (n - 1) as nat);
        match variables_in(s, decls, (n - 1) as nat) {
            Ok((_, s1)) => {
                lemma_type_scope(s1, decls[n - 1].ty);
                match variables_in(s, decls, n) {
                    Ok((_, s3)) => {
                        assert(s3.scope.take(s.scope.len() as int) =~= s1.scope.take(s.scope.len() as int));
                    },
                    Err(_) => {},
                }
            },
            Err(_) => {},
        }
    }
}

/// A type expression leaves the scope as it is.
proof fn lemma_type_scope(s: LowerView, ty: AstType)
    ensures
        type_in(s, ty) matches Ok((_, s1)) ==> s1.scope == s.scope,
{
    match ty {
        AstType::Exactly(_) => {},
        AstType::Either(names) => {
            lemma_members_scope(s, names@, names@.len());
        },
    }
}

proof fn lemma_members_scope(s: LowerView, names: Seq<String>, n: nat)
    ensures
        members_of(s, names, n) matches Ok((_, s1)) ==> s1.scope == s.scope,
    decreases n,
{
    if n > 0 {
        lemma_members_scope(s, names, (n - 1) as nat);
    }
}

proof fn lemma_members_fail(s: LowerView, names: Seq<String>, n: nat, m: nat)
    requires
        n <= m,
        members_of(s, names, n) is Err,
    ensures
        members_of(s, names, m) == members_of(s, names, n),
    decreases m,
{
    if n < m {
        lemma_members_fail(s, names, n, (m - 1) as nat);
    }
}

proof fn lemma_types_fail(s: LowerView, decls: Seq<AstTyped>, n: nat, m: nat)
    requires
        n <= m,
        types_named(s, decls, n) is Err,
    ensures
        types_named(s, decls, m) == types_named(s, decls, n),
    decreases m,
{
    if n < m {
        lemma_types_fail(s, decls, n, (m - 1) as nat);
    }
}

proof fn lemma_wired_fail(s: LowerView, decls: Seq<AstTyped>, n: nat, m: nat, f: Fault)
    requires
        n <= m,
        are_wired_types(s, decls, n, Err(f)),
    ensures
        are_wired_types(s, decls, m, Err(f)),
    decreases m,
{
    if n < m {
        lemma_wired_fail(s, decls, n, (m - 1) as nat, f);
        lemma_wired_more(s, decls, (m - 1) as nat, Err(f), Err(f));
    }
}

proof fn lemma_wired_more(s: LowerView, decls: Seq<AstTyped>, n: nat, mid: Result<LowerView, Fault>, after: Result<LowerView, Fault>)
    requires
        are_wired_types(s, decls, n, mid),
        follows(mid, decls[n as int], after),
    ensures
        are_wired_types(s, decls, n + 1, after),
{
    let states = choose|states: Seq<Result<LowerView, Fault>>| #[trigger] are_wirings(s, decls, n, states) && states.last() == mid;
    let more = states.push(after);
    assert forall|i: int| 0 <= i < n + 1 implies follows(#[trigger] more[i], decls[i], more[i + 1]) by {
        if i < n {
            assert(follows(states[i], decls[i], states[i + 1]));
        }
    }
    assert(are_wirings(s, decls, n + 1, more));
}

proof fn lemma_variables_fail(s: LowerView, decls: Seq<AstTyped>, n: nat, m: nat)
    requires
        n <= m,
        variables_in(s, decls, n) is Err,
    ensures
        variables_in(s, decls, m) == variables_in(s, decls, n),
    decreases m,
{
    if n < m {
        lemma_variables_fail(s, decls, n, (m - 1) as nat);
    }
}

proof fn lemma_terms_fail(cx: LowerScope, s: LowerView, ts: Seq<AstTerm>, n: nat, m: nat)
    requires
        n <= m,
        terms_in(cx, s, ts, n) is Err,
    ensures
        terms_in(cx, s, ts, m) == terms_in(cx, s, ts, n),
    decreases m,
{
    if n < m {
        lemma_terms_fail(cx, s, ts, n, (m - 1) as nat);
    }
}

proof fn lemma_goals_fail(cx: LowerScope, s: LowerView, gs: Seq<AstGoal>, conjoined: bool, n: nat, m: nat)
    requires
        n <= m <= gs.len(),
        goals_in(cx, s, gs, conjoined, n) is Err,
    ensures
        goals_in(cx, s, gs, conjoined, m) == goals_in(cx, s, gs, conjoined, n),
    decreases m,
{
    if n < m {
        lemma_goals_fail(cx, s, gs, conjoined, n, (m - 1) as nat);
    }
}

proof fn lemma_preconditions_fail(cx: LowerScope, s: LowerView, ps: Seq<AstPrecondition>, n: nat, m: nat)
    requires
        n <= m <= ps.len(),
        preconditions_in(cx, s, ps, n) is Err,
    ensures
        preconditions_in(cx, s, ps, m) == preconditions_in(cx, s, ps, n),
    decreases m,
{
    if n < m {
        lemma_preconditions_fail(cx, s, ps, n, (m - 1) as nat);
    }
}

proof fn lemma_primitives_fail(cx: LowerScope, s: LowerView, ps: Seq<AstPrimitive>, n: nat, m: nat, params: Seq<Variable>, cond: FormulaView)
    requires
        n <= m,
        primitives_in(cx, s, ps, n, params, cond) is Err,
    ensures
        primitives_in(cx, s, ps, m, params, cond) == primitives_in(cx, s, ps, n, params, cond),
    decreases m,
{
    if n < m {
        lemma_primitives_fail(cx, s, ps, n, (m - 1) as nat, params, cond);
    }
}

proof fn lemma_effects_fail(cx: LowerScope, s: LowerView, es: Seq<AstEffect>, n: nat, m: nat, params: Seq<Variable>, cond: FormulaView)
    requires
        n <= m <= es.len(),
        effects_in(cx, s, es, n, params, cond) is Err,
    ensures
        effects_in(cx, s, es, m, params, cond) == effects_in(cx, s, es, n, params, cond),
    decreases m,
{
    if n < m {
        lemma_effects_fail(cx, s, es, n, (m - 1) as nat, params, cond);
    }
}

/// A requirement added to others.
fn adding_requirement(before: Requirements, q: AstRequirement) -> (res: Requirements)
    ensures
        res == with_requirement(before, q),
{
    let mut r = before;
    match q {
        AstRequirement::Strips | AstRequirement::Other => {},
        AstRequirement::Typing => r.typing = true,
        AstRequirement::NegativePreconditions => r.negative_preconditions = true,
        AstRequirement::DisjunctivePreconditions => r.disjunctive_preconditions = true,
        AstRequirement::Equality => r.equality = true,
        AstRequirement::ExistentialPreconditions => r.existential_preconditions = true,
        AstRequirement::UniversalPreconditions => r.universal_preconditions = true,
        AstRequirement::QuantifiedPreconditions => r.enable_quantified_preconditions(),
        AstRequirement::ConditionalEffects => r.conditional_effects = true,
        AstRequirement::Adl => r.enable_adl(),
        AstRequirement::Fluents => r.fluents = true,
        AstRequirement::DurativeActions => r.durative_actions = true,
        AstRequirement::DurationInequalities => r.duration_inequalities = true,
        AstRequirement::ContinuousEffects => r.continuous_effects = true,
        AstRequirement::TimedInitialLiterals => r.timed_initial_literals = true,
        AstRequirement::ActionCosts => r.action_costs = true,
    }
    r
}

/// Collects the requirements. Anything that is neither classical nor temporal or
/// numeric is rejected only where it is used.
pub fn lower_requirements(qs: &Vec<AstRequirement>) -> (res: Requirements)
    ensures
        res == requirements_of(qs@, qs@.len()),
{
    let mut r = Requirements::new();
    let mut i: usize = 0;
    while i < qs.len()
        invariant
            i <= qs@.len(),
            r == requirements_of(qs@, i as nat),
        decreases qs@.len() - i,
    {
        r = adding_requirement(r, qs[i]);
        i = i + 1;
    }
    r
}

impl Lowering {
    /// Nothing declared and nothing in scope.
    fn new(types: Types, predicates: PredicateTable) -> (res: Self)
        requires
            types.wf(),
            predicates.wf(),
        ensures
            res.wf(),
            res@ == fresh_scope(res@),
            res@.types == types@,
            res@.names == predicates.names(),
            res@.signatures == predicates.signatures(),
            res@.dynamic == predicates.dynamics(),
    {
        let res = Lowering {
            types,
            predicates,
            terms: TermTable::new(),
            scope: Vec::new(),
            effects: Vec::new(),
            cost: 0,
            cost_functions: Vec::new(),
        };
        assert(res@ =~= fresh_scope(res@));
        res
    }

    /// Clears what belongs to one action.
    fn refresh(&mut self)
        requires
            old(self).wf(),
        ensures
            final(self).wf(),
            final(self)@ == fresh_scope(old(self)@),
    {
        self.terms = TermTable::new();
        self.scope = Vec::new();
        self.effects = Vec::new();
        self.cost = 0;
        self.cost_functions = Vec::new();
        assert(self@ =~= fresh_scope(old(self)@));
    }

    /// Adds the objects of a typed list to a table.
    fn lower_objects_into(&mut self, table: &mut TermTable, first: usize, decls: &Vec<AstTyped>) -> (res: Result<(), LowerError>)
        requires
            old(self).wf(),
            old(table).wf(),
            old(table).first() == first,
            old(table).objects() == Seq::<ObjectView>::empty(),
        ensures
            final(self).wf(),
            final(table).wf(),
            final(table).first() == first,
            match (objects_in(old(self)@, decls@, first as nat, decls@.len()), res) {
                (Ok((objects, s)), Ok(_)) => final(table).objects() == objects && final(self)@ == s,
                (Err(f), Err(e)) => e@ == f,
                _ => false,
            },
    {
        let ghost start = self@;
        let mut i: usize = 0;
        while i < decls.len()
            invariant
                start == old(self)@,
                self.wf(),
                table.wf(),
                table.first() == first,
                i <= decls@.len(),
                objects_in(start, decls@, first as nat, i as nat) == Ok::<(Seq<ObjectView>, LowerView), Fault>((table.objects(), self@)),
            decreases decls@.len() - i,
        {
            proof {
                table.lemma_wf();
                if objects_in(start, decls@, first as nat, (i + 1) as nat) is Err {
                    lemma_objects_fail(start, decls@, first as nat, (i + 1) as nat, decls@.len());
                }
            }
            let ty = match self.lower_type(&decls[i].ty) {
                Err(e) => {
                    return Err(e);
                },
                Ok(t) => t,
            };
            if table.len() >= u32::MAX as usize || first >= u32::MAX as usize - table.len() {
                return Err(too_many());
            }
            table.add_object(decls[i].name.as_str(), ty);
            i = i + 1;
        }
        Ok(())
    }

    /// The parameter types of a declaration.
    fn lower_parameters(&mut self, decls: &Vec<AstTyped>) -> (res: Result<Vec<Type>, LowerError>)
        requires
            old(self).wf(),
        ensures
            final(self).wf(),
            match (parameter_types(old(self)@, decls@, decls@.len()), res) {
                (Ok((tys, s)), Ok(r)) => r@ == tys && final(self)@ == s && s == (LowerView { types: s.types, ..old(self)@ }),
                (Err(f), Err(e)) => e@ == f,
                _ => false,
            },
    {
        let ghost start = self@;
        let mut tys: Vec<Type> = Vec::new();
        let mut i: usize = 0;
        assert(tys@ =~= seq![]);
        while i < decls.len()
            invariant
                start == old(self)@,
                self.wf(),
                i <= decls@.len(),
                self@ == (LowerView { types: self@.types, ..start }),
                parameter_types(start, decls@, i as nat) == Ok::<(Seq<Type>, LowerView), Fault>((tys@, self@)),
            decreases decls@.len() - i,
        {
            proof {
                lemma_type_only(self@, decls@[i as int].ty);
                if parameter_types(start, decls@, (i + 1) as nat) is Err {
                    lemma_parameters_fail(start, decls@, (i + 1) as nat, decls@.len());
                }
            }
            match self.lower_type(&decls[i].ty) {
                Err(e) => {
                    return Err(e);
                },
                Ok(t) => tys.push(t),
            }
            i = i + 1;
        }
        Ok(tys)
    }

    /// Declares the predicates.
    fn lower_predicates(&mut self, ds: &Vec<AstSkeleton>) -> (res: Result<(), LowerError>)
        requires
            old(self).wf(),
        ensures
            final(self).wf(),
            match (predicates_in(old(self)@, ds@, ds@.len()), res) {
                (Ok(s), Ok(_)) => final(self)@ == s,
                (Err(f), Err(e)) => e@ == f,
                _ => false,
            },
    {
        let ghost start = self@;
        let mut i: usize = 0;
        while i < ds.len()
            invariant
                start == old(self)@,
                self.wf(),
                i <= ds@.len(),
                predicates_in(start, ds@, i as nat) == Ok::<LowerView, Fault>(self@),
            decreases ds@.len() - i,
        {
            proof {
                if predicates_in(start, ds@, (i + 1) as nat) is Err {
                    lemma_predicates_fail(start, ds@, (i + 1) as nat, ds@.len());
                }
            }
            let p = match self.predicate_for(ds[i].name.as_str()) {
                Err(e) => {
                    return Err(e);
                },
                Ok(p) => p,
            };
            let tys = match self.lower_parameters(&ds[i].parameters) {
                Err(e) => {
                    return Err(e);
                },
                Ok(tys) => tys,
            };
            self.add_parameters(p, &tys);
            i = i + 1;
        }
        Ok(())
    }

    /// Appends parameter types to a predicate.
    fn add_parameters(&mut self, p: Predicate, tys: &Vec<Type>)
        requires
            old(self).wf(),
            p.0 < old(self)@.names.len(),
        ensures
            final(self).wf(),
            final(self)@ == (LowerView {
                signatures: old(self)@.signatures.update(p.0 as int, old(self)@.signatures[p.0 as int] + tys@),
                ..old(self)@
            }),
    {
        let ghost start = self@;
        let ghost at = p.0 as int;
        let mut k: usize = 0;
        proof {
            self.predicates.lemma_wf();
            assert(start.signatures[at] + tys@.take(0) =~= start.signatures[at]);
            assert(start.signatures.update(at, start.signatures[at] + tys@.take(0)) =~= start.signatures);
        }
        while k < tys.len()
            invariant
                start == old(self)@,
                self.wf(),
                at == p.0,
                at < start.names.len(),
                start.names.len() == start.signatures.len(),
                k <= tys@.len(),
                self@ == (LowerView { signatures: start.signatures.update(at, start.signatures[at] + tys@.take(k as int)), ..start }),
            decreases tys@.len() - k,
        {
            let ghost before = self@;
            self.predicates.add_parameter(p, tys[k]);
            proof {
                assert((start.signatures[at] + tys@.take(k as int)).push(tys@[k as int]) =~= start.signatures[at] + tys@.take(k + 1));
                assert(before.signatures.update(at, before.signatures[at].push(tys@[k as int])) =~= start.signatures.update(
                    at,
                    start.signatures[at] + tys@.take(k + 1),
                ));
                assert(self@ =~= (LowerView { signatures: start.signatures.update(at, start.signatures[at] + tys@.take(k + 1)), ..start }));
            }
            k = k + 1;
        }
        assert(tys@.take(k as int) =~= tys@);
    }

    /// Declares the functions, so that they can be referenced and rejected.
    fn lower_functions(&mut self, ds: &Vec<AstSkeleton>) -> (res: Result<FunctionTable, LowerError>)
        requires
            old(self).wf(),
        ensures
            final(self).wf(),
            match (functions_in(old(self)@, ds@, ds@.len()), res) {
                (Ok((f, s)), Ok(r)) => r.wf() && f == functions_view(r) && r.dynamics() == Set::<Function>::empty() && final(self)@ == s,
                (Err(f), Err(e)) => e@ == f,
                _ => false,
            },
    {
        let ghost start = self@;
        let mut table = FunctionTable::new();
        let mut i: usize = 0;
        assert(functions_view(table) =~= FunctionsView { names: seq![], signatures: seq![] });
        while i < ds.len()
            invariant
                start == old(self)@,
                self.wf(),
                table.wf(),
                table.dynamics() == Set::<Function>::empty(),
                i <= ds@.len(),
                functions_in(start, ds@, i as nat) == Ok::<(FunctionsView, LowerView), Fault>((functions_view(table), self@)),
            decreases ds@.len() - i,
        {
            proof {
                if functions_in(start, ds@, (i + 1) as nat) is Err {
                    lemma_functions_fail(start, ds@, (i + 1) as nat, ds@.len());
                }
            }
            let ghost before = functions_view(table);
            if table.len() >= u32::MAX as usize {
                return Err(too_many());
            }
            let f = table.add_function(ds[i].name.as_str());
            let tys = match self.lower_parameters(&ds[i].parameters) {
                Err(e) => {
                    return Err(e);
                },
                Ok(tys) => tys,
            };
            add_function_parameters(&mut table, f, &tys);
            i = i + 1;
        }
        Ok(table)
    }

    /// Lowers an action definition in a scope of its own.
    fn lower_action(&mut self, cx: &LowerContext, a: &AstAction, id: usize) -> (res: Result<ActionSchema, LowerError>)
        requires
            old(self).wf(),
            cx.wf(),
        ensures
            final(self).wf(),
            res matches Ok(r) ==> in_scope(r),
            match (action_in(cx@, old(self)@, *a, id), res) {
                (Ok((schema, s)), Ok(r)) => schema_view(r) == schema && final(self)@ == s,
                (Err(f), Err(e)) => e@ == f,
                _ => false,
            },
    {
        self.refresh();
        let parameters = match self.declare_typed_variables(&a.parameters) {
            Err(e) => {
                return Err(e);
            },
            Ok(vs) => vs,
        };
        let precondition = match self.lower_preconditions(cx, &a.precondition) {
            Err(e) => {
                return Err(e);
            },
            Ok(f) => f,
        };
        let no_params: Vec<Variable> = Vec::new();
        let truth = Rc::new(Formula::True);
        assert(no_params@ =~= seq![]);
        match self.lower_effects(cx, &a.effects, &no_params, &truth) {
            Err(e) => {
                return Err(e);
            },
            Ok(_) => {},
        }
        let ghost done = self@;
        let mut effects = copy_effects(&self.effects);
        strengthen_effects(&mut effects, &precondition);
        assert(effect_views(effects@) =~= all_strengthened(done.effects, precondition@));
        let cost = if cx.action_costs {
            self.cost
        } else {
            1
        };
        Ok(
            ActionSchema {
                id,
                name: a.name.clone(),
                parameters,
                var_types: self.terms.variable_types(),
                precondition,
                effects,
                cost,
                cost_base: cost,
                cost_functions: copy_vec(&self.cost_functions),
            },
        )
    }

    /// Lowers the definitions of a domain's structure.
    fn lower_actions(&mut self, cx: &LowerContext, ds: &Vec<AstStructure>) -> (res: Result<Vec<ActionSchema>, LowerError>)
        requires
            old(self).wf(),
            cx.wf(),
        ensures
            final(self).wf(),
            res matches Ok(r) ==> all_in_scope(r@),
            match (actions_in(cx@, old(self)@, ds@, ds@.len()), res) {
                (Ok((actions, s)), Ok(r)) => schema_views(r@) == actions && final(self)@ == s,
                (Err(f), Err(e)) => e@ == f,
                _ => false,
            },
    {
        let ghost start = self@;
        let mut actions: Vec<ActionSchema> = Vec::new();
        let mut i: usize = 0;
        assert(schema_views(actions@) =~= seq![]);
        while i < ds.len()
            invariant
                start == old(self)@,
                self.wf(),
                cx.wf(),
                i <= ds@.len(),
                all_in_scope(actions@),
                actions_in(cx@, start, ds@, i as nat) == Ok::<(Seq<SchemaView>, LowerView), Fault>((schema_views(actions@), self@)),
            decreases ds@.len() - i,
        {
            proof {
                if actions_in(cx@, start, ds@, (i + 1) as nat) is Err {
                    lemma_actions_fail(cx@, start, ds@, (i + 1) as nat, ds@.len());
                }
            }
            let a = match &ds[i] {
                AstStructure::DurativeAction => {
                    return Err(LowerError::DurativeAction);
                },
                AstStructure::Derived => {
                    return Err(LowerError::DerivedPredicate);
                },
                AstStructure::Action(a) => a,
            };
            let ghost before = schema_views(actions@);
            match self.lower_action(cx, a, i) {
                Err(e) => {
                    return Err(e);
                },
                Ok(schema) => {
                    let ghost v = schema_view(schema);
                    actions.push(schema);
                    assert(schema_views(actions@) =~= before.push(v));
                },
            }
            i = i + 1;
        }
        Ok(actions)
    }
}

/// Appends parameter types to a function.
fn add_function_parameters(table: &mut FunctionTable, f: Function, tys: &Vec<Type>)
    requires
        old(table).wf(),
        f.0 < old(table).names().len(),
    ensures
        final(table).wf(),
        final(table).names() == old(table).names(),
        final(table).dynamics() == old(table).dynamics(),
        final(table).signatures() == old(table).signatures().update(f.0 as int, old(table).signatures()[f.0 as int] + tys@),
{
    let ghost start = table.signatures();
    let ghost at = f.0 as int;
    let mut k: usize = 0;
    proof {
        table.lemma_wf();
        assert(start[at] + tys@.take(0) =~= start[at]);
        assert(start.update(at, start[at] + tys@.take(0)) =~= start);
    }
    while k < tys.len()
        invariant
            table.wf(),
            start == old(table).signatures(),
            table.names() == old(table).names(),
            table.dynamics() == old(table).dynamics(),
            at == f.0,
            at < start.len(),
            at < table.names().len(),
            k <= tys@.len(),
            table.signatures() == start.update(at, start[at] + tys@.take(k as int)),
        decreases tys@.len() - k,
    {
        let ghost before = table.signatures();
        table.add_parameter(f, tys[k]);
        proof {
            assert((start[at] + tys@.take(k as int)).push(tys@[k as int]) =~= start[at] + tys@.take(k + 1));
            assert(before.update(at, before[at].push(tys@[k as int])) =~= start.update(at, start[at] + tys@.take(k + 1)));
        }
        k = k + 1;
    }
    assert(tys@.take(k as int) =~= tys@);
}

/// Lowers a domain.
pub fn lower_domain(d: &AstDomain) -> (res: Result<Domain, LowerError>)
    ensures
        is_lowered_domain(
            *d,
            match res {
                Ok(domain) => Ok(domain_view(domain)),
                Err(e) => Err(e@),
            },
        ),
        res matches Ok(domain) ==> domain.wf() && all_in_scope(domain.actions@) && domain.functions.dynamics() == Set::<Function>::empty(),
{
    let requirements = lower_requirements(&d.requirements);
    match requirements.reject_deferred() {
        Err(e) => {
            return Err(e);
        },
        Ok(_) => {},
    }
    let mut low = Lowering::new(Types::new(), PredicateTable::new());
    assert(low@ =~= first_state());
    match low.lower_types(&d.types) {
        Err(e) => {
            assert(are_types(first_state(), d.types@, Err(e@)));
            return Err(e);
        },
        Ok(_) => {},
    }
    let ghost typed = low@;
    assert(are_types(first_state(), d.types@, Ok(typed)));
    let mut constants = TermTable::new();
    match low.lower_objects_into(&mut constants, 0, &d.constants) {
        Err(e) => {
            return Err(e);
        },
        Ok(_) => {},
    }
    match low.lower_predicates(&d.predicates) {
        Err(e) => {
            return Err(e);
        },
        Ok(_) => {},
    }
    let functions = match low.lower_functions(&d.functions) {
        Err(e) => {
            return Err(e);
        },
        Ok(f) => f,
    };
    let cx = LowerContext { constants: &constants, objects: None, functions: &functions, action_costs: requirements.action_costs };
    let ghost scope = LowerScope {
        constants: constants.objects(),
        objects: seq![],
        function_names: functions.names(),
        function_signatures: functions.signatures(),
        action_costs: requirements.action_costs,
    };
    assert(cx@ =~= scope);
    let actions = match low.lower_actions(&cx, &d.structure) {
        Err(e) => {
            return Err(e);
        },
        Ok(a) => a,
    };
    Ok(
        Domain {
            name: d.name.clone(),
            requirements,
            types: low.types,
            predicates: low.predicates,
            functions,
            constants,
            actions,
        },
    )
}

proof fn lemma_type_only(s: LowerView, ty: AstType)
    ensures
        type_in(s, ty) matches Ok((_, s1)) ==> s1 == (LowerView { types: s1.types, ..s }),
{
    match ty {
        AstType::Exactly(_) => {},
        AstType::Either(names) => {
            lemma_members_only(s, names@, names@.len());
        },
    }
}

proof fn lemma_members_only(s: LowerView, names: Seq<String>, n: nat)
    ensures
        members_of(s, names, n) matches Ok((_, s1)) ==> s1 == (LowerView { types: s1.types, ..s }),
    decreases n,
{
    if n > 0 {
        lemma_members_only(s, names, (n - 1) as nat);
    }
}

proof fn lemma_objects_fail(s: LowerView, decls: Seq<AstTyped>, first: nat, n: nat, m: nat)
    requires
        n <= m,
        objects_in(s, decls, first, n) is Err,
    ensures
        objects_in(s, decls, first, m) == objects_in(s, decls, first, n),
    decreases m,
{
    if n < m {
        lemma_objects_fail(s, decls, first, n, (m - 1) as nat);
    }
}

proof fn lemma_parameters_fail(s: LowerView, decls: Seq<AstTyped>, n: nat, m: nat)
    requires
        n <= m,
        parameter_types(s, decls, n) is Err,
    ensures
        parameter_types(s, decls, m) == parameter_types(s, decls, n),
    decreases m,
{
    if n < m {
        lemma_parameters_fail(s, decls, n, (m - 1) as nat);
    }
}

proof fn lemma_predicates_fail(s: LowerView, ds: Seq<AstSkeleton>, n: nat, m: nat)
    requires
        n <= m,
        predicates_in(s, ds, n) is Err,
    ensures
        predicates_in(s, ds, m) == predicates_in(s, ds, n),
    decreases m,
{
    if n < m {
        lemma_predicates_fail(s, ds, n, (m - 1) as nat);
    }
}

proof fn lemma_functions_fail(s: LowerView, ds: Seq<AstSkeleton>, n: nat, m: nat)
    requires
        n <= m,
        functions_in(s, ds, n) is Err,
    ensures
        functions_in(s, ds, m) == functions_in(s, ds, n),
    decreases m,
{
    if n < m {
        lemma_functions_fail(s, ds, n, (m - 1) as nat);
    }
}

proof fn lemma_actions_fail(cx: LowerScope, s: LowerView, ds: Seq<AstStructure>, n: nat, m: nat)
    requires
        n <= m,
        actions_in(cx, s, ds, n) is Err,
    ensures
        actions_in(cx, s, ds, m) == actions_in(cx, s, ds, n),
    decreases m,
{
    if n < m {
        lemma_actions_fail(cx, s, ds, n, (m - 1) as nat);
    }
}

impl Lowering {
    /// Lowers an element of the initial state.
    fn lower_init_element(&mut self, cx: &LowerContext, e: &AstInit, atoms: &mut Vec<Atom>, values: &mut Vec<(Function, usize)>) -> (res: Result<
        (),
        LowerError,
    >)
        requires
            old(self).wf(),
            cx.wf(),
        ensures
            final(self).wf(),
            match (init_element(cx@, old(self)@, InitView { atoms: atom_forms(old(atoms)@), values: old(values)@ }, *e), res) {
                (Ok((i, s)), Ok(_)) => i == (InitView { atoms: atom_forms(final(atoms)@), values: final(values)@ }) && final(self)@ == s,
                (Err(f), Err(e)) => e@ == f,
                _ => false,
            },
    {
        match e {
            AstInit::Atom { negated, predicate, arguments } => {
                let p = match self.predicate_for(predicate.as_str()) {
                    Err(e) => {
                        return Err(e);
                    },
                    Ok(p) => p,
                };
                let terms = match resolve_objects(cx, arguments) {
                    Err(e) => {
                        return Err(e);
                    },
                    Ok(ts) => ts,
                };
                let atom = Atom { predicate: p, terms };
                if !*negated && !holds_atom(atoms, &atom) {
                    let ghost before = atom_forms(atoms@);
                    let ghost av = atom@;
                    atoms.push(atom);
                    assert(atom_forms(atoms@) =~= before.push(av));
                }
                Ok(())
            },
            AstInit::Equality => Ok(()),
            AstInit::Timed => Err(LowerError::UnsupportedRequirement("timed-initial-literals".to_string())),
            AstInit::Value(name, value) => match cx.cost_function(name.as_str()) {
                Some(f) => {
                    if !cx.action_costs {
                        return Err(unsupported("init fluent value"));
                    }
                    values.push((f, *value));
                    Ok(())
                },
                None => Err(unsupported("init fluent value")),
            },
            AstInit::Fluent => Err(unsupported("init fluent value")),
        }
    }
}

/// Resolves ground object names.
fn resolve_objects(cx: &LowerContext, names: &Vec<String>) -> (res: Result<Vec<Term>, LowerError>)
    requires
        cx.wf(),
    ensures
        match (arguments_in(cx@, names@, names@.len()), res) {
            (Ok(ts), Ok(r)) => r@ == ts,
            (Err(f), Err(e)) => e@ == f,
            _ => false,
        },
{
    let mut terms: Vec<Term> = Vec::new();
    let mut i: usize = 0;
    assert(terms@ =~= seq![]);
    while i < names.len()
        invariant
            cx.wf(),
            i <= names@.len(),
            arguments_in(cx@, names@, i as nat) == Ok::<Seq<Term>, Fault>(terms@),
        decreases names@.len() - i,
    {
        match cx.object(names[i].as_str()) {
            Some(o) => terms.push(Term::Object(o)),
            None => {
                proof {
                    lemma_arguments_fail(cx@, names@, (i + 1) as nat, names@.len());
                }
                return Err(LowerError::UnknownObject(names[i].clone()));
            },
        }
        i = i + 1;
    }
    Ok(terms)
}

/// Whether a list of atoms holds an atom.
pub(crate) fn holds_atom(atoms: &Vec<Atom>, atom: &Atom) -> (res: bool)
    ensures
        res == atom_forms(atoms@).contains(atom@),
{
    let ghost forms = atom_forms(atoms@);
    let mut i: usize = 0;
    while i < atoms.len()
        invariant
            forms == atom_forms(atoms@),
            i <= atoms@.len(),
            forall|j: int| 0 <= j < i ==> #[trigger] forms[j] != atom@,
        decreases atoms@.len() - i,
    {
        if same_atom(&atoms[i], atom) {
            assert(forms[i as int] == atom@);
            return true;
        }
        i = i + 1;
    }
    false
}

/// Lowers a problem against its domain. The domain stays as it is: what the
/// problem declares beyond it is forgotten.
pub fn lower_problem(p: &AstProblem, domain: &Domain) -> (res: Result<Problem, LowerError>)
    requires
        domain.wf(),
    ensures
        match (lowered_problem(*p, domain_view(*domain)), res) {
            (Ok(v), Ok(problem)) => problem_view(problem) == v && problem.objects.wf() && problem.objects.first() == domain.constants.end(),
            (Err(f), Err(e)) => e@ == f,
            _ => false,
        },
{
    let requirements = lower_requirements(&p.requirements);
    match requirements.reject_deferred() {
        Err(e) => {
            return Err(e);
        },
        Ok(_) => {},
    }
    let mut low = Lowering::new(domain.types.clone(), domain.predicates.clone());
    assert(low@ =~= state_of(domain_view(*domain)));
    let mut objects = TermTable::with_parent(&domain.constants);
    match low.lower_objects_into(&mut objects, domain.constants.len(), &p.objects) {
        Err(e) => {
            return Err(e);
        },
        Ok(_) => {},
    }
    let cx = LowerContext {
        constants: &domain.constants,
        objects: Some(&objects),
        functions: &domain.functions,
        action_costs: domain.requirements.action_costs,
    };
    assert(cx@ =~= (LowerScope { objects: objects.objects(), ..scope_of(domain_view(*domain)) }));
    let ghost start = low@;
    let mut init_order: Vec<Atom> = Vec::new();
    let mut cost_values: Vec<(Function, usize)> = Vec::new();
    let mut i: usize = 0;
    assert(InitView { atoms: atom_forms(init_order@), values: cost_values@ } =~= InitView { atoms: seq![], values: seq![] });
    while i < p.init.len()
        invariant
            low.wf(),
            cx.wf(),
            domain.wf(),
            objects.wf(),
            deferred(requirements_of(p.requirements@, p.requirements@.len())) is None,
            cx@ == (LowerScope { objects: objects.objects(), ..scope_of(domain_view(*domain)) }),
            objects_in(state_of(domain_view(*domain)), p.objects@, domain.constants.objects().len(), p.objects@.len()) == Ok::<
                (Seq<ObjectView>, LowerView),
                Fault,
            >((objects.objects(), start)),
            i <= p.init@.len(),
            init_in(cx@, start, p.init@, i as nat) == Ok::<(InitView, LowerView), Fault>(
                (InitView { atoms: atom_forms(init_order@), values: cost_values@ }, low@),
            ),
        decreases p.init@.len() - i,
    {
        match low.lower_init_element(&cx, &p.init[i], &mut init_order, &mut cost_values) {
            Err(e) => {
                proof {
                    lemma_init_fail(cx@, start, p.init@, (i + 1) as nat, p.init@.len());
                }
                return Err(e);
            },
            Ok(_) => {},
        }
        i = i + 1;
    }
    low.refresh();
    let goal = match low.lower_preconditions(&cx, &p.goals) {
        Err(e) => {
            return Err(e);
        },
        Ok(f) => f,
    };
    let goal_var_types = low.terms.variable_types();
    let metric = match &p.metric {
        Some(AstMetric::Minimize(f)) => if same_text(f.as_str(), "total-cost") {
            Some(Metric::MinimizeTotalCost)
        } else {
            None
        },
        _ => None,
    };
    Ok(
        Problem {
            name: p.name.clone(),
            domain_name: p.domain_name.clone(),
            objects,
            init_order,
            cost_values,
            goal,
            goal_var_types,
            metric,
        },
    )
}

/// The value of a function; the last one given.
fn value_of(values: &Vec<(Function, usize)>, f: Function) -> (res: Option<usize>)
    ensures
        res == last_value(values@, f),
{
    let mut i: usize = values.len();
    assert(values@.take(i as int) =~= values@);
    while i > 0
        invariant
            i <= values@.len(),
            last_value(values@, f) == last_value(values@.take(i as int), f),
        decreases i,
    {
        let ghost front = values@.take(i as int);
        assert(front.drop_last() =~= values@.take(i - 1));
        assert(front.last() == values@[i - 1]);
        i = i - 1;
        if values[i].0 == f {
            return Some(values[i].1);
        }
    }
    None
}

/// Resolves the cost of every action against the problem's initial values. A cost
/// function without a value is an error, and the costs stay as they are.
pub fn bind_action_costs(domain: &mut Domain, problem: &Problem) -> (res: Result<(), LowerError>)
    requires
        old(domain).wf(),
    ensures
        final(domain).wf(),
        all_in_scope(old(domain).actions@) ==> all_in_scope(final(domain).actions@),
        match res {
            Ok(_) => are_bound(schema_views(old(domain).actions@), schema_views(final(domain).actions@), problem.cost_values@)
                && domain_view(*final(domain)) == (DomainView { actions: schema_views(final(domain).actions@), ..domain_view(*old(domain)) }),
            Err(e) => *final(domain) == *old(domain) && e@ == Fault::UnsupportedFluent("undefined cost function"@) && exists|i: int|
                0 <= i < old(domain).actions@.len() && (#[trigger] cost_in(schema_view(old(domain).actions@[i]), problem.cost_values@)) is None,
        },
{
    let ghost start = *domain;
    let mut costs: Vec<usize> = Vec::new();
    let mut i: usize = 0;
    while i < domain.actions.len()
        invariant
            *domain == start,
            start == *old(domain),
            start.wf(),
            i <= domain.actions@.len(),
            costs@.len() == i,
            forall|j: int| 0 <= j < i ==> cost_in(schema_view(start.actions@[j]), problem.cost_values@) == Some(#[trigger] costs@[j]),
        decreases domain.actions@.len() - i,
    {
        let ghost schema = schema_view(start.actions@[i as int]);
        let mut cost = domain.actions[i].cost_base;
        let mut k: usize = 0;
        while k < domain.actions[i].cost_functions.len()
            invariant
                *domain == start,
                start == *old(domain),
                start.wf(),
                i < domain.actions@.len(),
                schema == schema_view(start.actions@[i as int]),
                k <= schema.cost_functions.len(),
                cost_upto(schema, problem.cost_values@, k as nat) == Some(cost),
            decreases schema.cost_functions.len() - k,
        {
            let f = domain.actions[i].cost_functions[k];
            match value_of(&problem.cost_values, f) {
                Some(v) => {
                    cost = cost.saturating_add(v);
                },
                None => {
                    proof {
                        lemma_cost_missing(schema, problem.cost_values@, (k + 1) as nat, schema.cost_functions.len());
                        assert(cost_in(schema_view(start.actions@[i as int]), problem.cost_values@) is None);
                    }
                    return Err(unsupported("undefined cost function"));
                },
            }
            k = k + 1;
        }
        costs.push(cost);
        i = i + 1;
    }
    let mut j: usize = 0;
    while j < domain.actions.len()
        invariant
            start == *old(domain),
            domain.wf(),
            costs@.len() == start.actions@.len(),
            domain.actions@.len() == start.actions@.len(),
            j <= domain.actions@.len(),
            domain_view(*domain) == (DomainView { actions: schema_views(domain.actions@), ..domain_view(start) }),
            forall|k: int| 0 <= k < costs@.len() ==> cost_in(schema_view(start.actions@[k]), problem.cost_values@) == Some(#[trigger] costs@[k]),
            forall|k: int|
                0 <= k < start.actions@.len() ==> schema_view(#[trigger] domain.actions@[k]) == (if k < j {
                    SchemaView { cost: costs@[k], ..schema_view(start.actions@[k]) }
                } else {
                    schema_view(start.actions@[k])
                }),
        decreases domain.actions@.len() - j,
    {
        domain.actions[j].cost = costs[j];
        j = j + 1;
    }
    proof {
        let before = schema_views(start.actions@);
        let after = schema_views(domain.actions@);
        assert forall|k: int| 0 <= k < before.len() implies is_bound(before[k], #[trigger] after[k], problem.cost_values@) by {
            assert(domain.actions@[k] == domain.actions@[k]);
            assert(cost_in(before[k], problem.cost_values@) == Some(costs@[k]));
        }
        if all_in_scope(start.actions@) {
            assert forall|k: int| 0 <= k < domain.actions@.len() implies in_scope(#[trigger] domain.actions@[k]) by {
                assert(in_scope(start.actions@[k]));
                assert(schema_view(domain.actions@[k]).parameters == schema_view(start.actions@[k]).parameters);
            }
        }
    }
    Ok(())
}

proof fn lemma_cost_missing(schema: SchemaView, values: Seq<(Function, usize)>, n: nat, m: nat)
    requires
        n <= m,
        cost_upto(schema, values, n) is None,
    ensures
        cost_upto(schema, values, m) is None,
    decreases m,
{
    if n < m {
        lemma_cost_missing(schema, values, n, (m - 1) as nat);
    }
}

proof fn lemma_arguments_fail(cx: LowerScope, names: Seq<String>, n: nat, m: nat)
    requires
        n <= m,
        arguments_in(cx, names, n) is Err,
    ensures
        arguments_in(cx, names, m) == arguments_in(cx, names, n),
    decreases m,
{
    if n < m {
        lemma_arguments_fail(cx, names, n, (m - 1) as nat);
    }
}

proof fn lemma_init_fail(cx: LowerScope, s: LowerView, es: Seq<AstInit>, n: nat, m: nat)
    requires
        n <= m,
        init_in(cx, s, es, n) is Err,
    ensures
        init_in(cx, s, es, m) == init_in(cx, s, es, n),
    decreases m,
{
    if n < m {
        lemma_init_fail(cx, s, es, n, (m - 1) as nat);
    }
}

} // verus!
