//! What lowering makes of PDDL syntax.
use vstd::prelude::*;

use crate::action::ActionSchema;
use crate::ast::{
    AstAction, AstAmount, AstAtomic, AstDomain, AstEffect, AstGoal, AstInit, AstMetric, AstPrecondition, AstPrimitive, AstProblem, AstRequirement,
    AstSkeleton, AstStructure, AstTerm, AstType, AstTyped,
};
use crate::domain::Domain;
use crate::effect::{effect_views, strengthened, EffectTime, EffectView};
use crate::formula::{Atom, both, either, negated, AtomView, FormulaView, LiteralView};
use crate::functions::{Function, FunctionTable};
use crate::lower_error::Fault;
use crate::names::position_of;
use crate::predicates::Predicate;
use crate::problem::Problem;
use crate::rank::capped_sum;
use crate::requirements::{deferred, Requirements};
use crate::terms::{Object, ObjectView, Term, Variable};
use crate::types::{all_parts, is_wired, type_names, Type, TypeView, OBJECT};

verus! {

/// What lowering has declared so far: types, predicates, and for the action or
/// goal at hand the variables, the names in scope and the effects.
#[verifier::ext_equal]
pub struct LowerView {
    pub types: Seq<TypeView>,
    /// Predicate names, by number.
    pub names: Seq<Seq<char>>,
    /// Predicate parameters, by number.
    pub signatures: Seq<Seq<Type>>,
    pub dynamic: Set<Predicate>,
    pub vars: Seq<Type>,
    /// The variables in scope, the innermost last.
    pub scope: Seq<(Seq<char>, Variable)>,
    pub effects: Seq<EffectView>,
    pub cost: usize,
    pub cost_functions: Seq<Function>,
}

/// What lowering reads: the objects that can be named and the functions, and
/// whether action costs are enabled.
#[verifier::ext_equal]
pub struct LowerScope {
    /// Objects of the domain, numbered from zero.
    pub constants: Seq<ObjectView>,
    /// Objects of the problem, numbered behind those.
    pub objects: Seq<ObjectView>,
    pub function_names: Seq<Seq<char>>,
    pub function_signatures: Seq<Seq<Type>>,
    pub action_costs: bool,
}

/// The names of a list of objects.
pub open spec fn names_of(objects: Seq<ObjectView>) -> Seq<Seq<char>> {
    Seq::new(objects.len(), |i: int| objects[i].name)
}

impl LowerScope {
    /// The object of a name: one of the problem, else one of the domain.
    pub open spec fn object(self, name: Seq<char>) -> Option<Object> {
        match position_of(names_of(self.objects), name) {
            Some(i) => Some(Object((self.constants.len() + i) as u32)),
            None => match position_of(names_of(self.constants), name) {
                Some(i) => Some(Object(i as u32)),
                None => None,
            },
        }
    }

    /// The function of a name that has no arguments.
    pub open spec fn cost_function(self, name: Seq<char>) -> Option<Function> {
        match position_of(self.function_names, name) {
            Some(i) => if self.function_signatures[i].len() == 0 {
                Some(Function(i as u32))
            } else {
                None
            },
            None => None,
        }
    }
}

/// A requirement added to others. Numeric and object fluents count as one.
pub open spec fn with_requirement(r: Requirements, q: AstRequirement) -> Requirements {
    match q {
        AstRequirement::Strips | AstRequirement::Other => r,
        AstRequirement::Typing => Requirements { typing: true, ..r },
        AstRequirement::NegativePreconditions => Requirements { negative_preconditions: true, ..r },
        AstRequirement::DisjunctivePreconditions => Requirements { disjunctive_preconditions: true, ..r },
        AstRequirement::Equality => Requirements { equality: true, ..r },
        AstRequirement::ExistentialPreconditions => Requirements { existential_preconditions: true, ..r },
        AstRequirement::UniversalPreconditions => Requirements { universal_preconditions: true, ..r },
        AstRequirement::QuantifiedPreconditions => r.with_quantified_preconditions(),
        AstRequirement::ConditionalEffects => Requirements { conditional_effects: true, ..r },
        AstRequirement::Adl => r.with_adl(),
        AstRequirement::Fluents => Requirements { fluents: true, ..r },
        AstRequirement::DurativeActions => Requirements { durative_actions: true, ..r },
        AstRequirement::DurationInequalities => Requirements { duration_inequalities: true, ..r },
        AstRequirement::ContinuousEffects => Requirements { continuous_effects: true, ..r },
        AstRequirement::TimedInitialLiterals => Requirements { timed_initial_literals: true, ..r },
        AstRequirement::ActionCosts => Requirements { action_costs: true, ..r },
    }
}

/// The first `n` requirements of a list.
pub open spec fn requirements_of(qs: Seq<AstRequirement>, n: nat) -> Requirements
    decreases n,
{
    if n == 0 {
        Requirements::none()
    } else {
        with_requirement(requirements_of(qs, (n - 1) as nat), qs[n - 1])
    }
}

/// A simple type, declared if need be.
pub open spec fn with_type(s: LowerView, name: Seq<char>) -> Result<(Type, LowerView), Fault> {
    if s.types.len() >= u32::MAX {
        Err(Fault::TooManyNames)
    } else {
        match position_of(type_names(s.types), name) {
            Some(i) => Ok((Type(i as u32), s)),
            None => Ok(
                (
                    Type(s.types.len() as u32),
                    LowerView { types: s.types.push(TypeView { name, components: seq![], supers: seq![], direct: seq![] }), ..s },
                ),
            ),
        }
    }
}

/// An ascending list of types with `t` in its place.
pub open spec fn sorted_with(ts: Seq<Type>, t: Type) -> Seq<Type>
    decreases ts.len(),
{
    if ts.len() == 0 {
        seq![t]
    } else if ts.last() == t {
        ts
    } else if ts.last().0 < t.0 {
        ts.push(t)
    } else {
        sorted_with(ts.drop_last(), t).push(ts.last())
    }
}

/// The first `n` simple types of a list, ascending, each once.
pub open spec fn members_of(s: LowerView, names: Seq<String>, n: nat) -> Result<(Seq<Type>, LowerView), Fault>
    decreases n,
{
    if n == 0 {
        Ok((seq![], s))
    } else {
        match members_of(s, names, (n - 1) as nat) {
            Err(e) => Err(e),
            Ok((ts, s1)) => match with_type(s1, names[n - 1]@) {
                Err(e) => Err(e),
                Ok((t, s2)) => Ok((sorted_with(ts, t), s2)),
            },
        }
    }
}

/// The union of some types: `object` of none, and of one that one.
pub open spec fn union_of(s: LowerView, ts: Seq<Type>) -> Result<(Type, LowerView), Fault> {
    if ts.len() == 0 {
        Ok((Type(OBJECT), s))
    } else if s.types.len() >= u32::MAX {
        Err(Fault::TooManyNames)
    } else if ts.len() == 1 {
        Ok((ts[0], s))
    } else {
        Ok(
            (
                Type(s.types.len() as u32),
                LowerView {
                    types: s.types.push(TypeView { name: seq![], components: all_parts(s.types, ts), supers: seq![], direct: seq![] }),
                    ..s
                },
            ),
        )
    }
}

/// The type that a type expression denotes.
pub open spec fn type_in(s: LowerView, ty: AstType) -> Result<(Type, LowerView), Fault> {
    match ty {
        AstType::Exactly(name) => with_type(s, name@),
        AstType::Either(names) => match members_of(s, names@, names@.len()) {
            Err(e) => Err(e),
            Ok((ts, s1)) => union_of(s1, ts),
        },
    }
}

/// The first `n` declared types by name.
pub open spec fn types_named(s: LowerView, decls: Seq<AstTyped>, n: nat) -> Result<LowerView, Fault>
    decreases n,
{
    if n == 0 {
        Ok(s)
    } else {
        match types_named(s, decls, (n - 1) as nat) {
            Err(e) => Err(e),
            Ok(s1) => match with_type(s1, decls[n - 1].name@) {
                Err(e) => Err(e),
                Ok((_, s2)) => Ok(s2),
            },
        }
    }
}

/// Whether `after` is what wiring one declared type to its supertype leads to.
pub open spec fn is_wired_type(before: LowerView, decl: AstTyped, after: Result<LowerView, Fault>) -> bool {
    match with_type(before, decl.name@) {
        Err(e) => after == Err::<LowerView, Fault>(e),
        Ok((sub, s1)) => match type_in(s1, decl.ty) {
            Err(e) => after == Err::<LowerView, Fault>(e),
            Ok((sup, s2)) => after matches Ok(a) && is_wired(s2.types, a.types, sub, sup) && a == (LowerView { types: a.types, ..s2 }),
        },
    }
}

/// Whether `next` follows on `last` by wiring one declared type.
pub open spec fn follows(last: Result<LowerView, Fault>, decl: AstTyped, next: Result<LowerView, Fault>) -> bool {
    match last {
        Err(e) => next == Err::<LowerView, Fault>(e),
        Ok(s) => is_wired_type(s, decl, next),
    }
}

/// Whether the states are those of wiring the first `n` declared types in order.
pub open spec fn are_wirings(before: LowerView, decls: Seq<AstTyped>, n: nat, states: Seq<Result<LowerView, Fault>>) -> bool {
    &&& states.len() == n + 1
    &&& states[0] == Ok::<LowerView, Fault>(before)
    &&& forall|i: int| 0 <= i < n ==> follows(#[trigger] states[i], decls[i], states[i + 1])
}

/// Whether `after` is what wiring the first `n` declared types leads to.
pub open spec fn are_wired_types(before: LowerView, decls: Seq<AstTyped>, n: nat, after: Result<LowerView, Fault>) -> bool {
    exists|states: Seq<Result<LowerView, Fault>>| #[trigger] are_wirings(before, decls, n, states) && states.last() == after
}

/// Whether `after` is what declaring a type hierarchy leads to: every name first,
/// then the supertypes.
pub open spec fn are_types(before: LowerView, decls: Seq<AstTyped>, after: Result<LowerView, Fault>) -> bool {
    match types_named(before, decls, decls.len()) {
        Err(e) => after == Err::<LowerView, Fault>(e),
        Ok(s) => are_wired_types(s, decls, decls.len(), after),
    }
}

/// A new variable in scope.
pub open spec fn with_variable(s: LowerView, name: Seq<char>, ty: Type) -> Result<(Variable, LowerView), Fault> {
    if s.vars.len() >= u32::MAX {
        Err(Fault::TooManyNames)
    } else {
        let v = Variable(s.vars.len() as u32);
        Ok((v, LowerView { vars: s.vars.push(ty), scope: s.scope.push((name, v)), ..s }))
    }
}

/// The first `n` variables of a typed list.
pub open spec fn variables_in(s: LowerView, decls: Seq<AstTyped>, n: nat) -> Result<(Seq<Variable>, LowerView), Fault>
    decreases n,
{
    if n == 0 {
        Ok((seq![], s))
    } else {
        match variables_in(s, decls, (n - 1) as nat) {
            Err(e) => Err(e),
            Ok((vs, s1)) => match type_in(s1, decls[n - 1].ty) {
                Err(e) => Err(e),
                Ok((ty, s2)) => match with_variable(s2, decls[n - 1].name@, ty) {
                    Err(e) => Err(e),
                    Ok((v, s3)) => Ok((vs.push(v), s3)),
                },
            },
        }
    }
}

/// The variable of a name, the innermost first.
pub open spec fn variable_named(scope: Seq<(Seq<char>, Variable)>, name: Seq<char>) -> Option<Variable>
    decreases scope.len(),
{
    if scope.len() == 0 {
        None
    } else if scope.last().0 == name {
        Some(scope.last().1)
    } else {
        variable_named(scope.drop_last(), name)
    }
}

/// The term that a term of the syntax denotes.
pub open spec fn term_in(cx: LowerScope, s: LowerView, t: AstTerm) -> Result<Term, Fault> {
    match t {
        AstTerm::Variable(name) => match variable_named(s.scope, name@) {
            Some(v) => Ok(Term::Variable(v)),
            None => Err(Fault::UnboundVariable(name@)),
        },
        AstTerm::Name(name) => match cx.object(name@) {
            Some(o) => Ok(Term::Object(o)),
            None => Err(Fault::UnknownObject(name@)),
        },
        AstTerm::Function => Err(Fault::FunctionTerm),
    }
}

/// The first `n` terms of a list.
pub open spec fn terms_in(cx: LowerScope, s: LowerView, ts: Seq<AstTerm>, n: nat) -> Result<Seq<Term>, Fault>
    decreases n,
{
    if n == 0 {
        Ok(seq![])
    } else {
        match terms_in(cx, s, ts, (n - 1) as nat) {
            Err(e) => Err(e),
            Ok(rest) => match term_in(cx, s, ts[n - 1]) {
                Err(e) => Err(e),
                Ok(t) => Ok(rest.push(t)),
            },
        }
    }
}

/// The predicate of a name, declared if need be.
pub open spec fn with_predicate(s: LowerView, name: Seq<char>) -> Result<(Predicate, LowerView), Fault> {
    if s.names.len() >= u32::MAX {
        Err(Fault::TooManyNames)
    } else {
        match position_of(s.names, name) {
            Some(i) => Ok((Predicate(i as u32), s)),
            None => Ok(
                (
                    Predicate(s.names.len() as u32),
                    LowerView { names: s.names.push(name), signatures: s.signatures.push(seq![]), ..s },
                ),
            ),
        }
    }
}

/// An atomic formula: an atom or an equality.
pub enum AtomicView {
    Atom(AtomView),
    Equality(Term, Term),
}

/// What an atomic formula denotes.
pub open spec fn atomic_in(cx: LowerScope, s: LowerView, f: AstAtomic) -> Result<(AtomicView, LowerView), Fault> {
    match f {
        AstAtomic::Equality(l, r) => match term_in(cx, s, l) {
            Err(e) => Err(e),
            Ok(left) => match term_in(cx, s, r) {
                Err(e) => Err(e),
                Ok(right) => Ok((AtomicView::Equality(left, right), s)),
            },
        },
        AstAtomic::Predicate(name, args) => match with_predicate(s, name@) {
            Err(e) => Err(e),
            Ok((predicate, s1)) => match terms_in(cx, s1, args@, args@.len()) {
                Err(e) => Err(e),
                Ok(terms) => Ok((AtomicView::Atom(AtomView { predicate, terms }), s1)),
            },
        },
    }
}

/// An atomic formula or its negation as a formula.
pub open spec fn literal_form(a: AtomicView, negative: bool) -> FormulaView {
    match a {
        AtomicView::Atom(a) => if negative {
            FormulaView::Negation(a)
        } else {
            FormulaView::Atom(a)
        },
        AtomicView::Equality(l, r) => if negative {
            FormulaView::Inequality(l, None, r, None)
        } else {
            FormulaView::Equality(l, None, r, None)
        },
    }
}

/// The first `n` goal descriptions of a list, conjoined or disjoined.
pub open spec fn goals_in(cx: LowerScope, s: LowerView, gs: Seq<AstGoal>, conjoined: bool, n: nat) -> Result<(FormulaView, LowerView), Fault>
    decreases gs, n,
{
    if n == 0 || n > gs.len() {
        Ok(
            (
                if conjoined {
                    FormulaView::True
                } else {
                    FormulaView::False
                },
                s,
            ),
        )
    } else {
        match goals_in(cx, s, gs, conjoined, (n - 1) as nat) {
            Err(e) => Err(e),
            Ok((f, s1)) => match goal_in(cx, s1, gs[n - 1]) {
                Err(e) => Err(e),
                Ok((g, s2)) => Ok(
                    (
                        if conjoined {
                            both(f, g)
                        } else {
                            either(f, g)
                        },
                        s2,
                    ),
                ),
            },
        }
    }
}

/// What a goal description denotes. `imply a b` is `or (not a) b`.
pub open spec fn goal_in(cx: LowerScope, s: LowerView, g: AstGoal) -> Result<(FormulaView, LowerView), Fault>
    decreases g, 0nat,
{
    match g {
        AstGoal::Atomic(a) => match atomic_in(cx, s, a) {
            Err(e) => Err(e),
            Ok((a, s1)) => Ok((literal_form(a, false), s1)),
        },
        AstGoal::NotAtomic(a) => match atomic_in(cx, s, a) {
            Err(e) => Err(e),
            Ok((a, s1)) => Ok((literal_form(a, true), s1)),
        },
        AstGoal::And(gs) => goals_in(cx, s, gs@, true, gs@.len()),
        AstGoal::Or(gs) => goals_in(cx, s, gs@, false, gs@.len()),
        AstGoal::Not(g) => match goal_in(cx, s, *g) {
            Err(e) => Err(e),
            Ok((f, s1)) => Ok((negated(f), s1)),
        },
        AstGoal::Imply(a, b) => match goal_in(cx, s, *a) {
            Err(e) => Err(e),
            Ok((f, s1)) => match goal_in(cx, s1, *b) {
                Err(e) => Err(e),
                Ok((g, s2)) => Ok((either(negated(f), g), s2)),
            },
        },
        AstGoal::Exists(vars, body) => match variables_in(s, vars@, vars@.len()) {
            Err(e) => Err(e),
            Ok((params, s1)) => match goal_in(cx, s1, *body) {
                Err(e) => Err(e),
                Ok((f, s2)) => Ok((FormulaView::Exists(params, Box::new(f)), LowerView { scope: s.scope, ..s2 })),
            },
        },
        AstGoal::ForAll(vars, body) => match variables_in(s, vars@, vars@.len()) {
            Err(e) => Err(e),
            Ok((params, s1)) => match goal_in(cx, s1, *body) {
                Err(e) => Err(e),
                Ok((f, s2)) => Ok((FormulaView::Forall(params, Box::new(f)), LowerView { scope: s.scope, ..s2 })),
            },
        },
        AstGoal::FluentComparison => Err(Fault::UnsupportedFluent("fluent comparison"@)),
    }
}

/// The first `n` parts of a precondition, conjoined.
pub open spec fn preconditions_in(cx: LowerScope, s: LowerView, ps: Seq<AstPrecondition>, n: nat) -> Result<(FormulaView, LowerView), Fault>
    decreases ps, n,
{
    if n == 0 || n > ps.len() {
        Ok((FormulaView::True, s))
    } else {
        match preconditions_in(cx, s, ps, (n - 1) as nat) {
            Err(e) => Err(e),
            Ok((f, s1)) => match precondition_in(cx, s1, ps[n - 1]) {
                Err(e) => Err(e),
                Ok((g, s2)) => Ok((both(f, g), s2)),
            },
        }
    }
}

/// What a part of a precondition denotes.
pub open spec fn precondition_in(cx: LowerScope, s: LowerView, p: AstPrecondition) -> Result<(FormulaView, LowerView), Fault>
    decreases p, 0nat,
{
    match p {
        AstPrecondition::Goal(g) => goal_in(cx, s, g),
        AstPrecondition::Preference => Err(Fault::Preference),
        AstPrecondition::ForAll(vars, body) => match variables_in(s, vars@, vars@.len()) {
            Err(e) => Err(e),
            Ok((params, s1)) => match preconditions_in(cx, s1, body@, body@.len()) {
                Err(e) => Err(e),
                Ok((f, s2)) => Ok((FormulaView::Forall(params, Box::new(f)), LowerView { scope: s.scope, ..s2 })),
            },
        },
    }
}

/// What a primitive effect adds under a condition, for the given quantified
/// variables. Only the total cost can be increased, and only unconditionally.
pub open spec fn primitive_in(cx: LowerScope, s: LowerView, p: AstPrimitive, params: Seq<Variable>, cond: FormulaView) -> Result<LowerView, Fault> {
    match p {
        AstPrimitive::Add(a) => literal_effect(cx, s, a, false, params, cond),
        AstPrimitive::Delete(a) => literal_effect(cx, s, a, true, params, cond),
        AstPrimitive::Increase(f, amount) => if !cx.action_costs || params.len() > 0 || !(cond is True) || f@ != "total-cost"@ {
            Err(Fault::UnsupportedFluent("numeric assignment"@))
        } else {
            match amount {
                AstAmount::Number(n) => Ok(LowerView { cost: capped_sum(s.cost, n), ..s }),
                AstAmount::Function(name) => match cx.cost_function(name@) {
                    Some(f) => Ok(LowerView { cost_functions: s.cost_functions.push(f), ..s }),
                    None => Err(Fault::UnsupportedFluent("numeric assignment"@)),
                },
            }
        },
        AstPrimitive::AssignNumber => Err(Fault::UnsupportedFluent("numeric assignment"@)),
        AstPrimitive::AssignObject => Err(Fault::UnsupportedFluent("object assignment"@)),
    }
}

/// What an add or delete effect adds; its predicate is dynamic.
pub open spec fn literal_effect(cx: LowerScope, s: LowerView, a: AstAtomic, negative: bool, params: Seq<Variable>, cond: FormulaView) -> Result<
    LowerView,
    Fault,
> {
    match atomic_in(cx, s, a) {
        Err(e) => Err(e),
        Ok((AtomicView::Equality(_, _), _)) => Err(Fault::BadEqualityTerm),
        Ok((AtomicView::Atom(atom), s1)) => {
            let e = EffectView {
                parameters: params,
                condition: cond,
                literal: LiteralView { negative, atom },
                when: EffectTime::AtEnd,
                link_condition: FormulaView::True,
            };
            Ok(LowerView { dynamic: s1.dynamic.insert(atom.predicate), effects: s1.effects.push(e), ..s1 })
        },
    }
}

/// What the first `n` primitive effects of a list add.
pub open spec fn primitives_in(cx: LowerScope, s: LowerView, ps: Seq<AstPrimitive>, n: nat, params: Seq<Variable>, cond: FormulaView) -> Result<
    LowerView,
    Fault,
>
    decreases n,
{
    if n == 0 {
        Ok(s)
    } else {
        match primitives_in(cx, s, ps, (n - 1) as nat, params, cond) {
            Err(e) => Err(e),
            Ok(s1) => primitive_in(cx, s1, ps[n - 1], params, cond),
        }
    }
}

/// What the first `n` effects of a list add.
pub open spec fn effects_in(cx: LowerScope, s: LowerView, es: Seq<AstEffect>, n: nat, params: Seq<Variable>, cond: FormulaView) -> Result<
    LowerView,
    Fault,
>
    decreases es, n,
{
    if n == 0 || n > es.len() {
        Ok(s)
    } else {
        match effects_in(cx, s, es, (n - 1) as nat, params, cond) {
            Err(e) => Err(e),
            Ok(s1) => effect_in(cx, s1, es[n - 1], params, cond),
        }
    }
}

/// What an effect adds: its guard is conjoined with the condition, its variables
/// come behind the quantified ones.
pub open spec fn effect_in(cx: LowerScope, s: LowerView, e: AstEffect, params: Seq<Variable>, cond: FormulaView) -> Result<LowerView, Fault>
    decreases e, 0nat,
{
    match e {
        AstEffect::Primitive(p) => primitive_in(cx, s, p, params, cond),
        AstEffect::ForAll(vars, inner) => match variables_in(s, vars@, vars@.len()) {
            Err(e) => Err(e),
            Ok((vs, s1)) => match effects_in(cx, s1, inner@, inner@.len(), params + vs, cond) {
                Err(e) => Err(e),
                Ok(s2) => Ok(LowerView { scope: s.scope, ..s2 }),
            },
        },
        AstEffect::When(guard, ps) => match goal_in(cx, s, guard) {
            Err(e) => Err(e),
            Ok((g, s1)) => primitives_in(cx, s1, ps@, ps@.len(), params, both(cond, g)),
        },
    }
}

/// A lowered action schema.
pub struct SchemaView {
    pub id: usize,
    pub name: Seq<char>,
    pub parameters: Seq<Variable>,
    pub var_types: Seq<Type>,
    pub precondition: FormulaView,
    pub effects: Seq<EffectView>,
    pub cost: usize,
    pub cost_base: usize,
    pub cost_functions: Seq<Function>,
}

/// The mathematical form of an action schema.
pub open spec fn schema_view(a: ActionSchema) -> SchemaView {
    SchemaView {
        id: a.id,
        name: a.name@,
        parameters: a.parameters@,
        var_types: a.var_types@,
        precondition: a.precondition@,
        effects: effect_views(a.effects@),
        cost: a.cost,
        cost_base: a.cost_base,
        cost_functions: a.cost_functions@,
    }
}

/// The mathematical forms of a list of action schemas.
pub open spec fn schema_views(actions: Seq<ActionSchema>) -> Seq<SchemaView> {
    Seq::new(actions.len(), |i: int| schema_view(actions[i]))
}

/// The state at the start of an action: nothing in scope.
pub open spec fn fresh_scope(s: LowerView) -> LowerView {
    LowerView { vars: seq![], scope: seq![], effects: seq![], cost: 0, cost_functions: seq![], ..s }
}

/// The effects with their link conditions.
pub open spec fn all_strengthened(effects: Seq<EffectView>, precondition: FormulaView) -> Seq<EffectView> {
    Seq::new(effects.len(), |i: int| EffectView { link_condition: strengthened(effects, effects[i], precondition), ..effects[i] })
}

/// What an action definition denotes. Without action costs it costs one.
pub open spec fn action_in(cx: LowerScope, s: LowerView, a: AstAction, id: usize) -> Result<(SchemaView, LowerView), Fault> {
    match variables_in(fresh_scope(s), a.parameters@, a.parameters@.len()) {
        Err(e) => Err(e),
        Ok((parameters, s1)) => match preconditions_in(cx, s1, a.precondition@, a.precondition@.len()) {
            Err(e) => Err(e),
            Ok((precondition, s2)) => match effects_in(cx, s2, a.effects@, a.effects@.len(), seq![], FormulaView::True) {
                Err(e) => Err(e),
                Ok(s3) => {
                    let cost = if cx.action_costs {
                        s3.cost
                    } else {
                        1
                    };
                    Ok(
                        (
                            SchemaView {
                                id,
                                name: a.name@,
                                parameters,
                                var_types: s3.vars,
                                precondition,
                                effects: all_strengthened(s3.effects, precondition),
                                cost,
                                cost_base: cost,
                                cost_functions: s3.cost_functions,
                            },
                            s3,
                        ),
                    )
                },
            },
        },
    }
}

/// What the first `n` definitions of a domain's structure denote.
pub open spec fn actions_in(cx: LowerScope, s: LowerView, ds: Seq<AstStructure>, n: nat) -> Result<(Seq<SchemaView>, LowerView), Fault>
    decreases n,
{
    if n == 0 {
        Ok((seq![], s))
    } else {
        match actions_in(cx, s, ds, (n - 1) as nat) {
            Err(e) => Err(e),
            Ok((done, s1)) => match ds[n - 1] {
                AstStructure::DurativeAction => Err(Fault::DurativeAction),
                AstStructure::Derived => Err(Fault::DerivedPredicate),
                AstStructure::Action(a) => match action_in(cx, s1, a, (n - 1) as usize) {
                    Err(e) => Err(e),
                    Ok((schema, s2)) => Ok((done.push(schema), s2)),
                },
            },
        }
    }
}

/// The first `n` objects of a typed list, numbered from `first` on.
pub open spec fn objects_in(s: LowerView, decls: Seq<AstTyped>, first: nat, n: nat) -> Result<(Seq<ObjectView>, LowerView), Fault>
    decreases n,
{
    if n == 0 {
        Ok((seq![], s))
    } else {
        match objects_in(s, decls, first, (n - 1) as nat) {
            Err(e) => Err(e),
            Ok((done, s1)) => match type_in(s1, decls[n - 1].ty) {
                Err(e) => Err(e),
                Ok((ty, s2)) => if first + done.len() >= u32::MAX {
                    Err(Fault::TooManyNames)
                } else {
                    Ok((done.push(ObjectView { name: decls[n - 1].name@, ty }), s2))
                },
            },
        }
    }
}

/// The types of the first `n` parameters of a declaration.
pub open spec fn parameter_types(s: LowerView, decls: Seq<AstTyped>, n: nat) -> Result<(Seq<Type>, LowerView), Fault>
    decreases n,
{
    if n == 0 {
        Ok((seq![], s))
    } else {
        match parameter_types(s, decls, (n - 1) as nat) {
            Err(e) => Err(e),
            Ok((done, s1)) => match type_in(s1, decls[n - 1].ty) {
                Err(e) => Err(e),
                Ok((ty, s2)) => Ok((done.push(ty), s2)),
            },
        }
    }
}

/// The first `n` predicate declarations.
pub open spec fn predicates_in(s: LowerView, ds: Seq<AstSkeleton>, n: nat) -> Result<LowerView, Fault>
    decreases n,
{
    if n == 0 {
        Ok(s)
    } else {
        match predicates_in(s, ds, (n - 1) as nat) {
            Err(e) => Err(e),
            Ok(s1) => match with_predicate(s1, ds[n - 1].name@) {
                Err(e) => Err(e),
                Ok((p, s2)) => match parameter_types(s2, ds[n - 1].parameters@, ds[n - 1].parameters@.len()) {
                    Err(e) => Err(e),
                    Ok((tys, s3)) => Ok(
                        LowerView { signatures: s3.signatures.update(p.0 as int, s3.signatures[p.0 as int] + tys), ..s3 },
                    ),
                },
            },
        }
    }
}

/// The function tables of a domain.
#[verifier::ext_equal]
pub struct FunctionsView {
    pub names: Seq<Seq<char>>,
    pub signatures: Seq<Seq<Type>>,
}

/// The mathematical form of a function table.
pub open spec fn functions_view(f: FunctionTable) -> FunctionsView {
    FunctionsView { names: f.names(), signatures: f.signatures() }
}

/// A function table with a name, declared if need be.
pub open spec fn with_function(f: FunctionsView, name: Seq<char>) -> Result<(Function, FunctionsView), Fault> {
    if f.names.len() >= u32::MAX {
        Err(Fault::TooManyNames)
    } else {
        match position_of(f.names, name) {
            Some(i) => Ok((Function(i as u32), f)),
            None => Ok((Function(f.names.len() as u32), FunctionsView { names: f.names.push(name), signatures: f.signatures.push(seq![]) })),
        }
    }
}

/// The first `n` function declarations.
pub open spec fn functions_in(s: LowerView, ds: Seq<AstSkeleton>, n: nat) -> Result<(FunctionsView, LowerView), Fault>
    decreases n,
{
    if n == 0 {
        Ok((FunctionsView { names: seq![], signatures: seq![] }, s))
    } else {
        match functions_in(s, ds, (n - 1) as nat) {
            Err(e) => Err(e),
            Ok((f, s1)) => match with_function(f, ds[n - 1].name@) {
                Err(e) => Err(e),
                Ok((p, f1)) => match parameter_types(s1, ds[n - 1].parameters@, ds[n - 1].parameters@.len()) {
                    Err(e) => Err(e),
                    Ok((tys, s2)) => Ok(
                        (FunctionsView { names: f1.names, signatures: f1.signatures.update(p.0 as int, f1.signatures[p.0 as int] + tys) }, s2),
                    ),
                },
            },
        }
    }
}

/// A lowered domain.
pub struct DomainView {
    pub name: Seq<char>,
    pub requirements: Requirements,
    pub types: Seq<TypeView>,
    pub predicates: Seq<Seq<char>>,
    pub signatures: Seq<Seq<Type>>,
    pub dynamic: Set<Predicate>,
    pub functions: FunctionsView,
    pub constants: Seq<ObjectView>,
    pub actions: Seq<SchemaView>,
}

/// The mathematical form of a domain.
pub open spec fn domain_view(d: Domain) -> DomainView {
    DomainView {
        name: d.name@,
        requirements: d.requirements,
        types: d.types@,
        predicates: d.predicates.names(),
        signatures: d.predicates.signatures(),
        dynamic: d.predicates.dynamics(),
        functions: functions_view(d.functions),
        constants: d.constants.objects(),
        actions: schema_views(d.actions@),
    }
}

/// The state before any declaration.
pub open spec fn first_state() -> LowerView {
    LowerView {
        types: seq![TypeView { name: "object"@, components: seq![], supers: seq![], direct: seq![] }],
        names: seq![],
        signatures: seq![],
        dynamic: Set::empty(),
        vars: seq![],
        scope: seq![],
        effects: seq![],
        cost: 0,
        cost_functions: seq![],
    }
}

/// What a domain denotes behind its types: constants, predicates, functions and
/// actions, in that order.
pub open spec fn domain_from(d: AstDomain, r: Requirements, s: LowerView) -> Result<DomainView, Fault> {
    match objects_in(s, d.constants@, 0, d.constants@.len()) {
        Err(e) => Err(e),
        Ok((constants, s1)) => match predicates_in(s1, d.predicates@, d.predicates@.len()) {
            Err(e) => Err(e),
            Ok(s2) => match functions_in(s2, d.functions@, d.functions@.len()) {
                Err(e) => Err(e),
                Ok((functions, s3)) => {
                    let cx = LowerScope {
                        constants,
                        objects: seq![],
                        function_names: functions.names,
                        function_signatures: functions.signatures,
                        action_costs: r.action_costs,
                    };
                    match actions_in(cx, s3, d.structure@, d.structure@.len()) {
                        Err(e) => Err(e),
                        Ok((actions, s4)) => Ok(
                            DomainView {
                                name: d.name@,
                                requirements: r,
                                types: s4.types,
                                predicates: s4.names,
                                signatures: s4.signatures,
                                dynamic: s4.dynamic,
                                functions,
                                constants,
                                actions,
                            },
                        ),
                    }
                },
            },
        },
    }
}

/// Whether `res` is what lowering a domain leads to: its requirements are checked
/// first, its types declared next.
pub open spec fn is_lowered_domain(d: AstDomain, res: Result<DomainView, Fault>) -> bool {
    let r = requirements_of(d.requirements@, d.requirements@.len());
    match deferred(r) {
        Some(name) => res == Err::<DomainView, Fault>(Fault::UnsupportedRequirement(name)),
        None => exists|typed: Result<LowerView, Fault>| #[trigger]
            are_types(first_state(), d.types@, typed) && res == (match typed {
                Err(e) => Err(e),
                Ok(s) => domain_from(d, r, s),
            }),
    }
}

/// The arguments of a ground atom, the first `n`.
pub open spec fn arguments_in(cx: LowerScope, names: Seq<String>, n: nat) -> Result<Seq<Term>, Fault>
    decreases n,
{
    if n == 0 {
        Ok(seq![])
    } else {
        match arguments_in(cx, names, (n - 1) as nat) {
            Err(e) => Err(e),
            Ok(rest) => match cx.object(names[n - 1]@) {
                Some(o) => Ok(rest.push(Term::Object(o))),
                None => Err(Fault::UnknownObject(names[n - 1]@)),
            },
        }
    }
}

/// The initial state so far: its atoms and the values of cost functions.
#[verifier::ext_equal]
pub struct InitView {
    pub atoms: Seq<AtomView>,
    pub values: Seq<(Function, usize)>,
}

/// What an element of the initial state adds. A negated atom adds nothing, nor
/// does an equality: absence means false.
pub open spec fn init_element(cx: LowerScope, s: LowerView, i: InitView, e: AstInit) -> Result<(InitView, LowerView), Fault> {
    match e {
        AstInit::Atom { negated, predicate, arguments } => match with_predicate(s, predicate@) {
            Err(e) => Err(e),
            Ok((p, s1)) => match arguments_in(cx, arguments@, arguments@.len()) {
                Err(e) => Err(e),
                Ok(terms) => {
                    let atom = AtomView { predicate: p, terms };
                    if negated || i.atoms.contains(atom) {
                        Ok((i, s1))
                    } else {
                        Ok((InitView { atoms: i.atoms.push(atom), ..i }, s1))
                    }
                },
            },
        },
        AstInit::Equality => Ok((i, s)),
        AstInit::Timed => Err(Fault::UnsupportedRequirement("timed-initial-literals"@)),
        AstInit::Value(name, value) => match cx.cost_function(name@) {
            Some(f) => if cx.action_costs {
                Ok((InitView { values: i.values.push((f, value)), ..i }, s))
            } else {
                Err(Fault::UnsupportedFluent("init fluent value"@))
            },
            None => Err(Fault::UnsupportedFluent("init fluent value"@)),
        },
        AstInit::Fluent => Err(Fault::UnsupportedFluent("init fluent value"@)),
    }
}

/// What the first `n` elements of the initial state denote.
pub open spec fn init_in(cx: LowerScope, s: LowerView, es: Seq<AstInit>, n: nat) -> Result<(InitView, LowerView), Fault>
    decreases n,
{
    if n == 0 {
        Ok((InitView { atoms: seq![], values: seq![] }, s))
    } else {
        match init_in(cx, s, es, (n - 1) as nat) {
            Err(e) => Err(e),
            Ok((i, s1)) => init_element(cx, s1, i, es[n - 1]),
        }
    }
}

/// A lowered problem.
pub struct ProblemView {
    pub name: Seq<char>,
    pub domain_name: Seq<char>,
    pub objects: Seq<ObjectView>,
    pub init: InitView,
    pub goal: FormulaView,
    pub goal_var_types: Seq<Type>,
    pub minimize_cost: bool,
}

/// Whether a metric minimizes the total cost.
pub open spec fn minimizes_cost(m: Option<AstMetric>) -> bool {
    match m {
        Some(AstMetric::Minimize(f)) => f@ == "total-cost"@,
        _ => false,
    }
}

/// What a problem denotes against the tables of its domain.
pub open spec fn problem_from(p: AstProblem, cx: LowerScope, s: LowerView) -> Result<ProblemView, Fault> {
    match objects_in(s, p.objects@, cx.constants.len(), p.objects@.len()) {
        Err(e) => Err(e),
        Ok((objects, s1)) => {
            let cx1 = LowerScope { objects, ..cx };
            match init_in(cx1, s1, p.init@, p.init@.len()) {
                Err(e) => Err(e),
                Ok((init, s2)) => match preconditions_in(cx1, fresh_scope(s2), p.goals@, p.goals@.len()) {
                    Err(e) => Err(e),
                    Ok((goal, s3)) => Ok(
                        ProblemView {
                            name: p.name@,
                            domain_name: p.domain_name@,
                            objects,
                            init,
                            goal,
                            goal_var_types: s3.vars,
                            minimize_cost: minimizes_cost(p.metric),
                        },
                    ),
                },
            }
        },
    }
}

/// The mathematical forms of a list of atoms.
pub open spec fn atom_forms(atoms: Seq<Atom>) -> Seq<AtomView> {
    Seq::new(atoms.len(), |i: int| atoms[i]@)
}

/// The mathematical form of a problem.
pub open spec fn problem_view(p: Problem) -> ProblemView {
    ProblemView {
        name: p.name@,
        domain_name: p.domain_name@,
        objects: p.objects.objects(),
        init: InitView { atoms: atom_forms(p.init_order@), values: p.cost_values@ },
        goal: p.goal@,
        goal_var_types: p.goal_var_types@,
        minimize_cost: p.metric is Some,
    }
}

/// The state that a domain leaves.
pub open spec fn state_of(d: DomainView) -> LowerView {
    LowerView {
        types: d.types,
        names: d.predicates,
        signatures: d.signatures,
        dynamic: d.dynamic,
        vars: seq![],
        scope: seq![],
        effects: seq![],
        cost: 0,
        cost_functions: seq![],
    }
}

/// What a domain offers to its problems.
pub open spec fn scope_of(d: DomainView) -> LowerScope {
    LowerScope {
        constants: d.constants,
        objects: seq![],
        function_names: d.functions.names,
        function_signatures: d.functions.signatures,
        action_costs: d.requirements.action_costs,
    }
}

/// What lowering a problem against its domain leads to.
pub open spec fn lowered_problem(p: AstProblem, d: DomainView) -> Result<ProblemView, Fault> {
    match deferred(requirements_of(p.requirements@, p.requirements@.len())) {
        Some(name) => Err(Fault::UnsupportedRequirement(name)),
        None => problem_from(p, scope_of(d), state_of(d)),
    }
}

/// The value of a function in a list of values; the last one given.
pub open spec fn last_value(values: Seq<(Function, usize)>, f: Function) -> Option<usize>
    decreases values.len(),
{
    if values.len() == 0 {
        None
    } else if values.last().0 == f {
        Some(values.last().1)
    } else {
        last_value(values.drop_last(), f)
    }
}

/// The constant part of an action's cost with the first `n` cost functions.
pub open spec fn cost_upto(a: SchemaView, values: Seq<(Function, usize)>, n: nat) -> Option<usize>
    decreases n,
{
    if n == 0 {
        Some(a.cost_base)
    } else {
        match (cost_upto(a, values, (n - 1) as nat), last_value(values, a.cost_functions[n - 1])) {
            (Some(c), Some(v)) => Some(capped_sum(c, v)),
            _ => None,
        }
    }
}

/// The cost of an action where the functions have the given values.
pub open spec fn cost_in(a: SchemaView, values: Seq<(Function, usize)>) -> Option<usize> {
    cost_upto(a, values, a.cost_functions.len())
}

/// Whether a schema is another with its cost resolved.
pub open spec fn is_bound(before: SchemaView, after: SchemaView, values: Seq<(Function, usize)>) -> bool {
    cost_in(before, values) is Some && after == (SchemaView { cost: cost_in(before, values)->0, ..before })
}

/// Whether all schemas have their costs resolved.
pub open spec fn are_bound(before: Seq<SchemaView>, after: Seq<SchemaView>, values: Seq<(Function, usize)>) -> bool {
    after.len() == before.len() && forall|i: int| 0 <= i < before.len() ==> is_bound(before[i], #[trigger] after[i], values)
}

proof fn lemma_cost_kept(a: SchemaView, b: SchemaView, values: Seq<(Function, usize)>, n: nat)
    requires
        a.cost_base == b.cost_base,
        a.cost_functions == b.cost_functions,
    ensures
        cost_upto(a, values, n) == cost_upto(b, values, n),
    decreases n,
{
    if n > 0 {
        lemma_cost_kept(a, b, values, (n - 1) as nat);
    }
}

/// Binding costs starts from the declared costs: binding the costs of one problem
/// after those of another gives what binding them alone gives. In particular binding
/// costs twice is binding them once.
pub proof fn cost_binding_starts_anew(
    before: Seq<SchemaView>,
    mid: Seq<SchemaView>,
    after: Seq<SchemaView>,
    first: Seq<(Function, usize)>,
    second: Seq<(Function, usize)>,
)
    requires
        are_bound(before, mid, first),
        are_bound(mid, after, second),
    ensures
        are_bound(before, after, second),
        first == second ==> after == mid,
{
    assert forall|i: int| 0 <= i < before.len() implies is_bound(before[i], #[trigger] after[i], second) && (first == second ==> after[i] == mid[i]) by {
        assert(is_bound(before[i], mid[i], first) && is_bound(mid[i], after[i], second));
        lemma_cost_kept(before[i], mid[i], second, before[i].cost_functions.len());
    }
    if first == second {
        assert(after =~= mid);
    }
}

} // verus!
