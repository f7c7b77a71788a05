//! PDDL notation of the compiled task.
//!
//! Quantified formulas are treated as no constraint.
use std::rc::Rc;

use vstd::prelude::*;

use crate::compile::{compiled_step_views, guard_views, CompiledProblem, CompiledStep, OriginalGuard};
use crate::compile_model::{sanitized, CompiledStepView, CompiledView, OriginalGuardView};
use crate::compile::sanitize;
use crate::effect::{effect_views, Effect, EffectView};
use crate::formula::{forms, Formula, FormulaView, LiteralView};
use crate::lower_model::{domain_view, problem_view, schema_view, schema_views, DomainView, ProblemView, SchemaView};
use crate::pddl_emit::{any_types, has_types, is_declared, problem_names, push_atoms, with_atoms};
use crate::predicates::Predicate;
use crate::render::{find_type, type_at, variable_name, variable_text, Lexicon, Names};
use crate::search::SearchContext;
use crate::terms::{ObjectView, Term, TermTable, Variable};
use crate::text::{decimal, push_number};
use crate::types::Type;

verus! {

/// A text with a type behind it, if types are written.
pub open spec fn with_type_name(before: Seq<char>, n: Names, ty: Type, typed: bool) -> Seq<char> {
    if typed {
        before + " - "@ + n.type_text(ty)
    } else {
        before
    }
}

/// A text with the names of the declared types before number `i` behind it, each
/// after a space.
pub open spec fn with_type_names(before: Seq<char>, n: Names, i: nat) -> Seq<char>
    decreases i,
{
    if i == 0 {
        before
    } else {
        let rest = with_type_names(before, n, (i - 1) as nat);
        if is_declared(n.types, i - 1) {
            rest + " "@ + n.simple(Type((i - 1) as u32))
        } else {
            rest
        }
    }
}

/// A text with the first `i` parameters of a predicate behind it.
pub open spec fn with_arguments(before: Seq<char>, n: Names, tys: Seq<Type>, typed: bool, i: nat) -> Seq<char>
    decreases i,
{
    if i == 0 {
        before
    } else {
        with_type_name(
            with_arguments(before, n, tys, typed, (i - 1) as nat) + " ?a"@ + decimal((i - 1) as nat),
            n,
            tys[i - 1],
            typed,
        )
    }
}

/// A text with the declarations of the first `i` predicates behind it.
pub open spec fn with_declarations(before: Seq<char>, n: Names, signatures: Seq<Seq<Type>>, typed: bool, i: nat) -> Seq<char>
    decreases i,
{
    if i == 0 {
        before
    } else {
        let tys = signatures[i - 1];
        with_arguments(
            with_declarations(before, n, signatures, typed, (i - 1) as nat) + "    ("@ + n.predicates[i - 1],
            n,
            tys,
            typed,
            tys.len(),
        ) + ")\n"@
    }
}

/// A text with the indicators of the first `i` steps behind it.
pub open spec fn with_indicators(before: Seq<char>, steps: Seq<CompiledStepView>, i: nat) -> Seq<char>
    decreases i,
{
    if i == 0 {
        before
    } else {
        with_indicators(before, steps, (i - 1) as nat) + "    (exec-pos-"@ + decimal(steps[i - 1].id as nat) + ") (exec-neg-"@ + decimal(
            steps[i - 1].id as nat,
        ) + ")\n"@
    }
}

/// A text with the first `i` guards behind it.
pub open spec fn with_guards(before: Seq<char>, i: nat) -> Seq<char>
    decreases i,
{
    if i == 0 {
        before
    } else {
        with_guards(before, (i - 1) as nat) + "    (guard-"@ + decimal((i - 1) as nat) + ")\n"@
    }
}

/// A text with the first `i` of some numbered propositions behind it.
pub open spec fn with_numbered(before: Seq<char>, open: Seq<char>, ids: Seq<usize>, close: Seq<char>, i: nat) -> Seq<char>
    decreases i,
{
    if i == 0 {
        before
    } else {
        with_numbered(before, open, ids, close, (i - 1) as nat) + open + decimal(ids[i - 1] as nat) + close
    }
}

/// A text with a formula behind it, as parts of a conjunction.
pub open spec fn with_formula(before: Seq<char>, n: Names, f: FormulaView, subst: Seq<(Variable, Term)>) -> Seq<char>
    decreases f, 0nat,
{
    match f {
        FormulaView::True => before,
        FormulaView::False => before + " (or)"@,
        FormulaView::Atom(a) => before + " "@ + n.atom(a, subst),
        FormulaView::Negation(a) => before + " (not "@ + n.atom(a, subst) + ")"@,
        FormulaView::Equality(l, _, r, _) => before + " "@ + n.equality(l, r, subst),
        FormulaView::Inequality(l, _, r, _) => before + " (not "@ + n.equality(l, r, subst) + ")"@,
        FormulaView::Conjunction(cs) => with_formulas(before, n, cs, subst, cs.len()),
        FormulaView::Disjunction(ds) => with_formulas(before + " (or"@, n, ds, subst, ds.len()) + ")"@,
        FormulaView::Exists(_, _) => before,
        FormulaView::Forall(_, _) => before,
    }
}

pub open spec fn with_formulas(before: Seq<char>, n: Names, fs: Seq<FormulaView>, subst: Seq<(Variable, Term)>, i: nat) -> Seq<char>
    decreases fs, i,
{
    if i == 0 || i > fs.len() {
        before
    } else {
        with_formula(with_formulas(before, n, fs, subst, (i - 1) as nat), n, fs[i - 1], subst)
    }
}

/// A formula as a single expression.
pub open spec fn expression(n: Names, f: FormulaView, subst: Seq<(Variable, Term)>) -> Seq<char>
    decreases f, 0nat,
{
    match f {
        FormulaView::True => "(and)"@,
        FormulaView::False => "(or)"@,
        FormulaView::Atom(a) => n.atom(a, subst),
        FormulaView::Negation(a) => "(not "@ + n.atom(a, subst) + ")"@,
        FormulaView::Equality(l, _, r, _) => n.equality(l, r, subst),
        FormulaView::Inequality(l, _, r, _) => "(not "@ + n.equality(l, r, subst) + ")"@,
        FormulaView::Conjunction(cs) => expressions("(and"@, n, cs, subst, cs.len()) + ")"@,
        FormulaView::Disjunction(ds) => expressions("(or"@, n, ds, subst, ds.len()) + ")"@,
        FormulaView::Exists(_, _) => "(and)"@,
        FormulaView::Forall(_, _) => "(and)"@,
    }
}

pub open spec fn expressions(before: Seq<char>, n: Names, fs: Seq<FormulaView>, subst: Seq<(Variable, Term)>, i: nat) -> Seq<char>
    decreases fs, i,
{
    if i == 0 || i > fs.len() {
        before
    } else {
        expressions(before, n, fs, subst, (i - 1) as nat) + " "@ + expression(n, fs[i - 1], subst)
    }
}

/// A text with the first `i` of some variables behind it.
pub open spec fn with_variables(before: Seq<char>, n: Names, vs: Seq<Variable>, types: Seq<Type>, typed: bool, i: nat) -> Seq<char>
    decreases i,
{
    if i == 0 {
        before
    } else {
        let rest = with_variables(before, n, vs, types, typed, (i - 1) as nat);
        let apart = if i > 1 {
            rest + " "@
        } else {
            rest
        };
        with_type_name(apart + variable_name(vs[i - 1]), n, type_at(types, vs[i - 1]), typed)
    }
}

/// A text with the first `i` of some typed variables behind it.
pub open spec fn with_typed(before: Seq<char>, n: Names, ps: Seq<(Variable, Type)>, typed: bool, i: nat) -> Seq<char>
    decreases i,
{
    if i == 0 {
        before
    } else {
        let rest = with_typed(before, n, ps, typed, (i - 1) as nat);
        let apart = if i > 1 {
            rest + " "@
        } else {
            rest
        };
        with_type_name(apart + variable_name(ps[i - 1].0), n, ps[i - 1].1, typed)
    }
}

/// An effect.
pub open spec fn effect_expression(n: Names, e: EffectView, subst: Seq<(Variable, Term)>, types: Seq<Type>, typed: bool) -> Seq<char> {
    let literal = n.literal(e.literal, subst);
    let inner = if e.condition is True {
        literal
    } else {
        "(when "@ + expression(n, e.condition, subst) + " "@ + literal + ")"@
    };
    if e.parameters.len() == 0 {
        inner
    } else {
        with_variables("(forall ("@, n, e.parameters, types, typed, e.parameters.len()) + ") "@ + inner + ")"@
    }
}

/// A text with the first `i` of some effects behind it; one that cannot happen is
/// left out.
pub open spec fn with_all_effects(before: Seq<char>, n: Names, es: Seq<EffectView>, subst: Seq<(Variable, Term)>, types: Seq<Type>, typed: bool, i: nat) -> Seq<char>
    decreases i,
{
    if i == 0 {
        before
    } else {
        let rest = with_all_effects(before, n, es, subst, types, typed, (i - 1) as nat);
        if es[i - 1].condition is False {
            rest
        } else {
            rest + " "@ + effect_expression(n, es[i - 1], subst, types, typed)
        }
    }
}

/// A text with a committed step behind it.
pub open spec fn with_step(before: Seq<char>, n: Names, s: CompiledStepView, typed: bool) -> Seq<char> {
    let head = before + "  (:action "@ + s.name + "\n"@ + "   :parameters ("@;
    let parameters = with_typed(head, n, s.params, typed, s.params.len()) + ")\n"@;
    let own = with_formula(parameters + "   :precondition (and"@, n, s.precondition, s.subst);
    let once = own + " (exec-neg-"@ + decimal(s.id as nat) + ")"@;
    let after = with_numbered(once, " (exec-pos-"@, s.predecessors, ")"@, s.predecessors.len());
    let guarded = with_numbered(after, " (guard-"@, s.precond_guards, ")"@, s.precond_guards.len()) + ")\n"@;
    let effects = with_all_effects(guarded + "   :effect (and"@, n, s.effects, s.subst, s.var_types, typed, s.effects.len());
    let fired = effects + " (exec-pos-"@ + decimal(s.id as nat) + ") (not (exec-neg-"@ + decimal(s.id as nat) + "))"@;
    let taken = with_numbered(fired, " (not (guard-"@, s.del_guards, "))"@, s.del_guards.len());
    with_numbered(taken, " (guard-"@, s.add_guards, ")"@, s.add_guards.len()) + ")\n"@ + "  )\n"@
}

/// A text with the first `i` committed steps behind it.
pub open spec fn with_steps(before: Seq<char>, n: Names, steps: Seq<CompiledStepView>, typed: bool, i: nat) -> Seq<char>
    decreases i,
{
    if i == 0 {
        before
    } else {
        with_step(with_steps(before, n, steps, typed, (i - 1) as nat), n, steps[i - 1], typed)
    }
}

/// The first `i` equalities of an effect's arguments with the protected ones.
pub open spec fn with_matches(before: Seq<char>, n: Names, g: OriginalGuardView, i: nat) -> Seq<char>
    decreases i,
{
    if i == 0 {
        before
    } else {
        with_matches(before, n, g, (i - 1) as nat) + " "@ + n.equality(g.effect_args[i - 1], Term::Object(g.protected_args[i - 1]), seq![])
    }
}

/// The number of arguments that a guard compares.
pub open spec fn matched(g: OriginalGuardView) -> nat {
    if g.effect_args.len() < g.protected_args.len() {
        g.effect_args.len()
    } else {
        g.protected_args.len()
    }
}

/// A text with those of the first `i` guards that an action needs behind it.
pub open spec fn with_original_guards(before: Seq<char>, n: Names, gs: Seq<OriginalGuardView>, schema_index: usize, i: nat) -> Seq<char>
    decreases i,
{
    if i == 0 {
        before
    } else {
        let rest = with_original_guards(before, n, gs, schema_index, (i - 1) as nat);
        let g = gs[i - 1];
        if g.schema_index == schema_index {
            with_matches(rest + " (or (guard-"@ + decimal(g.guard_id as nat) + ") (not (and"@, n, g, matched(g)) + ")))"@
        } else {
            rest
        }
    }
}

/// A text with an insertable action behind it.
pub open spec fn with_original(before: Seq<char>, n: Names, gs: Seq<OriginalGuardView>, a: SchemaView, schema_index: usize, typed: bool) -> Seq<char> {
    let head = before + "  (:action "@ + sanitized(a.name) + "\n"@ + "   :parameters ("@;
    let parameters = with_variables(head, n, a.parameters, a.var_types, typed, a.parameters.len()) + ")\n"@;
    let own = with_formula(parameters + "   :precondition (and"@, n, a.precondition, seq![]);
    let guarded = with_original_guards(own, n, gs, schema_index, gs.len()) + ")\n"@;
    with_all_effects(guarded + "   :effect (and"@, n, a.effects, seq![], a.var_types, typed, a.effects.len()) + ")\n"@ + "  )\n"@
}

/// A text with the first `i` insertable actions behind it.
pub open spec fn with_originals(before: Seq<char>, n: Names, gs: Seq<OriginalGuardView>, actions: Seq<SchemaView>, typed: bool, i: nat) -> Seq<char>
    decreases i,
{
    if i == 0 {
        before
    } else {
        with_original(with_originals(before, n, gs, actions, typed, (i - 1) as nat), n, gs, actions[i - 1], (i - 1) as usize, typed)
    }
}

/// The domain of a compiled task.
pub open spec fn compiled_domain_text(c: CompiledView, d: DomainView, p: ProblemView) -> Seq<char> {
    let n = problem_names(d, p);
    let typed = has_types(d.types);
    let head = "(define (domain pocl-compiled)\n"@ + "  (:requirements :strips :equality"@;
    let typing = if typed {
        head + " :typing"@
    } else {
        head
    };
    let requirements = typing + " :disjunctive-preconditions :negative-preconditions :conditional-effects)\n"@;
    let types = if typed {
        with_type_names(requirements + "  (:types"@, n, d.types.len()) + ")\n"@
    } else {
        requirements
    };
    let predicates = with_declarations(types + "  (:predicates\n"@, n, d.signatures, typed, d.signatures.len());
    let indicators = with_indicators(predicates, c.steps, c.steps.len());
    let guards = with_guards(indicators, c.num_guards as nat) + "  )\n"@;
    let steps = with_steps(guards, n, c.steps, typed, c.steps.len());
    with_originals(steps, n, c.original_guards, d.actions, typed, d.actions.len()) + ")\n"@
}

/// A text with the first `i` of some objects behind it.
pub open spec fn with_all_objects(before: Seq<char>, n: Names, objects: Seq<ObjectView>, typed: bool, i: nat) -> Seq<char>
    decreases i,
{
    if i == 0 {
        before
    } else {
        with_type_name(with_all_objects(before, n, objects, typed, (i - 1) as nat) + " "@ + objects[i - 1].name, n, objects[i - 1].ty, typed)
    }
}

/// A text with the first `i` of some literals behind it.
pub open spec fn with_literals(before: Seq<char>, n: Names, ls: Seq<LiteralView>, i: nat) -> Seq<char>
    decreases i,
{
    if i == 0 {
        before
    } else {
        with_literals(before, n, ls, (i - 1) as nat) + " "@ + n.literal(ls[i - 1], seq![])
    }
}

/// A text with an indicator of the first `i` steps behind it.
pub open spec fn with_flags(before: Seq<char>, open: Seq<char>, steps: Seq<CompiledStepView>, i: nat) -> Seq<char>
    decreases i,
{
    if i == 0 {
        before
    } else {
        with_flags(before, open, steps, (i - 1) as nat) + open + decimal(steps[i - 1].id as nat) + ")"@
    }
}

/// The problem of a compiled task.
pub open spec fn compiled_problem_text(c: CompiledView, d: DomainView, p: ProblemView) -> Seq<char> {
    let n = problem_names(d, p);
    let typed = has_types(d.types);
    let head = "(define (problem pocl-compiled-prob)\n"@ + "  (:domain pocl-compiled)\n"@;
    let objects = if d.constants.len() + p.objects.len() > 0 {
        with_all_objects(
            with_all_objects(head + "  (:objects"@, n, d.constants, typed, d.constants.len()),
            n,
            p.objects,
            typed,
            p.objects.len(),
        ) + ")\n"@
    } else {
        head
    };
    let atoms = with_atoms(objects + "  (:init"@, n, p.init.atoms, p.init.atoms.len());
    let pending = with_flags(atoms, " (exec-neg-"@, c.steps, c.steps.len());
    let init = with_numbered(pending, " (guard-"@, c.init_guards, ")"@, c.init_guards.len()) + ")\n"@;
    let goal = with_literals(init + "  (:goal (and"@, n, c.goal, c.goal.len());
    with_flags(goal, " (exec-pos-"@, c.steps, c.steps.len()) + "))\n"@ + ")\n"@
}

fn push_type_name(out: &mut String, lex: &Lexicon, ty: Type, typed: bool)
    requires
        lex.wf(),
    ensures
        final(out)@ == with_type_name(old(out)@, lex@, ty, typed),
{
    if typed {
        out.append(" - ");
        lex.push_type(out, ty);
    }
}

fn push_type_names(out: &mut String, lex: &Lexicon)
    requires
        lex.wf(),
    ensures
        final(out)@ == with_type_names(old(out)@, lex@, lex@.types.len()),
{
    let ghost head = out@;
    let types = lex.types;
    proof {
        types.lemma_wf();
    }
    let mut i: usize = 0;
    while i < types.len()
        invariant
            lex.wf(),
            types == lex.types,
            head == old(out)@,
            i <= types@.len(),
            types@.len() <= u32::MAX,
            out@ == with_type_names(head, lex@, i as nat),
        decreases types@.len() - i,
    {
        let t = Type(i as u32);
        if i > 0 && types.components(t).len() == 0 {
            out.append(" ");
            lex.push_simple(out, t);
        }
        i = i + 1;
    }
}

fn push_declarations(out: &mut String, lex: &Lexicon, typed: bool)
    requires
        lex.wf(),
    ensures
        final(out)@ == with_declarations(old(out)@, lex@, lex.predicates.signatures(), typed, lex.predicates.signatures().len()),
{
    let ghost head = out@;
    let table = lex.predicates;
    let ghost sigs = table.signatures();
    proof {
        table.lemma_wf();
    }
    let mut i: usize = 0;
    let n = table.len();
    while i < n
        invariant
            lex.wf(),
            table == lex.predicates,
            sigs == table.signatures(),
            sigs.len() == n,
            table.names().len() == n,
            n <= u32::MAX,
            head == old(out)@,
            i <= n,
            out@ == with_declarations(head, lex@, sigs, typed, i as nat),
        decreases n - i,
    {
        let p = Predicate(i as u32);
        out.append("    (");
        out.append(table.name(p));
        let tys = table.parameters(p);
        let ghost here = out@;
        let mut k: usize = 0;
        while k < tys.len()
            invariant
                lex.wf(),
                k <= tys@.len(),
                out@ == with_arguments(here, lex@, tys@, typed, k as nat),
            decreases tys@.len() - k,
        {
            out.append(" ?a");
            push_number(out, k as u128);
            push_type_name(out, lex, tys[k], typed);
            k = k + 1;
        }
        out.append(")\n");
        i = i + 1;
    }
}

fn push_numbered(out: &mut String, open: &str, ids: &Vec<usize>, close: &str)
    ensures
        final(out)@ == with_numbered(old(out)@, open@, ids@, close@, ids@.len()),
{
    let ghost head = out@;
    let mut i: usize = 0;
    while i < ids.len()
        invariant
            head == old(out)@,
            i <= ids@.len(),
            out@ == with_numbered(head, open@, ids@, close@, i as nat),
        decreases ids@.len() - i,
    {
        out.append(open);
        push_number(out, ids[i] as u128);
        out.append(close);
        i = i + 1;
    }
}

fn push_flags(out: &mut String, open: &str, steps: &Vec<CompiledStep>)
    ensures
        final(out)@ == with_flags(old(out)@, open@, compiled_step_views(steps@), steps@.len()),
{
    let ghost head = out@;
    let ghost all = compiled_step_views(steps@);
    let mut i: usize = 0;
    while i < steps.len()
        invariant
            head == old(out)@,
            all == compiled_step_views(steps@),
            i <= steps@.len(),
            out@ == with_flags(head, open@, all, i as nat),
        decreases steps@.len() - i,
    {
        out.append(open);
        push_number(out, steps[i].id as u128);
        out.append(")");
        i = i + 1;
    }
}

fn push_formula(out: &mut String, lex: &Lexicon, f: &Formula, subst: &Vec<(Variable, Term)>)
    requires
        lex.wf(),
    ensures
        final(out)@ == with_formula(old(out)@, lex@, f@, subst@),
    decreases f, 0nat,
{
    match f {
        Formula::True => {},
        Formula::False => out.append(" (or)"),
        Formula::Atom(a) => {
            out.append(" ");
            let text = lex.atom(a, subst);
            out.append(text.as_str());
        },
        Formula::Negation(a) => {
            out.append(" (not ");
            let text = lex.atom(a, subst);
            out.append(text.as_str());
            out.append(")");
        },
        Formula::Equality { left, right, .. } => {
            out.append(" ");
            let text = lex.equality(*left, *right, subst);
            out.append(text.as_str());
        },
        Formula::Inequality { left, right, .. } => {
            out.append(" (not ");
            let text = lex.equality(*left, *right, subst);
            out.append(text.as_str());
            out.append(")");
        },
        Formula::Conjunction(cs) => push_formulas(out, lex, cs, subst),
        Formula::Disjunction(ds) => {
            out.append(" (or");
            push_formulas(out, lex, ds, subst);
            out.append(")");
        },
        Formula::Exists { .. } => {},
        Formula::Forall { .. } => {},
    }
}

fn push_formulas(out: &mut String, lex: &Lexicon, fs: &Vec<Rc<Formula>>, subst: &Vec<(Variable, Term)>)
    requires
        lex.wf(),
    ensures
        final(out)@ == with_formulas(old(out)@, lex@, forms(fs@), subst@, fs@.len()),
    decreases fs, 0nat,
{
    let ghost head = out@;
    let ghost all = forms(fs@);
    let mut i: usize = 0;
    while i < fs.len()
        invariant
            lex.wf(),
            head == old(out)@,
            all == forms(fs@),
            all.len() == fs@.len(),
            i <= fs@.len(),
            out@ == with_formulas(head, lex@, all, subst@, i as nat),
        decreases fs@.len() - i,
    {
        assert(all[i as int] == fs@[i as int]@);
        push_formula(out, lex, &fs[i], subst);
        i = i + 1;
    }
}

fn render_expression(lex: &Lexicon, f: &Formula, subst: &Vec<(Variable, Term)>) -> (res: String)
    requires
        lex.wf(),
    ensures
        res@ == expression(lex@, f@, subst@),
    decreases f, 0nat,
{
    match f {
        Formula::True => "(and)".to_string(),
        Formula::False => "(or)".to_string(),
        Formula::Atom(a) => lex.atom(a, subst),
        Formula::Negation(a) => {
            let mut out = "(not ".to_string();
            let text = lex.atom(a, subst);
            out.append(text.as_str());
            out.append(")");
            out
        },
        Formula::Equality { left, right, .. } => lex.equality(*left, *right, subst),
        Formula::Inequality { left, right, .. } => {
            let mut out = "(not ".to_string();
            let text = lex.equality(*left, *right, subst);
            out.append(text.as_str());
            out.append(")");
            out
        },
        Formula::Conjunction(cs) => {
            let mut out = "(and".to_string();
            push_expressions(&mut out, lex, cs, subst);
            out.append(")");
            out
        },
        Formula::Disjunction(ds) => {
            let mut out = "(or".to_string();
            push_expressions(&mut out, lex, ds, subst);
            out.append(")");
            out
        },
        Formula::Exists { .. } => "(and)".to_string(),
        Formula::Forall { .. } => "(and)".to_string(),
    }
}

fn push_expressions(out: &mut String, lex: &Lexicon, fs: &Vec<Rc<Formula>>, subst: &Vec<(Variable, Term)>)
    requires
        lex.wf(),
    ensures
        final(out)@ == expressions(old(out)@, lex@, forms(fs@), subst@, fs@.len()),
    decreases fs, 0nat,
{
    let ghost head = out@;
    let ghost all = forms(fs@);
    let mut i: usize = 0;
    while i < fs.len()
        invariant
            lex.wf(),
            head == old(out)@,
            all == forms(fs@),
            all.len() == fs@.len(),
            i <= fs@.len(),
            out@ == expressions(head, lex@, all, subst@, i as nat),
        decreases fs@.len() - i,
    {
        assert(all[i as int] == fs@[i as int]@);
        out.append(" ");
        let text = render_expression(lex, &fs[i], subst);
        out.append(text.as_str());
        i = i + 1;
    }
}

fn push_variables(out: &mut String, lex: &Lexicon, vs: &Vec<Variable>, types: &Vec<Type>, typed: bool)
    requires
        lex.wf(),
    ensures
        final(out)@ == with_variables(old(out)@, lex@, vs@, types@, typed, vs@.len()),
{
    let ghost head = out@;
    let mut i: usize = 0;
    while i < vs.len()
        invariant
            lex.wf(),
            head == old(out)@,
            i <= vs@.len(),
            out@ == with_variables(head, lex@, vs@, types@, typed, i as nat),
        decreases vs@.len() - i,
    {
        if i > 0 {
            out.append(" ");
        }
        let text = variable_text(vs[i]);
        out.append(text.as_str());
        push_type_name(out, lex, find_type(types, vs[i]), typed);
        i = i + 1;
    }
}

fn push_typed(out: &mut String, lex: &Lexicon, ps: &Vec<(Variable, Type)>, typed: bool)
    requires
        lex.wf(),
    ensures
        final(out)@ == with_typed(old(out)@, lex@, ps@, typed, ps@.len()),
{
    let ghost head = out@;
    let mut i: usize = 0;
    while i < ps.len()
        invariant
            lex.wf(),
            head == old(out)@,
            i <= ps@.len(),
            out@ == with_typed(head, lex@, ps@, typed, i as nat),
        decreases ps@.len() - i,
    {
        if i > 0 {
            out.append(" ");
        }
        let text = variable_text(ps[i].0);
        out.append(text.as_str());
        push_type_name(out, lex, ps[i].1, typed);
        i = i + 1;
    }
}

fn render_effect(lex: &Lexicon, e: &Effect, subst: &Vec<(Variable, Term)>, types: &Vec<Type>, typed: bool) -> (res: String)
    requires
        lex.wf(),
    ensures
        res@ == effect_expression(lex@, e@, subst@, types@, typed),
{
    let literal = lex.literal(&e.literal, subst);
    let inner = if e.condition.tautology() {
        literal
    } else {
        let mut out = "(when ".to_string();
        let cond = render_expression(lex, &e.condition, subst);
        out.append(cond.as_str());
        out.append(" ");
        out.append(literal.as_str());
        out.append(")");
        out
    };
    if e.parameters.len() == 0 {
        inner
    } else {
        let mut out = "(forall (".to_string();
        push_variables(&mut out, lex, &e.parameters, types, typed);
        out.append(") ");
        out.append(inner.as_str());
        out.append(")");
        out
    }
}

fn push_effects(out: &mut String, lex: &Lexicon, es: &Vec<Effect>, subst: &Vec<(Variable, Term)>, types: &Vec<Type>, typed: bool)
    requires
        lex.wf(),
    ensures
        final(out)@ == with_all_effects(old(out)@, lex@, effect_views(es@), subst@, types@, typed, es@.len()),
{
    let ghost head = out@;
    let ghost all = effect_views(es@);
    let mut i: usize = 0;
    while i < es.len()
        invariant
            lex.wf(),
            head == old(out)@,
            all == effect_views(es@),
            i <= es@.len(),
            out@ == with_all_effects(head, lex@, all, subst@, types@, typed, i as nat),
        decreases es@.len() - i,
    {
        assert(all[i as int] == es@[i as int]@);
        if !es[i].condition.contradiction() {
            out.append(" ");
            let text = render_effect(lex, &es[i], subst, types, typed);
            out.append(text.as_str());
        }
        i = i + 1;
    }
}

fn push_step(out: &mut String, lex: &Lexicon, s: &CompiledStep, typed: bool)
    requires
        lex.wf(),
    ensures
        final(out)@ == with_step(old(out)@, lex@, s@, typed),
{
    out.append("  (:action ");
    out.append(s.name.as_str());
    out.append("\n");
    out.append("   :parameters (");
    push_typed(out, lex, &s.params, typed);
    out.append(")\n");
    out.append("   :precondition (and");
    push_formula(out, lex, &s.precondition, &s.subst);
    out.append(" (exec-neg-");
    push_number(out, s.id as u128);
    out.append(")");
    push_numbered(out, " (exec-pos-", &s.predecessors, ")");
    push_numbered(out, " (guard-", &s.precond_guards, ")");
    out.append(")\n");
    out.append("   :effect (and");
    push_effects(out, lex, &s.effects, &s.subst, &s.var_types, typed);
    out.append(" (exec-pos-");
    push_number(out, s.id as u128);
    out.append(") (not (exec-neg-");
    push_number(out, s.id as u128);
    out.append("))");
    push_numbered(out, " (not (guard-", &s.del_guards, "))");
    push_numbered(out, " (guard-", &s.add_guards, ")");
    out.append(")\n");
    out.append("  )\n");
}

fn push_original_guards(out: &mut String, lex: &Lexicon, gs: &Vec<OriginalGuard>, schema_index: usize)
    requires
        lex.wf(),
    ensures
        final(out)@ == with_original_guards(old(out)@, lex@, guard_views(gs@), schema_index, gs@.len()),
{
    let none: Vec<(Variable, Term)> = Vec::new();
    assert(none@ =~= seq![]);
    let ghost head = out@;
    let ghost all = guard_views(gs@);
    let mut i: usize = 0;
    while i < gs.len()
        invariant
            lex.wf(),
            head == old(out)@,
            none@ == Seq::<(Variable, Term)>::empty(),
            all == guard_views(gs@),
            i <= gs@.len(),
            out@ == with_original_guards(head, lex@, all, schema_index, i as nat),
        decreases gs@.len() - i,
    {
        let g = &gs[i];
        assert(all[i as int] == g@);
        if g.schema_index == schema_index {
            out.append(" (or (guard-");
            push_number(out, g.guard_id as u128);
            out.append(") (not (and");
            let ghost here = out@;
            let mut k: usize = 0;
            while k < g.effect_args.len() && k < g.protected_args.len()
                invariant
                    lex.wf(),
                    none@ == Seq::<(Variable, Term)>::empty(),
                    k <= matched(g@),
                    out@ == with_matches(here, lex@, g@, k as nat),
                decreases g.effect_args@.len() - k,
            {
                out.append(" ");
                let text = lex.equality(g.effect_args[k], Term::Object(g.protected_args[k]), &none);
                out.append(text.as_str());
                k = k + 1;
            }
            out.append(")))");
        }
        i = i + 1;
    }
}

fn push_owned(out: &mut String, lex: &Lexicon, table: &TermTable, typed: bool)
    requires
        lex.wf(),
        table.wf(),
    ensures
        final(out)@ == with_all_objects(old(out)@, lex@, table.objects(), typed, table.objects().len()),
{
    let ghost head = out@;
    let owned = table.owned_objects();
    let mut i: usize = 0;
    while i < owned.len()
        invariant
            lex.wf(),
            table.wf(),
            head == old(out)@,
            owned@.len() == table.objects().len(),
            forall|k: int|
                0 <= k < owned@.len() ==> (#[trigger] owned@[k]).0.0 == table.first() + k && owned@[k].1 == table.objects()[k].ty,
            i <= owned@.len(),
            out@ == with_all_objects(head, lex@, table.objects(), typed, i as nat),
        decreases owned@.len() - i,
    {
        out.append(" ");
        assert(owned@[i as int].0.0 == table.first() + i);
        out.append(table.object_name(None, owned[i].0));
        push_type_name(out, lex, owned[i].1, typed);
        i = i + 1;
    }
}

impl CompiledProblem {
    /// Renders to a `(domain, problem)` pair of PDDL texts.
    pub fn emit_pddl(&self, ctx: &SearchContext) -> (res: (String, String))
        requires
            ctx.wf(),
        ensures
            res.0@ == compiled_domain_text(self@, domain_view(*ctx.domain), problem_view(*ctx.problem)),
            res.1@ == compiled_problem_text(self@, domain_view(*ctx.domain), problem_view(*ctx.problem)),
    {
        (self.emit_domain(ctx), self.emit_problem(ctx))
    }

    fn emit_domain(&self, ctx: &SearchContext) -> (res: String)
        requires
            ctx.wf(),
        ensures
            res@ == compiled_domain_text(self@, domain_view(*ctx.domain), problem_view(*ctx.problem)),
    {
        let domain = ctx.domain;
        let lex = Lexicon {
            types: &domain.types,
            predicates: &domain.predicates,
            constants: &domain.constants,
            objects: Some(&ctx.problem.objects),
        };
        assert(lex@ =~= problem_names(domain_view(*domain), problem_view(*ctx.problem)));
        let typed = any_types(&domain.types);
        let mut out = "(define (domain pocl-compiled)\n".to_string();
        out.append("  (:requirements :strips :equality");
        if typed {
            out.append(" :typing");
        }
        out.append(" :disjunctive-preconditions :negative-preconditions :conditional-effects)\n");
        if typed {
            out.append("  (:types");
            push_type_names(&mut out, &lex);
            out.append(")\n");
        }
        out.append("  (:predicates\n");
        push_declarations(&mut out, &lex, typed);
        self.push_propositions(&mut out);
        out.append("  )\n");
        self.push_actions(&mut out, &lex, ctx, typed);
        out.append(")\n");
        out
    }

    /// Declares the indicators and the guards.
    fn push_propositions(&self, out: &mut String)
        ensures
            final(out)@ == with_guards(with_indicators(old(out)@, self@.steps, self@.steps.len()), self.num_guards as nat),
    {
        let ghost head = out@;
        let mut i: usize = 0;
        while i < self.steps.len()
            invariant
                head == old(out)@,
                i <= self.steps@.len(),
                out@ == with_indicators(head, self@.steps, i as nat),
            decreases self.steps@.len() - i,
        {
            out.append("    (exec-pos-");
            push_number(out, self.steps[i].id as u128);
            out.append(") (exec-neg-");
            push_number(out, self.steps[i].id as u128);
            out.append(")\n");
            i = i + 1;
        }
        let ghost here = out@;
        let mut g: usize = 0;
        while g < self.num_guards
            invariant
                g <= self.num_guards,
                out@ == with_guards(here, g as nat),
            decreases self.num_guards - g,
        {
            out.append("    (guard-");
            push_number(out, g as u128);
            out.append(")\n");
            g = g + 1;
        }
    }

    /// The committed steps, then the insertable actions.
    fn push_actions(&self, out: &mut String, lex: &Lexicon, ctx: &SearchContext, typed: bool)
        requires
            lex.wf(),
        ensures
            final(out)@ == with_originals(
                with_steps(old(out)@, lex@, self@.steps, typed, self@.steps.len()),
                lex@,
                self@.original_guards,
                schema_views(ctx.domain.actions@),
                typed,
                ctx.domain.actions@.len(),
            ),
    {
        let none: Vec<(Variable, Term)> = Vec::new();
        assert(none@ =~= seq![]);
        let ghost head = out@;
        let mut i: usize = 0;
        while i < self.steps.len()
            invariant
                lex.wf(),
                head == old(out)@,
                i <= self.steps@.len(),
                out@ == with_steps(head, lex@, self@.steps, typed, i as nat),
            decreases self.steps@.len() - i,
        {
            push_step(out, lex, &self.steps[i], typed);
            i = i + 1;
        }
        let ghost here = out@;
        let ghost all = schema_views(ctx.domain.actions@);
        let mut k: usize = 0;
        while k < ctx.domain.actions.len()
            invariant
                lex.wf(),
                none@ == Seq::<(Variable, Term)>::empty(),
                all == schema_views(ctx.domain.actions@),
                k <= ctx.domain.actions@.len(),
                out@ == with_originals(here, lex@, self@.original_guards, all, typed, k as nat),
            decreases ctx.domain.actions@.len() - k,
        {
            let a = &ctx.domain.actions[k];
            assert(all[k as int] == schema_view(*a));
            out.append("  (:action ");
            let name = sanitize(a.name.as_str());
            out.append(name.as_str());
            out.append("\n");
            out.append("   :parameters (");
            push_variables(out, lex, &a.parameters, &a.var_types, typed);
            out.append(")\n");
            out.append("   :precondition (and");
            push_formula(out, lex, &a.precondition, &none);
            push_original_guards(out, lex, &self.original_guards, k);
            out.append(")\n");
            out.append("   :effect (and");
            push_effects(out, lex, &a.effects, &none, &a.var_types, typed);
            out.append(")\n");
            out.append("  )\n");
            k = k + 1;
        }
    }

    fn emit_problem(&self, ctx: &SearchContext) -> (res: String)
        requires
            ctx.wf(),
        ensures
            res@ == compiled_problem_text(self@, domain_view(*ctx.domain), problem_view(*ctx.problem)),
    {
        let domain = ctx.domain;
        let problem = ctx.problem;
        let lex = Lexicon {
            types: &domain.types,
            predicates: &domain.predicates,
            constants: &domain.constants,
            objects: Some(&problem.objects),
        };
        assert(lex@ =~= problem_names(domain_view(*domain), problem_view(*problem)));
        let typed = any_types(&domain.types);
        let mut out = "(define (problem pocl-compiled-prob)\n".to_string();
        out.append("  (:domain pocl-compiled)\n");
        if domain.constants.len() > 0 || problem.objects.len() > 0 {
            out.append("  (:objects");
            push_owned(&mut out, &lex, &domain.constants, typed);
            push_owned(&mut out, &lex, &problem.objects, typed);
            out.append(")\n");
        }
        out.append("  (:init");
        push_atoms(&mut out, &lex, &problem.init_order);
        push_flags(&mut out, " (exec-neg-", &self.steps);
        push_numbered(&mut out, " (guard-", &self.init_guards, ")");
        out.append(")\n");
        out.append("  (:goal (and");
        let none: Vec<(Variable, Term)> = Vec::new();
        assert(none@ =~= seq![]);
        let ghost here = out@;
        let mut i: usize = 0;
        while i < self.goal.len()
            invariant
                lex.wf(),
                none@ == Seq::<(Variable, Term)>::empty(),
                i <= self.goal@.len(),
                out@ == with_literals(here, lex@, self@.goal, i as nat),
            decreases self.goal@.len() - i,
        {
            out.append(" ");
            let text = lex.literal(&self.goal[i], &none);
            out.append(text.as_str());
            i = i + 1;
        }
        push_flags(&mut out, " (exec-pos-", &self.steps);
        out.append("))\n");
        out.append(")\n");
        out
    }
}

} // verus!
