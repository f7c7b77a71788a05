//! Faithful PDDL emission of the original lowered classical task.
//!
//! This is deliberately separate from the partial-plan compilation, which relaxes
//! quantified formulas and non-conjunctive goals away: the finite-domain grounder
//! is to see the original task semantics.
use vstd::prelude::*;

use crate::action::ActionSchema;
use crate::domain::Domain;
use crate::effect::{effect_views, Effect, EffectView};
use crate::formula::Atom;
use crate::lower_model::{
    atom_forms, domain_view, names_of, problem_view, schema_view, schema_views, DomainView, ProblemView, SchemaView,
};
use crate::predicates::Predicate;
use crate::problem::Problem;
use crate::render::{Lexicon, Names};
use crate::requirements::Requirements;
use crate::terms::{ObjectView, TermTable, Variable, Term};
use crate::text::{decimal, push_number};
use crate::types::{all_parts, Type, TypeView, Types, OBJECT};

verus! {

/// The names in a domain.
pub open spec fn domain_names(d: DomainView) -> Names {
    Names { types: d.types, predicates: d.predicates, objects: names_of(d.constants) + seq![] }
}

/// The names in a problem of a domain.
pub open spec fn problem_names(d: DomainView, p: ProblemView) -> Names {
    Names { types: d.types, predicates: d.predicates, objects: names_of(d.constants) + names_of(p.objects) }
}

/// Whether a type is simple and not `object`.
pub open spec fn is_declared(types: Seq<TypeView>, i: int) -> bool {
    0 < i < types.len() && types[i].components.len() == 0
}

/// Whether there is a simple type besides `object`.
pub open spec fn has_types(types: Seq<TypeView>) -> bool {
    exists|i: int| is_declared(types, i)
}

/// A text with a requirement behind it if it is enabled.
pub open spec fn with_flag(before: Seq<char>, enabled: bool, name: Seq<char>) -> Seq<char> {
    if enabled {
        before + " "@ + name
    } else {
        before
    }
}

/// The requirements line.
pub open spec fn with_requirements(before: Seq<char>, typed: bool, r: Requirements) -> Seq<char> {
    let s0 = before + "  (:requirements :strips"@;
    let s1 = with_flag(s0, typed, ":typing"@);
    let s2 = with_flag(s1, r.negative_preconditions, ":negative-preconditions"@);
    let s3 = with_flag(s2, r.disjunctive_preconditions, ":disjunctive-preconditions"@);
    let s4 = with_flag(s3, r.equality, ":equality"@);
    let s5 = with_flag(s4, r.existential_preconditions, ":existential-preconditions"@);
    let s6 = with_flag(s5, r.universal_preconditions, ":universal-preconditions"@);
    let s7 = with_flag(s6, r.conditional_effects, ":conditional-effects"@);
    let s8 = with_flag(s7, r.action_costs, ":action-costs"@);
    s8 + ")\n"@
}

/// The parents of a type: `object` where none was declared, and a choice where
/// there are several.
pub open spec fn parents_text(n: Names, parents: Seq<Type>) -> Seq<char> {
    if parents.len() == 0 {
        n.simple(Type(OBJECT))
    } else if parents.len() == 1 {
        n.simple(parents[0])
    } else {
        n.choice(parents)
    }
}

/// A text with the declarations of the types before number `i` behind it.
pub open spec fn with_types(before: Seq<char>, n: Names, i: nat) -> Seq<char>
    decreases i,
{
    if i == 0 {
        before
    } else {
        let rest = with_types(before, n, (i - 1) as nat);
        if is_declared(n.types, i - 1) {
            rest + " "@ + n.simple(Type((i - 1) as u32)) + " - "@ + parents_text(n, all_parts(n.types, n.types[i - 1].direct))
        } else {
            rest
        }
    }
}

/// A text with the first `i` of some objects behind it.
pub open spec fn with_objects(before: Seq<char>, n: Names, objects: Seq<ObjectView>, i: nat) -> Seq<char>
    decreases i,
{
    if i == 0 {
        before
    } else {
        with_objects(before, n, objects, (i - 1) as nat) + " "@ + objects[i - 1].name + " - "@ + n.type_text(objects[i - 1].ty)
    }
}

/// A text with the first `i` parameters of a predicate behind it.
pub open spec fn with_signature(before: Seq<char>, n: Names, tys: Seq<Type>, i: nat) -> Seq<char>
    decreases i,
{
    if i == 0 {
        before
    } else {
        with_signature(before, n, tys, (i - 1) as nat) + " ?p"@ + decimal((i - 1) as nat) + " - "@ + n.type_text(tys[i - 1])
    }
}

/// A text with the declarations of the first `i` predicates behind it.
pub open spec fn with_predicates(before: Seq<char>, n: Names, signatures: Seq<Seq<Type>>, i: nat) -> Seq<char>
    decreases i,
{
    if i == 0 {
        before
    } else {
        let tys = signatures[i - 1];
        with_signature(
            with_predicates(before, n, signatures, (i - 1) as nat) + "    ("@ + n.predicates[i - 1],
            n,
            tys,
            tys.len(),
        ) + ")\n"@
    }
}

/// An effect, with its condition and its quantified variables.
pub open spec fn effect_text(n: Names, e: EffectView, types: Seq<Type>) -> Seq<char> {
    let literal = n.literal(e.literal, seq![]);
    let inner = if e.condition is True {
        literal
    } else {
        "(when "@ + n.formula(e.condition, types) + " "@ + literal + ")"@
    };
    if e.parameters.len() == 0 {
        inner
    } else {
        n.parameters("(forall ("@, e.parameters, types, e.parameters.len()) + ") "@ + inner + ")"@
    }
}

/// A text with the first `i` of some effects behind it.
pub open spec fn with_effects(before: Seq<char>, n: Names, es: Seq<EffectView>, types: Seq<Type>, i: nat) -> Seq<char>
    decreases i,
{
    if i == 0 {
        before
    } else {
        with_effects(before, n, es, types, (i - 1) as nat) + " "@ + effect_text(n, es[i - 1], types)
    }
}

/// A text with an action behind it.
pub open spec fn with_action(before: Seq<char>, n: Names, a: SchemaView, costs: bool) -> Seq<char> {
    let head = before + "  (:action "@ + a.name + "\n"@ + "    :parameters ("@;
    let parameters = n.parameters(head, a.parameters, a.var_types, a.parameters.len()) + ")\n"@;
    let precondition = parameters + "    :precondition "@ + n.formula(a.precondition, a.var_types) + "\n"@ + "    :effect (and"@;
    let effects = with_effects(precondition, n, a.effects, a.var_types, a.effects.len());
    let cost = if costs {
        effects + " (increase (total-cost) "@ + decimal(a.cost as nat) + ")"@
    } else {
        effects
    };
    cost + ")\n"@ + "  )\n"@
}

/// A text with the first `i` of some actions behind it.
pub open spec fn with_actions(before: Seq<char>, n: Names, actions: Seq<SchemaView>, costs: bool, i: nat) -> Seq<char>
    decreases i,
{
    if i == 0 {
        before
    } else {
        with_action(with_actions(before, n, actions, costs, (i - 1) as nat), n, actions[i - 1], costs)
    }
}

/// A domain as PDDL.
pub open spec fn domain_text(d: DomainView) -> Seq<char> {
    let n = domain_names(d);
    let head = "(define (domain "@ + d.name + ")\n"@;
    let requirements = with_requirements(head, has_types(d.types) || d.requirements.typing, d.requirements);
    let types = if has_types(d.types) {
        with_types(requirements + "  (:types"@, n, d.types.len()) + ")\n"@
    } else {
        requirements
    };
    let constants = if d.constants.len() > 0 {
        with_objects(types + "  (:constants"@, n, d.constants, d.constants.len()) + ")\n"@
    } else {
        types
    };
    let predicates = with_predicates(constants + "  (:predicates\n"@, n, d.signatures, d.signatures.len()) + "  )\n"@;
    let functions = if d.requirements.action_costs {
        predicates + "  (:functions (total-cost) - number)\n"@
    } else {
        predicates
    };
    with_actions(functions, n, d.actions, d.requirements.action_costs, d.actions.len()) + ")\n"@
}

/// A text with the first `i` of some initial atoms behind it.
pub open spec fn with_atoms(before: Seq<char>, n: Names, atoms: Seq<crate::formula::AtomView>, i: nat) -> Seq<char>
    decreases i,
{
    if i == 0 {
        before
    } else {
        with_atoms(before, n, atoms, (i - 1) as nat) + " "@ + n.atom(atoms[i - 1], seq![])
    }
}

/// A problem as PDDL.
pub open spec fn problem_text(d: DomainView, p: ProblemView) -> Seq<char> {
    let n = problem_names(d, p);
    let head = "(define (problem "@ + p.name + ")\n"@ + "  (:domain "@ + d.name + ")\n"@;
    let objects = if p.objects.len() > 0 {
        with_objects(head + "  (:objects"@, n, p.objects, p.objects.len()) + ")\n"@
    } else {
        head
    };
    let atoms = with_atoms(objects + "  (:init"@, n, p.init.atoms, p.init.atoms.len());
    let init = if d.requirements.action_costs {
        atoms + " (= (total-cost) 0)"@
    } else {
        atoms
    };
    let goal = init + ")\n"@ + "  (:goal "@ + n.formula(p.goal, p.goal_var_types) + ")\n"@;
    let metric = if p.minimize_cost {
        goal + "  (:metric minimize (total-cost))\n"@
    } else {
        goal
    };
    metric + ")\n"@
}

/// Emits the original lowered `(domain, problem)` pair without compiling a partial
/// plan or relaxing formulas.
pub fn emit_original(domain: &Domain, problem: &Problem) -> (res: (String, String))
    requires
        domain.wf(),
        problem.objects.wf(),
        problem.objects.first() == domain.constants.end(),
    ensures
        res.0@ == domain_text(domain_view(*domain)),
        res.1@ == problem_text(domain_view(*domain), problem_view(*problem)),
{
    (emit_domain(domain), emit_problem(domain, problem))
}

fn push_flag(out: &mut String, enabled: bool, name: &str)
    ensures
        final(out)@ == with_flag(old(out)@, enabled, name@),
{
    if enabled {
        out.append(" ");
        out.append(name);
    }
}

fn push_requirements(out: &mut String, typed: bool, r: &Requirements)
    ensures
        final(out)@ == with_requirements(old(out)@, typed, *r),
{
    out.append("  (:requirements :strips");
    push_flag(out, typed, ":typing");
    push_flag(out, r.negative_preconditions, ":negative-preconditions");
    push_flag(out, r.disjunctive_preconditions, ":disjunctive-preconditions");
    push_flag(out, r.equality, ":equality");
    push_flag(out, r.existential_preconditions, ":existential-preconditions");
    push_flag(out, r.universal_preconditions, ":universal-preconditions");
    push_flag(out, r.conditional_effects, ":conditional-effects");
    push_flag(out, r.action_costs, ":action-costs");
    out.append(")\n");
}

/// Whether there is a simple type besides `object`.
pub(crate) fn any_types(types: &Types) -> (res: bool)
    requires
        types.wf(),
    ensures
        res == has_types(types@),
{
    proof {
        types.lemma_wf();
    }
    let mut i: usize = 1;
    while i < types.len()
        invariant
            types.wf(),
            1 <= i,
            types@.len() <= u32::MAX,
            forall|j: int| is_declared(types@, j) ==> j >= i,
        decreases types@.len() - i,
    {
        if types.name_opt(Type(i as u32)).is_some() {
            assert(is_declared(types@, i as int));
            return true;
        }
        i = i + 1;
    }
    false
}

/// The parts of a list of types.
fn parts_of(types: &Types, members: &Vec<Type>) -> (res: Vec<Type>)
    requires
        types.wf(),
        crate::types::known_types(members@, types@.len()),
    ensures
        res@ == all_parts(types@, members@),
{
    let mut res: Vec<Type> = Vec::new();
    let mut i: usize = 0;
    assert(members@.take(0) =~= seq![]);
    while i < members.len()
        invariant
            types.wf(),
            crate::types::known_types(members@, types@.len()),
            i <= members@.len(),
            res@ == all_parts(types@, members@.take(i as int)),
        decreases members@.len() - i,
    {
        let ghost before = res@;
        let t = members[i];
        let comps = types.components(t);
        proof {
            assert(members@.take(i + 1).drop_last() =~= members@.take(i as int));
            assert(members@.take(i + 1).last() == t);
        }
        if comps.len() == 0 {
            res.push(t);
            assert(res@ =~= before + seq![t]);
        } else {
            let mut k: usize = 0;
            assert(before + comps@.take(0) =~= before);
            while k < comps.len()
                invariant
                    k <= comps@.len(),
                    res@ == before + comps@.take(k as int),
                decreases comps@.len() - k,
            {
                res.push(comps[k]);
                k = k + 1;
                assert(before + comps@.take(k as int) =~= (before + comps@.take(k - 1)).push(comps@[k - 1]));
            }
            assert(comps@.take(k as int) =~= comps@);
        }
        i = i + 1;
    }
    assert(members@.take(i as int) =~= members@);
    res
}

fn push_types(out: &mut String, lex: &Lexicon)
    requires
        lex.wf(),
    ensures
        final(out)@ == with_types(old(out)@, lex@, lex@.types.len()),
{
    let ghost head = out@;
    let types = lex.types;
    proof {
        types.lemma_wf();
    }
    let mut i: usize = 0;
    while i < types.len()
        invariant
            lex.wf(),
            types == lex.types,
            crate::types::well_typed(types@),
            head == old(out)@,
            i <= types@.len(),
            types@.len() <= u32::MAX,
            out@ == with_types(head, lex@, i as nat),
        decreases types@.len() - i,
    {
        let t = Type(i as u32);
        if i > 0 && types.components(t).len() == 0 {
            out.append(" ");
            lex.push_simple(out, t);
            out.append(" - ");
            assert(crate::types::known_types(types@[i as int].direct, types@.len()));
            let parents = parts_of(types, types.direct_supertypes(t));
            if parents.len() == 0 {
                lex.push_simple(out, Type(OBJECT));
            } else if parents.len() == 1 {
                lex.push_simple(out, parents[0]);
            } else {
                let text = lex.choice(&parents);
                out.append(text.as_str());
            }
        }
        i = i + 1;
    }
}

fn push_objects(out: &mut String, lex: &Lexicon, table: &TermTable)
    requires
        lex.wf(),
        table.wf(),
    ensures
        final(out)@ == with_objects(old(out)@, lex@, table.objects(), table.objects().len()),
{
    let ghost head = out@;
    let owned = table.owned_objects();
    let mut i: usize = 0;
    while i < owned.len()
        invariant
            lex.wf(),
            table.wf(),
            head == old(out)@,
            owned@.len() == table.objects().len(),
            forall|k: int|
                0 <= k < owned@.len() ==> (#[trigger] owned@[k]).0.0 == table.first() + k && owned@[k].1 == table.objects()[k].ty,
            i <= owned@.len(),
            out@ == with_objects(head, lex@, table.objects(), i as nat),
        decreases owned@.len() - i,
    {
        out.append(" ");
        assert(owned@[i as int].0.0 == table.first() + i);
        out.append(table.object_name(None, owned[i].0));
        out.append(" - ");
        lex.push_type(out, owned[i].1);
        i = i + 1;
    }
}

fn push_predicates(out: &mut String, lex: &Lexicon)
    requires
        lex.wf(),
    ensures
        final(out)@ == with_predicates(old(out)@, lex@, lex.predicates.signatures(), lex.predicates.signatures().len()),
{
    let ghost head = out@;
    let table = lex.predicates;
    let ghost sigs = table.signatures();
    proof {
        table.lemma_wf();
    }
    let mut i: usize = 0;
    let n = table.len();
    while i < n
        invariant
            lex.wf(),
            table == lex.predicates,
            sigs == table.signatures(),
            sigs.len() == n,
            table.names().len() == n,
            n <= u32::MAX,
            head == old(out)@,
            i <= n,
            out@ == with_predicates(head, lex@, sigs, i as nat),
        decreases n - i,
    {
        let p = Predicate(i as u32);
        out.append("    (");
        out.append(table.name(p));
        let tys = table.parameters(p);
        let ghost here = out@;
        let mut k: usize = 0;
        while k < tys.len()
            invariant
                lex.wf(),
                k <= tys@.len(),
                out@ == with_signature(here, lex@, tys@, k as nat),
            decreases tys@.len() - k,
        {
            out.append(" ?p");
            push_number(out, k as u128);
            out.append(" - ");
            lex.push_type(out, tys[k]);
            k = k + 1;
        }
        out.append(")\n");
        i = i + 1;
    }
}

fn render_effect(lex: &Lexicon, e: &Effect, types: &Vec<Type>) -> (res: String)
    requires
        lex.wf(),
    ensures
        res@ == effect_text(lex@, e@, types@),
{
    let none: Vec<(Variable, Term)> = Vec::new();
    assert(none@ =~= seq![]);
    let literal = lex.literal(&e.literal, &none);
    let inner = if e.condition.tautology() {
        literal
    } else {
        let mut out = "(when ".to_string();
        let cond = lex.formula(&e.condition, types);
        out.append(cond.as_str());
        out.append(" ");
        out.append(literal.as_str());
        out.append(")");
        out
    };
    if e.parameters.len() == 0 {
        inner
    } else {
        let mut out = "(forall (".to_string();
        lex.push_parameters(&mut out, &e.parameters, types);
        out.append(") ");
        out.append(inner.as_str());
        out.append(")");
        out
    }
}

fn emit_action(out: &mut String, lex: &Lexicon, a: &ActionSchema, costs: bool)
    requires
        lex.wf(),
    ensures
        final(out)@ == with_action(old(out)@, lex@, schema_view(*a), costs),
{
    out.append("  (:action ");
    out.append(a.name.as_str());
    out.append("\n");
    out.append("    :parameters (");
    lex.push_parameters(out, &a.parameters, &a.var_types);
    out.append(")\n");
    out.append("    :precondition ");
    let pre = lex.formula(&a.precondition, &a.var_types);
    out.append(pre.as_str());
    out.append("\n");
    out.append("    :effect (and");
    let ghost here = out@;
    let ghost es = effect_views(a.effects@);
    let mut i: usize = 0;
    while i < a.effects.len()
        invariant
            lex.wf(),
            es == effect_views(a.effects@),
            i <= a.effects@.len(),
            out@ == with_effects(here, lex@, es, a.var_types@, i as nat),
        decreases a.effects@.len() - i,
    {
        out.append(" ");
        let text = render_effect(lex, &a.effects[i], &a.var_types);
        out.append(text.as_str());
        i = i + 1;
    }
    if costs {
        out.append(" (increase (total-cost) ");
        push_number(out, a.cost as u128);
        out.append(")");
    }
    out.append(")\n");
    out.append("  )\n");
}

fn emit_domain(domain: &Domain) -> (res: String)
    requires
        domain.wf(),
    ensures
        res@ == domain_text(domain_view(*domain)),
{
    let lex = Lexicon { types: &domain.types, predicates: &domain.predicates, constants: &domain.constants, objects: None };
    let ghost dv = domain_view(*domain);
    assert(lex@ =~= domain_names(dv));
    let typed = any_types(&domain.types);
    let mut out = "(define (domain ".to_string();
    out.append(domain.name.as_str());
    out.append(")\n");
    push_requirements(&mut out, typed || domain.requirements.typing, &domain.requirements);
    if typed {
        out.append("  (:types");
        push_types(&mut out, &lex);
        out.append(")\n");
    }
    if domain.constants.len() > 0 {
        out.append("  (:constants");
        push_objects(&mut out, &lex, &domain.constants);
        out.append(")\n");
    }
    out.append("  (:predicates\n");
    push_predicates(&mut out, &lex);
    out.append("  )\n");
    let costs = domain.requirements.action_costs;
    if costs {
        out.append("  (:functions (total-cost) - number)\n");
    }
    let ghost here = out@;
    let ghost all = schema_views(domain.actions@);
    let mut i: usize = 0;
    while i < domain.actions.len()
        invariant
            lex.wf(),
            all == schema_views(domain.actions@),
            i <= domain.actions@.len(),
            out@ == with_actions(here, lex@, all, costs, i as nat),
        decreases domain.actions@.len() - i,
    {
        emit_action(&mut out, &lex, &domain.actions[i], costs);
        i = i + 1;
    }
    out.append(")\n");
    out
}

pub(crate) fn push_atoms(out: &mut String, lex: &Lexicon, atoms: &Vec<Atom>)
    requires
        lex.wf(),
    ensures
        final(out)@ == with_atoms(old(out)@, lex@, atom_forms(atoms@), atoms@.len()),
{
    let none: Vec<(Variable, Term)> = Vec::new();
    assert(none@ =~= seq![]);
    let ghost head = out@;
    let ghost all = atom_forms(atoms@);
    let mut i: usize = 0;
    while i < atoms.len()
        invariant
            lex.wf(),
            head == old(out)@,
            none@ == Seq::<(Variable, Term)>::empty(),
            all == atom_forms(atoms@),
            i <= atoms@.len(),
            out@ == with_atoms(head, lex@, all, i as nat),
        decreases atoms@.len() - i,
    {
        out.append(" ");
        let text = lex.atom(&atoms[i], &none);
        out.append(text.as_str());
        i = i + 1;
    }
}

fn emit_problem(domain: &Domain, problem: &Problem) -> (res: String)
    requires
        domain.wf(),
        problem.objects.wf(),
        problem.objects.first() == domain.constants.end(),
    ensures
        res@ == problem_text(domain_view(*domain), problem_view(*problem)),
{
    let lex = Lexicon {
        types: &domain.types,
        predicates: &domain.predicates,
        constants: &domain.constants,
        objects: Some(&problem.objects),
    };
    assert(lex@ =~= problem_names(domain_view(*domain), problem_view(*problem)));
    let mut out = "(define (problem ".to_string();
    out.append(problem.name.as_str());
    out.append(")\n");
    out.append("  (:domain ");
    out.append(domain.name.as_str());
    out.append(")\n");
    if problem.objects.len() > 0 {
        out.append("  (:objects");
        push_objects(&mut out, &lex, &problem.objects);
        out.append(")\n");
    }
    out.append("  (:init");
    push_atoms(&mut out, &lex, &problem.init_order);
    if domain.requirements.action_costs {
        out.append(" (= (total-cost) 0)");
    }
    out.append(")\n");
    out.append("  (:goal ");
    let goal = lex.formula(&problem.goal, &problem.goal_var_types);
    out.append(goal.as_str());
    out.append(")\n");
    if problem.metric.is_some() {
        out.append("  (:metric minimize (total-cost))\n");
    }
    out.append(")\n");
    out
}

} // verus!
