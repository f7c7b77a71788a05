//! What the causal-link compilation makes of a partial plan.
//!
//! Every committed step becomes an action that fires exactly once, after the steps
//! ordered before it. Every causal link gets a guard: its producer takes the guard
//! away, its consumer gives it back, and whatever could clobber the link needs it.
use vstd::prelude::*;

use crate::bindings::{resolved, Class};
use crate::effect::EffectView;
use crate::flaws::LinkView;
use crate::formula::{AtomView, FormulaView, LiteralView};
use crate::lower_model::SchemaView;
use crate::orderings::may_come_before;
use crate::plan::{GOAL_ID, INIT_ID};
use crate::plan_model::{types_at, PlanView};
use crate::search::ContextView;
use crate::step::{StepTypesView, StepView};
use crate::terms::{Object, Term, Variable};
use crate::text::decimal;
use crate::types::Type;

verus! {

/// Whether a character is alphabetic or numeric.
pub uninterp spec fn alphanumeric(c: char) -> bool;

/// A name with every character outside letters, digits and `-` made a `-`.
pub open spec fn sanitized(name: Seq<char>) -> Seq<char> {
    name.map_values(
        |c: char|
            if alphanumeric(c) || c == '-' {
                c
            } else {
                '-'
            },
    )
}

/// Some terms as bound at a step.
pub open spec fn resolved_terms(sets: Seq<Class>, ts: Seq<Term>, id: usize) -> Seq<Term> {
    Seq::new(ts.len(), |i: int| resolved(sets, ts[i], id))
}

/// A literal with its terms as bound at a step.
pub open spec fn resolved_literal(sets: Seq<Class>, l: LiteralView, id: usize) -> LiteralView {
    LiteralView { negative: l.negative, atom: AtomView { predicate: l.atom.predicate, terms: resolved_terms(sets, l.atom.terms, id) } }
}

/// The objects that terms are, if all are objects.
pub open spec fn objects_of(ts: Seq<Term>) -> Option<Seq<Object>>
    decreases ts.len(),
{
    if ts.len() == 0 {
        Some(seq![])
    } else {
        match (objects_of(ts.drop_last()), ts.last()) {
            (Some(os), Term::Object(o)) => Some(os.push(o)),
            _ => None,
        }
    }
}

/// A list of parameters, ascending by number, with one more unless it is there.
pub open spec fn with_parameter(ps: Seq<(Variable, Type)>, v: Variable, ty: Type) -> Seq<(Variable, Type)>
    decreases ps.len(),
{
    if ps.len() == 0 {
        seq![(v, ty)]
    } else if ps.last().0 == v {
        ps
    } else if ps.last().0.0 < v.0 {
        ps.push((v, ty))
    } else {
        with_parameter(ps.drop_last(), v, ty).push(ps.last())
    }
}

/// What becomes of the parameters of a step: the bound ones are replaced, the
/// others stay parameters.
#[verifier::ext_equal]
pub struct Arguments {
    pub subst: Seq<(Variable, Term)>,
    pub params: Seq<(Variable, Type)>,
}

/// What becomes of the first `n` parameters of a step.
pub open spec fn arguments_of(sets: Seq<Class>, types: StepTypesView, s: StepView, n: nat) -> Arguments
    decreases n,
{
    if n == 0 {
        Arguments { subst: seq![], params: seq![] }
    } else {
        let rest = arguments_of(sets, types, s, (n - 1) as nat);
        let p = s.action.parameters[n - 1];
        match resolved(sets, Term::Variable(p), s.id) {
            Term::Object(o) => Arguments { subst: rest.subst.push((p, Term::Object(o))), ..rest },
            Term::Variable(v) => Arguments {
                subst: if v == p {
                    rest.subst
                } else {
                    rest.subst.push((p, Term::Variable(v)))
                },
                params: with_parameter(rest.params, v, types.type_of(v, s.id)),
            },
        }
    }
}

/// The ids of the real steps among the first `n`.
pub open spec fn committed(steps: Seq<StepView>, n: nat) -> Seq<usize>
    decreases n,
{
    if n == 0 {
        seq![]
    } else {
        let rest = committed(steps, (n - 1) as nat);
        if steps[n - 1].action.is_synthetic() {
            rest
        } else {
            rest.push(steps[n - 1].id)
        }
    }
}

/// Whether a step comes before another in every linearization.
pub open spec fn necessarily_before(order: Set<(int, int)>, a: usize, b: usize) -> bool {
    a != b && !may_come_before(order, b as int, a as int)
}

/// Those of the first `n` ids that necessarily come before a step.
pub open spec fn predecessors(order: Set<(int, int)>, ids: Seq<usize>, id: usize, n: nat) -> Seq<usize>
    decreases n,
{
    if n == 0 {
        seq![]
    } else {
        let rest = predecessors(order, ids, id, (n - 1) as nat);
        if necessarily_before(order, ids[n - 1], id) {
            rest.push(ids[n - 1])
        } else {
            rest
        }
    }
}

/// Those of the first `n` links that a step produces.
pub open spec fn produced(links: Seq<LinkView>, id: usize, n: nat) -> Seq<usize>
    decreases n,
{
    if n == 0 {
        seq![]
    } else {
        let rest = produced(links, id, (n - 1) as nat);
        if links[n - 1].from_id == id {
            rest.push((n - 1) as usize)
        } else {
            rest
        }
    }
}

/// Those of the first `n` links that a step consumes.
pub open spec fn consumed(links: Seq<LinkView>, id: usize, n: nat) -> Seq<usize>
    decreases n,
{
    if n == 0 {
        seq![]
    } else {
        let rest = consumed(links, id, (n - 1) as nat);
        if links[n - 1].to_id == id {
            rest.push((n - 1) as usize)
        } else {
            rest
        }
    }
}

/// Whether an effect of a step makes the literal of a link false, both as bound.
pub open spec fn effect_clobbers(sets: Seq<Class>, s: StepView, k: int, link: LinkView) -> bool {
    &&& s.action.effects[k].literal.negative != link.condition.negative
    &&& resolved_literal(sets, s.action.effects[k].literal, s.id).atom == resolved_literal(sets, link.condition, link.to_id).atom
}

/// Whether a step clobbers a link that it neither produces nor consumes.
pub open spec fn step_clobbers(sets: Seq<Class>, s: StepView, link: LinkView) -> bool {
    &&& link.from_id != s.id
    &&& link.to_id != s.id
    &&& exists|k: int| 0 <= k < s.action.effects.len() && #[trigger] effect_clobbers(sets, s, k, link)
}

/// Those of the first `n` links that a step clobbers.
pub open spec fn clobbered(sets: Seq<Class>, s: StepView, links: Seq<LinkView>, n: nat) -> Seq<usize>
    decreases n,
{
    if n == 0 {
        seq![]
    } else {
        let rest = clobbered(sets, s, links, (n - 1) as nat);
        if step_clobbers(sets, s, links[n - 1]) {
            rest.push((n - 1) as usize)
        } else {
            rest
        }
    }
}

/// Those of the first `n` links that a real step produces: their guards hold at
/// the start.
pub open spec fn guarded_first(links: Seq<LinkView>, n: nat) -> Seq<usize>
    decreases n,
{
    if n == 0 {
        seq![]
    } else {
        let rest = guarded_first(links, (n - 1) as nat);
        if links[n - 1].from_id != INIT_ID {
            rest.push((n - 1) as usize)
        } else {
            rest
        }
    }
}

/// A committed step as a classical action.
#[verifier::ext_equal]
pub struct CompiledStepView {
    pub id: usize,
    pub name: Seq<char>,
    pub params: Seq<(Variable, Type)>,
    pub subst: Seq<(Variable, Term)>,
    pub precondition: FormulaView,
    pub effects: Seq<EffectView>,
    pub var_types: Seq<Type>,
    pub predecessors: Seq<usize>,
    pub precond_guards: Seq<usize>,
    pub del_guards: Seq<usize>,
    pub add_guards: Seq<usize>,
}

/// What a committed step is compiled to, with guards for the given links.
pub open spec fn compiled_step(pv: PlanView, types: StepTypesView, links: Seq<LinkView>, s: StepView) -> CompiledStepView {
    let arguments = arguments_of(pv.classes, types, s, s.action.parameters.len());
    let ids = committed(pv.steps, pv.steps.len());
    CompiledStepView {
        id: s.id,
        name: "step-"@ + decimal(s.id as nat) + "-"@ + sanitized(s.action.name),
        params: arguments.params,
        subst: arguments.subst,
        precondition: s.action.precondition,
        effects: s.action.effects,
        var_types: s.action.var_types,
        predecessors: predecessors(pv.order, ids, s.id, ids.len()),
        precond_guards: clobbered(pv.classes, s, links, links.len()),
        del_guards: produced(links, s.id, links.len()),
        add_guards: consumed(links, s.id, links.len()),
    }
}

/// What the real steps among the first `n` are compiled to.
pub open spec fn compiled_steps(pv: PlanView, types: StepTypesView, links: Seq<LinkView>, n: nat) -> Seq<CompiledStepView>
    decreases n,
{
    if n == 0 {
        seq![]
    } else {
        let rest = compiled_steps(pv, types, links, (n - 1) as nat);
        if pv.steps[n - 1].action.is_synthetic() {
            rest
        } else {
            rest.push(compiled_step(pv, types, links, pv.steps[n - 1]))
        }
    }
}

/// A guard that an insertable action needs where the arguments of one of its
/// effects are those of the protected literal.
#[verifier::ext_equal]
pub struct OriginalGuardView {
    pub schema_index: usize,
    pub guard_id: usize,
    pub effect_args: Seq<Term>,
    pub protected_args: Seq<Object>,
}

/// The guards that the first `n` effects of an action need on a link.
pub open spec fn effect_guards(
    before: Seq<OriginalGuardView>,
    effects: Seq<EffectView>,
    schema_index: usize,
    guard_id: usize,
    v: LiteralView,
    objects: Seq<Object>,
    n: nat,
) -> Seq<OriginalGuardView>
    decreases n,
{
    if n == 0 {
        before
    } else {
        let rest = effect_guards(before, effects, schema_index, guard_id, v, objects, (n - 1) as nat);
        let l = effects[n - 1].literal;
        if l.negative != v.negative && l.atom.predicate == v.atom.predicate && l.atom.terms.len() == objects.len() {
            rest.push(OriginalGuardView { schema_index, guard_id, effect_args: l.atom.terms, protected_args: objects })
        } else {
            rest
        }
    }
}

/// The guards that an action needs on the first `n` links. A link whose literal is
/// not ground needs none.
pub open spec fn link_guards_of(
    before: Seq<OriginalGuardView>,
    sets: Seq<Class>,
    links: Seq<LinkView>,
    effects: Seq<EffectView>,
    schema_index: usize,
    n: nat,
) -> Seq<OriginalGuardView>
    decreases n,
{
    if n == 0 {
        before
    } else {
        let rest = link_guards_of(before, sets, links, effects, schema_index, (n - 1) as nat);
        let v = resolved_literal(sets, links[n - 1].condition, links[n - 1].to_id);
        match objects_of(v.atom.terms) {
            Some(objects) => effect_guards(rest, effects, schema_index, (n - 1) as usize, v, objects, effects.len()),
            None => rest,
        }
    }
}

/// The guards that the first `n` actions need.
pub open spec fn original_guards(sets: Seq<Class>, links: Seq<LinkView>, actions: Seq<SchemaView>, n: nat) -> Seq<OriginalGuardView>
    decreases n,
{
    if n == 0 {
        seq![]
    } else {
        link_guards_of(
            original_guards(sets, links, actions, (n - 1) as nat),
            sets,
            links,
            actions[n - 1].effects,
            (n - 1) as usize,
            links.len(),
        )
    }
}

/// The literals of a conjunction; what else stands in it is left out.
pub open spec fn literals_in(f: FormulaView) -> Seq<LiteralView>
    decreases f, 0nat,
{
    match f {
        FormulaView::Atom(atom) => seq![LiteralView { negative: false, atom }],
        FormulaView::Negation(atom) => seq![LiteralView { negative: true, atom }],
        FormulaView::Conjunction(cs) => literals_among(cs, cs.len()),
        _ => seq![],
    }
}

/// The literals of the first `n` of some formulas.
pub open spec fn literals_among(fs: Seq<FormulaView>, n: nat) -> Seq<LiteralView>
    decreases fs, n,
{
    if n == 0 || n > fs.len() {
        seq![]
    } else {
        literals_among(fs, (n - 1) as nat) + literals_in(fs[n - 1])
    }
}

/// The literals of a goal as bound at the goal step.
pub open spec fn residual_goal(sets: Seq<Class>, f: FormulaView) -> Seq<LiteralView> {
    let ls = literals_in(f);
    Seq::new(ls.len(), |i: int| resolved_literal(sets, ls[i], GOAL_ID))
}

/// The classical task compiled from a partial plan.
#[verifier::ext_equal]
pub struct CompiledView {
    pub num_guards: usize,
    pub init_guards: Seq<usize>,
    pub steps: Seq<CompiledStepView>,
    pub original_guards: Seq<OriginalGuardView>,
    pub goal: Seq<LiteralView>,
}

/// What a partial plan is compiled to. Without link guards no link is protected.
pub open spec fn compiled(cv: ContextView, pv: PlanView, actions: Seq<SchemaView>, goal: FormulaView, link_guards: bool) -> CompiledView {
    let links = if link_guards {
        pv.links
    } else {
        seq![]
    };
    let types = types_at(cv, pv.steps, pv.fresh);
    CompiledView {
        num_guards: links.len() as usize,
        init_guards: guarded_first(links, links.len()),
        steps: compiled_steps(pv, types, links, pv.steps.len()),
        original_guards: original_guards(pv.classes, links, actions, actions.len()),
        goal: residual_goal(pv.classes, goal),
    }
}

} // verus!
