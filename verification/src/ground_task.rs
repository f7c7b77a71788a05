//! The causal-link compilation as an all-binary finite-domain task.
//!
//! Grounds the encoding of [`crate::compile`] directly. Committed steps and
//! insertable actions are ground already, so that a guard precondition is decided
//! once and for all by the arguments.
use std::rc::Rc;

use vstd::prelude::*;

use crate::bindings::Class;
use crate::compile::{all_objects, committed_ids, guards_at, links_of, predecessors_of, resolve_literal, sanitize};
use crate::compile_model::{
    clobbered, committed, objects_of, predecessors, resolved_literal, sanitized,
};
use crate::effect::{effect_views, Effect, EffectView};
use crate::flaws::{link_views, Link, LinkView};
use crate::formula::{forms, Atom, AtomView, Formula, FormulaView};
use crate::lower_model::{atom_forms, domain_view, problem_view};
use crate::names::position_of;
use crate::pddl_emit::problem_names;
use crate::plan::{steps_of, Plan, INIT_ID};
use crate::plan_model::PlanView;
use crate::predicates::Predicate;
use crate::render::{Lexicon, Names};
use crate::sas::{ground_effects, ground_ops, GroundEffect, GroundEffectView, GroundOp, GroundOpView, GroundTask, GroundTaskView};
use crate::search::{action_views, SearchContext};
use crate::step::{step_views, Step, StepAction, StepActionView, StepView};
use crate::terms::{Object, Term};
use crate::text::{decimal, push_number};

verus! {

/// What grounding reads: the names and the initial atoms.
pub struct Grounding {
    pub names: Names,
    pub init: Seq<AtomView>,
}

/// The fact of a name, added if need be.
pub open spec fn interned(t: GroundTaskView, name: Seq<char>, init: bool) -> (usize, GroundTaskView) {
    match position_of(t.facts, name) {
        Some(i) => (i as usize, t),
        None => (t.facts.len() as usize, GroundTaskView { facts: t.facts.push(name), init: t.init.push(init), ..t }),
    }
}

/// A text with the names of the first `n` of some objects behind it, separated by
/// commas.
pub open spec fn with_names(before: Seq<char>, names: Names, objects: Seq<Object>, n: nat) -> Seq<char>
    decreases n,
{
    if n == 0 {
        before
    } else {
        let rest = with_names(before, names, objects, (n - 1) as nat);
        let apart = if n > 1 {
            rest + ","@
        } else {
            rest
        };
        apart + names.object(objects[n - 1])
    }
}

/// The name of the fact of a ground atom.
pub open spec fn fact_name(names: Names, p: Predicate, objects: Seq<Object>) -> Seq<char> {
    with_names(""@ + names.predicate(p) + "("@, names, objects, objects.len()) + ")"@
}

/// Objects as terms.
pub open spec fn as_terms(objects: Seq<Object>) -> Seq<Term> {
    Seq::new(objects.len(), |i: int| Term::Object(objects[i]))
}

/// The fact of a ground atom, true at the start if the atom is.
pub open spec fn atom_fact(g: Grounding, t: GroundTaskView, p: Predicate, objects: Seq<Object>) -> (usize, GroundTaskView) {
    interned(t, fact_name(g.names, p, objects), g.init.contains(AtomView { predicate: p, terms: as_terms(objects) }))
}

/// A condition flattened so far: whether it can hold, and its facts.
pub struct Flat {
    pub ok: bool,
    pub facts: Seq<(usize, bool)>,
    pub task: GroundTaskView,
}

/// A literal of a condition; one that is not ground is no constraint.
pub open spec fn flat_literal(g: Grounding, t: GroundTaskView, facts: Seq<(usize, bool)>, a: AtomView, value: bool) -> Flat {
    match objects_of(a.terms) {
        Some(objects) => {
            let (id, t1) = atom_fact(g, t, a.predicate, objects);
            Flat { ok: true, facts: facts.push((id, value)), task: t1 }
        },
        None => Flat { ok: true, facts, task: t },
    }
}

/// Whether two terms may be equal: they are not two different objects.
pub open spec fn may_equal(l: Term, r: Term) -> bool {
    match (l, r) {
        (Term::Object(a), Term::Object(b)) => a == b,
        _ => true,
    }
}

/// Whether two terms may differ: they are not one object.
pub open spec fn may_be_unequal(l: Term, r: Term) -> bool {
    match (l, r) {
        (Term::Object(a), Term::Object(b)) => a != b,
        _ => true,
    }
}

/// A condition as facts; disjunctions and quantifiers are no constraint. What comes
/// behind a part that cannot hold is not looked at.
pub open spec fn flat(g: Grounding, t: GroundTaskView, facts: Seq<(usize, bool)>, f: FormulaView) -> Flat
    decreases f, 0nat,
{
    match f {
        FormulaView::False => Flat { ok: false, facts, task: t },
        FormulaView::Atom(a) => flat_literal(g, t, facts, a, true),
        FormulaView::Negation(a) => flat_literal(g, t, facts, a, false),
        FormulaView::Equality(l, _, r, _) => Flat { ok: may_equal(l, r), facts, task: t },
        FormulaView::Inequality(l, _, r, _) => Flat { ok: may_be_unequal(l, r), facts, task: t },
        FormulaView::Conjunction(cs) => flat_all(g, t, facts, cs, cs.len()),
        _ => Flat { ok: true, facts, task: t },
    }
}

/// The first `n` parts of a conjunction.
pub open spec fn flat_all(g: Grounding, t: GroundTaskView, facts: Seq<(usize, bool)>, fs: Seq<FormulaView>, n: nat) -> Flat
    decreases fs, n,
{
    if n == 0 || n > fs.len() {
        Flat { ok: true, facts, task: t }
    } else {
        let rest = flat_all(g, t, facts, fs, (n - 1) as nat);
        if rest.ok {
            flat(g, rest.task, rest.facts, fs[n - 1])
        } else {
            rest
        }
    }
}

/// Effects so far, and the task.
pub struct FlatEffects {
    pub effects: Seq<GroundEffectView>,
    pub task: GroundTaskView,
}

/// The effects so far with one more, unless it cannot happen, is quantified or is
/// not ground.
pub open spec fn with_ground_effect(g: Grounding, before: FlatEffects, e: EffectView) -> FlatEffects {
    if e.condition is False || e.parameters.len() > 0 {
        before
    } else {
        let cond = flat(g, before.task, seq![], e.condition);
        match objects_of(e.literal.atom.terms) {
            Some(objects) => if cond.ok {
                let (fact, t1) = atom_fact(g, cond.task, e.literal.atom.predicate, objects);
                FlatEffects {
                    effects: before.effects.push(GroundEffectView { cond: cond.facts, fact, value: !e.literal.negative }),
                    task: t1,
                }
            } else {
                FlatEffects { effects: before.effects, task: cond.task }
            },
            None => FlatEffects { effects: before.effects, task: cond.task },
        }
    }
}

/// The first `n` of some effects.
pub open spec fn flat_effects(g: Grounding, t: GroundTaskView, es: Seq<EffectView>, n: nat) -> FlatEffects
    decreases n,
{
    if n == 0 {
        FlatEffects { effects: seq![], task: t }
    } else {
        with_ground_effect(g, flat_effects(g, t, es, (n - 1) as nat), es[n - 1])
    }
}

/// A text with the names of the first `n` of some objects behind it, each after a
/// dash.
pub open spec fn with_dashed(before: Seq<char>, names: Names, objects: Seq<Object>, n: nat) -> Seq<char>
    decreases n,
{
    if n == 0 {
        before
    } else {
        with_dashed(before, names, objects, (n - 1) as nat) + "-"@ + names.object(objects[n - 1])
    }
}

/// A task with an operator.
pub open spec fn with_op(t: GroundTaskView, op: GroundOpView) -> GroundTaskView {
    GroundTaskView { ops: t.ops.push(op), ..t }
}

/// A task with a ground action, unless that can never be applied.
pub open spec fn with_ground_action(g: Grounding, t: GroundTaskView, a: StepActionView) -> GroundTaskView {
    let pre = flat(g, t, seq![], a.precondition);
    if pre.ok {
        let es = flat_effects(g, pre.task, a.effects, a.effects.len());
        with_op(
            es.task,
            GroundOpView {
                name: with_dashed(sanitized(a.name), g.names, a.arguments, a.arguments.len()),
                pre: pre.facts,
                effects: es.effects,
            },
        )
    } else {
        pre.task
    }
}

/// The task of the first `n` of some ground actions.
pub open spec fn based(g: Grounding, actions: Seq<StepActionView>, n: nat) -> GroundTaskView
    decreases n,
{
    if n == 0 {
        GroundTaskView { facts: seq![], init: seq![], goal: seq![], ops: seq![] }
    } else {
        with_ground_action(g, based(g, actions, (n - 1) as nat), actions[n - 1])
    }
}

pub open spec fn numbered(head: Seq<char>, n: usize) -> Seq<char> {
    head + decimal(n as nat)
}

/// A task with the indicators of the first `n` steps.
pub open spec fn with_step_facts(t: GroundTaskView, ids: Seq<usize>, n: nat) -> GroundTaskView
    decreases n,
{
    if n == 0 {
        t
    } else {
        let rest = with_step_facts(t, ids, (n - 1) as nat);
        interned(interned(rest, numbered("exec-neg-"@, ids[n - 1]), true).1, numbered("exec-pos-"@, ids[n - 1]), false).1
    }
}

/// The guard of a link: true at the start if its producer is a real step.
pub open spec fn guard_fact(t: GroundTaskView, links: Seq<LinkView>, i: int) -> (usize, GroundTaskView) {
    interned(t, numbered("guard-"@, i as usize), links[i].from_id != INIT_ID)
}

/// A task with the guards of the first `n` links.
pub open spec fn with_guard_facts(t: GroundTaskView, links: Seq<LinkView>, n: nat) -> GroundTaskView
    decreases n,
{
    if n == 0 {
        t
    } else {
        guard_fact(with_guard_facts(t, links, (n - 1) as nat), links, n - 1).1
    }
}

/// Whether an operator may set a fact to a value.
pub open spec fn sets_fact(o: GroundOpView, fact: usize, value: bool) -> bool {
    exists|k: int| 0 <= k < o.effects.len() && (#[trigger] o.effects[k]).fact == fact && o.effects[k].value == value
}

/// The operators, those of the first `n` that may set a fact to a value needing a
/// guard.
pub open spec fn with_needed(ops: Seq<GroundOpView>, n: int, fact: usize, value: bool, guard: usize) -> Seq<GroundOpView> {
    Seq::new(
        ops.len(),
        |i: int|
            if i < n && sets_fact(ops[i], fact, value) {
                GroundOpView { pre: ops[i].pre.push((guard, true)), ..ops[i] }
            } else {
                ops[i]
            },
    )
}

/// A task whose insertable actions need the guards of the first `n` links. A link
/// whose literal is not ground needs none.
pub open spec fn with_folded(g: Grounding, sets: Seq<Class>, t: GroundTaskView, links: Seq<LinkView>, originals: int, n: nat) -> GroundTaskView
    decreases n,
{
    if n == 0 {
        t
    } else {
        let rest = with_folded(g, sets, t, links, originals, (n - 1) as nat);
        let v = resolved_literal(sets, links[n - 1].condition, links[n - 1].to_id);
        match objects_of(v.atom.terms) {
            Some(objects) => {
                let (fact, t1) = atom_fact(g, rest, v.atom.predicate, objects);
                let (guard, t2) = guard_fact(t1, links, n - 1);
                GroundTaskView { ops: with_needed(t2.ops, originals, fact, v.negative, guard), ..t2 }
            },
            None => rest,
        }
    }
}

/// The conditions with the given facts behind them, each to hold.
pub open spec fn with_marks(before: Flat, ids: Seq<usize>, n: nat) -> Flat
    decreases n,
{
    if n == 0 {
        before
    } else {
        let rest = with_marks(before, ids, (n - 1) as nat);
        let (id, t) = interned(rest.task, numbered("exec-pos-"@, ids[n - 1]), false);
        Flat { ok: rest.ok, facts: rest.facts.push((id, true)), task: t }
    }
}

/// The effects with what a step does to the guards of the first `n` links behind
/// them: its producer takes a guard away, its consumer gives it back.
pub open spec fn with_link_effects(before: FlatEffects, links: Seq<LinkView>, id: usize, n: nat) -> FlatEffects
    decreases n,
{
    if n == 0 {
        before
    } else {
        let rest = with_link_effects(before, links, id, (n - 1) as nat);
        let taken = if links[n - 1].from_id == id {
            let (f, t) = guard_fact(rest.task, links, n - 1);
            FlatEffects { effects: rest.effects.push(GroundEffectView { cond: seq![], fact: f, value: false }), task: t }
        } else {
            rest
        };
        if links[n - 1].to_id == id {
            let (f, t) = guard_fact(taken.task, links, n - 1);
            FlatEffects { effects: taken.effects.push(GroundEffectView { cond: seq![], fact: f, value: true }), task: t }
        } else {
            taken
        }
    }
}

/// The conditions with the guards of some links behind them.
pub open spec fn with_needs(before: Flat, links: Seq<LinkView>, guards: Seq<usize>, n: nat) -> Flat
    decreases n,
{
    if n == 0 {
        before
    } else {
        let rest = with_needs(before, links, guards, (n - 1) as nat);
        let (id, t) = guard_fact(rest.task, links, guards[n - 1] as int);
        Flat { ok: rest.ok, facts: rest.facts.push((id, true)), task: t }
    }
}

/// A task with a committed step, unless that can never be applied.
pub open spec fn with_committed(g: Grounding, pv: PlanView, t: GroundTaskView, s: StepView) -> GroundTaskView {
    let pre = flat(g, t, seq![], s.action.precondition);
    if pre.ok {
        let es = flat_effects(g, pre.task, s.action.effects, s.action.effects.len());
        let (neg, t1) = interned(es.task, numbered("exec-neg-"@, s.id), true);
        let (pos, t2) = interned(t1, numbered("exec-pos-"@, s.id), false);
        let once = Flat { ok: true, facts: pre.facts.push((neg, true)), task: t2 };
        let fired = es.effects.push(GroundEffectView { cond: seq![], fact: pos, value: true }).push(
            GroundEffectView { cond: seq![], fact: neg, value: false },
        );
        let ids = committed(pv.steps, pv.steps.len());
        let before = predecessors(pv.order, ids, s.id, ids.len());
        let after = with_marks(once, before, before.len());
        let linked = with_link_effects(FlatEffects { effects: fired, task: after.task }, pv.links, s.id, pv.links.len());
        let guards = clobbered(pv.classes, s, pv.links, pv.links.len());
        let guarded = with_needs(Flat { ok: true, facts: after.facts, task: linked.task }, pv.links, guards, guards.len());
        with_op(guarded.task, GroundOpView { name: numbered("step-"@, s.id), pre: guarded.facts, effects: linked.effects })
    } else {
        pre.task
    }
}

/// A task with the real steps among the first `n`.
pub open spec fn with_all_committed(g: Grounding, pv: PlanView, t: GroundTaskView, n: nat) -> GroundTaskView
    decreases n,
{
    if n == 0 {
        t
    } else {
        let rest = with_all_committed(g, pv, t, (n - 1) as nat);
        if pv.steps[n - 1].action.is_synthetic() {
            rest
        } else {
            with_committed(g, pv, rest, pv.steps[n - 1])
        }
    }
}

/// A task with the goal that the first `n` steps have been executed.
pub open spec fn with_step_goals(t: GroundTaskView, ids: Seq<usize>, n: nat) -> GroundTaskView
    decreases n,
{
    if n == 0 {
        t
    } else {
        let rest = with_step_goals(t, ids, (n - 1) as nat);
        let (id, t1) = interned(rest, numbered("exec-pos-"@, ids[n - 1]), false);
        GroundTaskView { goal: t1.goal.push((id, true)), ..t1 }
    }
}

/// A task with the goal of the problem; a goal that cannot hold adds nothing.
pub open spec fn with_problem_goal(g: Grounding, t: GroundTaskView, goal: FormulaView) -> GroundTaskView {
    let flat_goal = flat(g, t, seq![], goal);
    if flat_goal.ok {
        GroundTaskView { goal: flat_goal.task.goal + flat_goal.facts, ..flat_goal.task }
    } else {
        flat_goal.task
    }
}

/// What a partial plan is grounded to, over the task of the insertable actions.
pub open spec fn grounded(g: Grounding, pv: PlanView, base: GroundTaskView, goal: FormulaView) -> GroundTaskView {
    let ids = committed(pv.steps, pv.steps.len());
    let marked = with_step_facts(base, ids, ids.len());
    let guarded = with_guard_facts(marked, pv.links, pv.links.len());
    let folded = with_folded(g, pv.classes, guarded, pv.links, base.ops.len() as int, pv.links.len());
    let stepped = with_all_committed(g, pv, folded, pv.steps.len());
    with_step_goals(with_problem_goal(g, stepped, goal), ids, ids.len())
}

/// What grounding reads of a context.
pub open spec fn grounding_of(ctx: &SearchContext) -> Grounding {
    Grounding { names: problem_names(domain_view(*ctx.domain), problem_view(*ctx.problem)), init: atom_forms(ctx.problem.init_order@) }
}

/// Adds ground facts to a task.
struct Interner<'a> {
    task: GroundTask,
    lex: Lexicon<'a>,
    init: &'a Vec<Atom>,
}

/// An object list as terms.
fn terms_of(objects: &Vec<Object>) -> (res: Vec<Term>)
    ensures
        res@ == as_terms(objects@),
{
    let mut res: Vec<Term> = Vec::new();
    let mut i: usize = 0;
    while i < objects.len()
        invariant
            i <= objects@.len(),
            res@ == as_terms(objects@).take(i as int),
        decreases objects@.len() - i,
    {
        res.push(Term::Object(objects[i]));
        i = i + 1;
        assert(as_terms(objects@).take(i as int) =~= as_terms(objects@).take(i - 1).push(Term::Object(objects@[i - 1])));
    }
    assert(as_terms(objects@).take(i as int) =~= as_terms(objects@));
    res
}

fn numbered_name(head: &str, n: usize) -> (res: String)
    ensures
        res@ == numbered(head@, n),
{
    let mut res = head.to_string();
    push_number(&mut res, n as u128);
    res
}

fn may_set(op: &GroundOp, fact: usize, value: bool) -> (res: bool)
    ensures
        res == sets_fact(op@, fact, value),
{
    let mut k: usize = 0;
    while k < op.effects.len()
        invariant
            k <= op.effects@.len(),
            forall|j: int| 0 <= j < k ==> !((#[trigger] op@.effects[j]).fact == fact && op@.effects[j].value == value),
        decreases op.effects@.len() - k,
    {
        assert(op@.effects[k as int] == op.effects@[k as int]@);
        if op.effects[k].fact == fact && op.effects[k].value == value {
            return true;
        }
        k = k + 1;
    }
    false
}

impl<'a> Interner<'a> {
    spec fn wf(&self) -> bool {
        self.lex.wf() && self.task@.wf()
    }

    spec fn grounding(&self) -> Grounding {
        Grounding { names: self.lex@, init: atom_forms(self.init@) }
    }

    /// The fact of a name, added if need be.
    fn named_fact(&mut self, name: String, init: bool) -> (res: usize)
        requires
            old(self).wf(),
        ensures
            final(self).wf(),
            final(self).grounding() == old(self).grounding(),
            (res, final(self).task@) == interned(old(self).task@, name@, init),
    {
        match self.task.find_fact(name.as_str()) {
            Some(id) => id,
            None => self.task.add_fact(name, init),
        }
    }

    /// The fact of a ground atom.
    fn atom_fact(&mut self, p: Predicate, objects: &Vec<Object>) -> (res: usize)
        requires
            old(self).wf(),
        ensures
            final(self).wf(),
            final(self).grounding() == old(self).grounding(),
            (res, final(self).task@) == atom_fact(old(self).grounding(), old(self).task@, p, objects@),
    {
        let mut name = "".to_string();
        self.lex.push_predicate(&mut name, p);
        name.append("(");
        let ghost head = name@;
        let mut i: usize = 0;
        while i < objects.len()
            invariant
                self.wf(),
                *self == *old(self),
                i <= objects@.len(),
                name@ == with_names(head, self.lex@, objects@, i as nat),
            decreases objects@.len() - i,
        {
            if i > 0 {
                name.append(",");
            }
            self.lex.push_object(&mut name, objects[i]);
            i = i + 1;
        }
        name.append(")");
        let atom = Atom { predicate: p, terms: terms_of(objects) };
        assert(atom@ == AtomView { predicate: p, terms: as_terms(objects@) });
        let init = crate::lower::holds_atom(self.init, &atom);
        self.named_fact(name, init)
    }

    /// Flattens a condition into facts; false if it cannot hold.
    fn flatten(&mut self, f: &Formula, out: &mut Vec<(usize, bool)>) -> (res: bool)
        requires
            old(self).wf(),
        ensures
            final(self).wf(),
            final(self).grounding() == old(self).grounding(),
            (Flat { ok: res, facts: final(out)@, task: final(self).task@ }) == flat(old(self).grounding(), old(self).task@, old(out)@, f@),
        decreases f, 0nat,
    {
        match f {
            Formula::False => false,
            Formula::Atom(a) => {
                self.flatten_literal(a, true, out);
                true
            },
            Formula::Negation(a) => {
                self.flatten_literal(a, false, out);
                true
            },
            Formula::Equality { left, right, .. } => match (*left, *right) {
                (Term::Object(a), Term::Object(b)) => a == b,
                _ => true,
            },
            Formula::Inequality { left, right, .. } => match (*left, *right) {
                (Term::Object(a), Term::Object(b)) => a != b,
                _ => true,
            },
            Formula::Conjunction(cs) => self.flatten_all(cs, out),
            _ => true,
        }
    }

    fn flatten_literal(&mut self, a: &Atom, value: bool, out: &mut Vec<(usize, bool)>)
        requires
            old(self).wf(),
        ensures
            final(self).wf(),
            final(self).grounding() == old(self).grounding(),
            (Flat { ok: true, facts: final(out)@, task: final(self).task@ }) == flat_literal(
                old(self).grounding(),
                old(self).task@,
                old(out)@,
                a@,
                value,
            ),
    {
        match all_objects(&a.terms) {
            Some(objects) => {
                let id = self.atom_fact(a.predicate, &objects);
                out.push((id, value));
            },
            None => {},
        }
    }

    fn flatten_all(&mut self, fs: &Vec<Rc<Formula>>, out: &mut Vec<(usize, bool)>) -> (res: bool)
        requires
            old(self).wf(),
        ensures
            final(self).wf(),
            final(self).grounding() == old(self).grounding(),
            (Flat { ok: res, facts: final(out)@, task: final(self).task@ }) == flat_all(
                old(self).grounding(),
                old(self).task@,
                old(out)@,
                forms(fs@),
                fs@.len(),
            ),
        decreases fs, 0nat,
    {
        let ghost g = self.grounding();
        let ghost t = self.task@;
        let ghost first = out@;
        let ghost all = forms(fs@);
        let mut i: usize = 0;
        while i < fs.len()
            invariant
                self.wf(),
                g == old(self).grounding(),
                t == old(self).task@,
                first == old(out)@,
                self.grounding() == g,
                all == forms(fs@),
                all.len() == fs@.len(),
                i <= fs@.len(),
                (Flat { ok: true, facts: out@, task: self.task@ }) == flat_all(g, t, first, all, i as nat),
            decreases fs@.len() - i,
        {
            assert(all[i as int] == fs@[i as int]@);
            if !self.flatten(&fs[i], out) {
                proof {
                    lemma_flat_stops(g, t, first, all, (i + 1) as nat, fs@.len());
                }
                return false;
            }
            i = i + 1;
        }
        true
    }

    /// Flattens ground effects.
    fn flatten_effects(&mut self, es: &Vec<Effect>) -> (res: Vec<GroundEffect>)
        requires
            old(self).wf(),
        ensures
            final(self).wf(),
            final(self).grounding() == old(self).grounding(),
            (FlatEffects { effects: ground_effects(res@), task: final(self).task@ }) == flat_effects(
                old(self).grounding(),
                old(self).task@,
                effect_views(es@),
                es@.len(),
            ),
    {
        let ghost g = self.grounding();
        let ghost t = self.task@;
        let ghost all = effect_views(es@);
        let mut out: Vec<GroundEffect> = Vec::new();
        let mut i: usize = 0;
        assert(ground_effects(out@) =~= seq![]);
        while i < es.len()
            invariant
                self.wf(),
                g == old(self).grounding(),
                t == old(self).task@,
                self.grounding() == g,
                all == effect_views(es@),
                i <= es@.len(),
                (FlatEffects { effects: ground_effects(out@), task: self.task@ }) == flat_effects(g, t, all, i as nat),
            decreases es@.len() - i,
        {
            assert(all[i as int] == es@[i as int]@);
            self.flatten_effect(&es[i], &mut out);
            i = i + 1;
        }
        out
    }

    fn flatten_effect(&mut self, e: &Effect, out: &mut Vec<GroundEffect>)
        requires
            old(self).wf(),
        ensures
            final(self).wf(),
            final(self).grounding() == old(self).grounding(),
            (FlatEffects { effects: ground_effects(final(out)@), task: final(self).task@ }) == with_ground_effect(
                old(self).grounding(),
                FlatEffects { effects: ground_effects(old(out)@), task: old(self).task@ },
                e@,
            ),
    {
        if e.condition.contradiction() || e.parameters.len() > 0 {
            return;
        }
        let mut cond: Vec<(usize, bool)> = Vec::new();
        assert(cond@ =~= seq![]);
        if !self.flatten(&e.condition, &mut cond) {
            return;
        }
        let a = e.literal.atom();
        match all_objects(&a.terms) {
            Some(objects) => {
                let fact = self.atom_fact(a.predicate, &objects);
                push_effect(out, cond, fact, !e.literal.negative());
            },
            None => {},
        }
    }

    /// Adds a ground action.
    fn add_action(&mut self, a: &StepAction)
        requires
            old(self).wf(),
        ensures
            final(self).wf(),
            final(self).grounding() == old(self).grounding(),
            final(self).task@ == with_ground_action(old(self).grounding(), old(self).task@, a@),
    {
        let mut pre: Vec<(usize, bool)> = Vec::new();
        assert(pre@ =~= seq![]);
        if !self.flatten(&a.precondition, &mut pre) {
            return;
        }
        let effects = self.flatten_effects(&a.effects);
        let mut name = sanitize(a.name.as_str());
        let ghost head = name@;
        let ghost here = *self;
        let mut i: usize = 0;
        while i < a.arguments.len()
            invariant
                self.wf(),
                *self == here,
                i <= a.arguments@.len(),
                name@ == with_dashed(head, self.lex@, a.arguments@, i as nat),
            decreases a.arguments@.len() - i,
        {
            name.append("-");
            self.lex.push_object(&mut name, a.arguments[i]);
            i = i + 1;
        }
        self.task.add_op(GroundOp { name, pre, effects });
    }

    /// The guard of a link.
    fn guard(&mut self, links: &Vec<Link>, i: usize) -> (res: usize)
        requires
            old(self).wf(),
            i < links@.len(),
        ensures
            final(self).wf(),
            final(self).grounding() == old(self).grounding(),
            (res, final(self).task@) == guard_fact(old(self).task@, link_views(links@), i as int),
    {
        self.named_fact(numbered_name("guard-", i), links[i].from_id != INIT_ID)
    }

    /// Makes the first operators that may set a fact to a value need a guard.
    fn fold(&mut self, originals: usize, fact: usize, value: bool, guard: usize)
        requires
            old(self).wf(),
            originals <= old(self).task@.ops.len(),
        ensures
            final(self).wf(),
            final(self).grounding() == old(self).grounding(),
            final(self).task@ == (GroundTaskView {
                ops: with_needed(old(self).task@.ops, originals as int, fact, value, guard),
                ..old(self).task@
            }),
    {
        let ghost start = self.task@;
        let mut i: usize = 0;
        assert(with_needed(start.ops, 0, fact, value, guard) =~= start.ops);
        while i < originals
            invariant
                self.wf(),
                start == old(self).task@,
                self.grounding() == old(self).grounding(),
                originals <= start.ops.len(),
                i <= originals,
                self.task@ == (GroundTaskView { ops: with_needed(start.ops, i as int, fact, value, guard), ..start }),
            decreases originals - i,
        {
            let ghost before = self.task@;
            let ghost more = with_needed(start.ops, i + 1, fact, value, guard);
            let needs = {
                let ops = self.task.ops();
                assert(ground_ops(ops@).len() == ops@.len());
                assert(with_needed(start.ops, i as int, fact, value, guard).len() == start.ops.len());
                assert(ground_ops(ops@)[i as int] == ops@[i as int]@);
                may_set(&ops[i], fact, value)
            };
            assert(before.ops[i as int] == start.ops[i as int]);
            if needs {
                self.task.guard_op(i, guard, true);
                assert(self.task@.ops =~= more);
            } else {
                assert(before.ops =~= more);
            }
            i = i + 1;
        }
    }

    /// Adds a committed step.
    #[verifier::rlimit(40)]
    fn add_committed(&mut self, plan: &Plan, links: &Vec<Link>, ids: &Vec<usize>, s: &Step)
        requires
            old(self).wf(),
            plan.wf(),
            link_views(links@) == plan@.links,
            ids@ == committed(plan@.steps, plan@.steps.len()),
        ensures
            final(self).wf(),
            final(self).grounding() == old(self).grounding(),
            final(self).task@ == with_committed(old(self).grounding(), plan@, old(self).task@, s@),
    {
        let ghost g = self.grounding();
        let ghost lv = link_views(links@);
        let mut pre: Vec<(usize, bool)> = Vec::new();
        assert(pre@ =~= seq![]);
        if !self.flatten(&s.action.precondition, &mut pre) {
            return;
        }
        let mut effects = self.flatten_effects(&s.action.effects);
        let neg = self.named_fact(numbered_name("exec-neg-", s.id), true);
        let pos = self.named_fact(numbered_name("exec-pos-", s.id), false);
        pre.push((neg, true));
        push_effect(&mut effects, Vec::new(), pos, true);
        push_effect(&mut effects, Vec::new(), neg, false);
        let ghost once = Flat { ok: true, facts: pre@, task: self.task@ };
        let before = predecessors_of(plan, ids, s.id);
        let mut i: usize = 0;
        while i < before.len()
            invariant
                self.wf(),
                self.grounding() == g,
                i <= before@.len(),
                (Flat { ok: true, facts: pre@, task: self.task@ }) == with_marks(once, before@, i as nat),
            decreases before@.len() - i,
        {
            let id = self.named_fact(numbered_name("exec-pos-", before[i]), false);
            pre.push((id, true));
            i = i + 1;
        }
        let ghost fired = FlatEffects { effects: ground_effects(effects@), task: self.task@ };
        let mut k: usize = 0;
        while k < links.len()
            invariant
                self.wf(),
                self.grounding() == g,
                lv == link_views(links@),
                k <= links@.len(),
                (FlatEffects { effects: ground_effects(effects@), task: self.task@ }) == with_link_effects(fired, lv, s.id, k as nat),
            decreases links@.len() - k,
        {
            assert(lv[k as int] == links@[k as int]@);
            if links[k].from_id == s.id {
                let id = self.guard(links, k);
                push_effect(&mut effects, Vec::new(), id, false);
            }
            if links[k].to_id == s.id {
                let id = self.guard(links, k);
                push_effect(&mut effects, Vec::new(), id, true);
            }
            k = k + 1;
        }
        let (_, _, needs) = guards_at(plan, links, s);
        proof {
            lemma_clobbered_known(plan@.classes, s@, lv, lv.len());
        }
        let ghost linked = Flat { ok: true, facts: pre@, task: self.task@ };
        let mut j: usize = 0;
        while j < needs.len()
            invariant
                self.wf(),
                self.grounding() == g,
                lv == link_views(links@),
                forall|q: int| 0 <= q < needs@.len() ==> (#[trigger] needs@[q]) < links@.len(),
                j <= needs@.len(),
                (Flat { ok: true, facts: pre@, task: self.task@ }) == with_needs(linked, lv, needs@, j as nat),
            decreases needs@.len() - j,
        {
            let id = self.guard(links, needs[j]);
            pre.push((id, true));
            j = j + 1;
        }
        self.task.add_op(GroundOp { name: numbered_name("step-", s.id), pre, effects });
    }
}

proof fn lemma_clobbered_known(sets: Seq<Class>, s: StepView, links: Seq<LinkView>, n: nat)
    requires
        n <= links.len() <= usize::MAX,
    ensures
        forall|q: int| 0 <= q < clobbered(sets, s, links, n).len() ==> (#[trigger] clobbered(sets, s, links, n)[q]) < n,
    decreases n,
{
    if n > 0 {
        lemma_clobbered_known(sets, s, links, (n - 1) as nat);
        let rest = clobbered(sets, s, links, (n - 1) as nat);
        assert forall|q: int| 0 <= q < clobbered(sets, s, links, n).len() implies (#[trigger] clobbered(sets, s, links, n)[q]) < n by {
            if q < rest.len() {
                assert(clobbered(sets, s, links, n)[q] == rest[q]);
            }
        }
    }
}

proof fn lemma_flat_stops(g: Grounding, t: GroundTaskView, facts: Seq<(usize, bool)>, fs: Seq<FormulaView>, n: nat, m: nat)
    requires
        n <= m <= fs.len(),
        !flat_all(g, t, facts, fs, n).ok,
    ensures
        flat_all(g, t, facts, fs, m) == flat_all(g, t, facts, fs, n),
    decreases m,
{
    if n < m {
        lemma_flat_stops(g, t, facts, fs, n, (m - 1) as nat);
    }
}

fn push_effect(out: &mut Vec<GroundEffect>, cond: Vec<(usize, bool)>, fact: usize, value: bool)
    ensures
        ground_effects(final(out)@) == ground_effects(old(out)@).push(GroundEffectView { cond: cond@, fact, value }),
{
    let ghost before = ground_effects(out@);
    out.push(GroundEffect { cond, fact, value });
    assert(ground_effects(out@) =~= before.push(GroundEffectView { cond: cond@, fact, value }));
}

/// The constant base of the ground compilation: the ground insertable actions and
/// their facts, independent of any partial plan.
#[derive(Debug)]
pub struct BaseGroundTask {
    task: GroundTask,
}

impl BaseGroundTask {
    /// The task of the insertable actions.
    pub closed spec fn view(&self) -> GroundTaskView {
        self.task@
    }
}

fn interner<'a>(ctx: &'a SearchContext<'a>, task: GroundTask) -> (res: Interner<'a>)
    requires
        ctx.wf(),
        task@.wf(),
    ensures
        res.wf(),
        res.grounding() == grounding_of(ctx),
        res.task@ == task@,
{
    let lex = Lexicon {
        types: &ctx.domain.types,
        predicates: &ctx.domain.predicates,
        constants: &ctx.domain.constants,
        objects: Some(&ctx.problem.objects),
    };
    assert(lex@ =~= problem_names(domain_view(*ctx.domain), problem_view(*ctx.problem)));
    Interner { task, lex, init: &ctx.problem.init_order }
}

/// Builds the constant base from the ground actions that can be reached.
pub fn build_base(ctx: &SearchContext, actions: &Vec<Rc<StepAction>>) -> (res: BaseGroundTask)
    requires
        ctx.wf(),
    ensures
        res@.wf(),
        res@ == based(grounding_of(ctx), action_views(actions@), actions@.len()),
{
    let task = GroundTask::new();
    assert(task@ =~= GroundTaskView { facts: seq![], init: seq![], goal: seq![], ops: seq![] });
    let mut facts = interner(ctx, task);
    let ghost g = grounding_of(ctx);
    let ghost all = action_views(actions@);
    let mut i: usize = 0;
    while i < actions.len()
        invariant
            facts.wf(),
            facts.grounding() == g,
            all == action_views(actions@),
            i <= actions@.len(),
            facts.task@ == based(g, all, i as nat),
        decreases actions@.len() - i,
    {
        assert(all[i as int] == actions@[i as int]@);
        facts.add_action(&actions[i]);
        i = i + 1;
    }
    BaseGroundTask { task: facts.task }
}

/// Grounds the causal-link compilation of a plan, over the constant base. The steps
/// of the plan are to be ground.
pub fn ground_task(plan: &Plan, ctx: &SearchContext, base: &BaseGroundTask) -> (res: GroundTask)
    requires
        plan.wf(),
        ctx.wf(),
        base@.wf(),
    ensures
        res@.wf(),
        res@ == grounded(grounding_of(ctx), plan@, base@, ctx.problem.goal@),
{
    let ghost g = grounding_of(ctx);
    let ghost pv = plan@;
    let links = links_of(&plan.links);
    let ghost lv = link_views(links@);
    let steps = steps_of(&plan.steps);
    let ids = committed_ids(&steps);
    let originals = base.task.num_ops();
    let mut facts = interner(ctx, base.task.clone());
    let mut i: usize = 0;
    while i < ids.len()
        invariant
            facts.wf(),
            facts.grounding() == g,
            i <= ids@.len(),
            facts.task@ == with_step_facts(base@, ids@, i as nat),
        decreases ids@.len() - i,
    {
        facts.named_fact(numbered_name("exec-neg-", ids[i]), true);
        facts.named_fact(numbered_name("exec-pos-", ids[i]), false);
        i = i + 1;
    }
    let ghost marked = facts.task@;
    let mut k: usize = 0;
    while k < links.len()
        invariant
            facts.wf(),
            facts.grounding() == g,
            lv == link_views(links@),
            k <= links@.len(),
            facts.task@ == with_guard_facts(marked, lv, k as nat),
        decreases links@.len() - k,
    {
        facts.guard(&links, k);
        k = k + 1;
    }
    let ghost guarded = facts.task@;
    proof {
        lemma_step_facts_ops(base@, ids@, ids@.len());
        lemma_guard_facts_ops(marked, lv, lv.len());
    }
    let mut q: usize = 0;
    while q < links.len()
        invariant
            facts.wf(),
            facts.grounding() == g,
            pv == plan@,
            lv == link_views(links@),
            originals == base@.ops.len(),
            facts.task@.ops.len() == originals,
            q <= links@.len(),
            facts.task@ == with_folded(g, pv.classes, guarded, lv, originals as int, q as nat),
        decreases links@.len() - q,
    {
        assert(lv[q as int] == links@[q as int]@);
        let v = resolve_literal(plan, &links[q].condition, links[q].to_id);
        match all_objects(&v.atom().terms) {
            Some(objects) => {
                let fact = facts.atom_fact(v.atom().predicate, &objects);
                let guard = facts.guard(&links, q);
                facts.fold(originals, fact, v.negative(), guard);
            },
            None => {},
        }
        q = q + 1;
    }
    let ghost folded = facts.task@;
    let mut s: usize = 0;
    while s < steps.len()
        invariant
            facts.wf(),
            facts.grounding() == g,
            plan.wf(),
            pv == plan@,
            step_views(steps@) == pv.steps,
            link_views(links@) == pv.links,
            ids@ == committed(pv.steps, pv.steps.len()),
            s <= steps@.len(),
            facts.task@ == with_all_committed(g, pv, folded, s as nat),
        decreases steps@.len() - s,
    {
        assert(pv.steps[s as int] == steps@[s as int]@);
        if !steps[s].action.synthetic() {
            facts.add_committed(plan, &links, &ids, &steps[s]);
        }
        s = s + 1;
    }
    let ghost stepped = facts.task@;
    let mut goal: Vec<(usize, bool)> = Vec::new();
    assert(goal@ =~= seq![]);
    if facts.flatten(&ctx.problem.goal, &mut goal) {
        let ghost before = facts.task@;
        let mut j: usize = 0;
        assert(before.goal + goal@.take(0) =~= before.goal);
        while j < goal.len()
            invariant
                facts.wf(),
                facts.grounding() == g,
                j <= goal@.len(),
                facts.task@ == (GroundTaskView { goal: before.goal + goal@.take(j as int), ..before }),
            decreases goal@.len() - j,
        {
            let (f, t) = goal[j];
            facts.task.add_goal(f, t);
            j = j + 1;
            assert(before.goal + goal@.take(j as int) =~= (before.goal + goal@.take(j - 1)).push(goal@[j - 1]));
        }
        assert(goal@.take(j as int) =~= goal@);
    }
    let ghost aimed = facts.task@;
    assert(aimed == with_problem_goal(g, stepped, ctx.problem.goal@));
    let mut m: usize = 0;
    while m < ids.len()
        invariant
            facts.wf(),
            facts.grounding() == g,
            m <= ids@.len(),
            facts.task@ == with_step_goals(aimed, ids@, m as nat),
        decreases ids@.len() - m,
    {
        let id = facts.named_fact(numbered_name("exec-pos-", ids[m]), false);
        facts.task.add_goal(id, true);
        m = m + 1;
    }
    facts.task
}

proof fn lemma_step_facts_ops(t: GroundTaskView, ids: Seq<usize>, n: nat)
    ensures
        with_step_facts(t, ids, n).ops == t.ops,
    decreases n,
{
    if n > 0 {
        lemma_step_facts_ops(t, ids, (n - 1) as nat);
    }
}

proof fn lemma_guard_facts_ops(t: GroundTaskView, links: Seq<LinkView>, n: nat)
    ensures
        with_guard_facts(t, links, n).ops == t.ops,
    decreases n,
{
    if n > 0 {
        lemma_guard_facts_ops(t, links, (n - 1) as nat);
    }
}

} // verus!
