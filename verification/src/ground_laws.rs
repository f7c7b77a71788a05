//! What the ground causal-link compilation keeps of a partial plan: the committed
//! steps are executed once each and in order, and the links are protected.
use vstd::prelude::*;

use crate::bindings::Class;
use crate::compile_model::{clobbered, committed, necessarily_before, objects_of, predecessors, resolved_literal};
use crate::effect::EffectView;
use crate::flaws::LinkView;
use crate::formula::FormulaView;
use crate::ground_run::{brings, is_run, is_step, lemma_sizes, lemma_turn, met};
use crate::ground_task::{
    atom_fact, based, fact_name, flat, flat_all, flat_effects, grounded, guard_fact, interned, numbered, sets_fact, with_all_committed,
    with_committed, with_folded, with_guard_facts, with_link_effects, with_marks, with_needs, with_problem_goal, with_step_facts, with_step_goals,
    Flat, FlatEffects, Grounding,
};
use crate::names::lemma_position;
use crate::plan::INIT_ID;
use crate::plan_model::PlanView;
use crate::predicates::Predicate;
use crate::sas::{GroundEffectView, GroundOpView, GroundTaskView};
use crate::step::{StepActionView, StepView};
use crate::terms::Object;
use crate::text::{decimal, decimal_reads_back};

verus! {

// ---------------------------------------------------------------------------
// The names of facts
// ---------------------------------------------------------------------------

/// The name of the fact that a step has not been executed.
pub open spec fn unfired_name(id: usize) -> Seq<char> {
    numbered("exec-neg-"@, id)
}

/// The name of the fact that a step has been executed.
pub open spec fn fired_name(id: usize) -> Seq<char> {
    numbered("exec-pos-"@, id)
}

/// The name of the guard of a link.
pub open spec fn guard_name(i: int) -> Seq<char> {
    numbered("guard-"@, i as usize)
}

spec fn is_atom_name(s: Seq<char>) -> bool {
    s.len() > 0 && s.last() == ')'
}

spec fn is_unfired(s: Seq<char>) -> bool {
    exists|id: usize| s == #[trigger] unfired_name(id)
}

proof fn lemma_numbered(head: Seq<char>, n: usize)
    ensures
        numbered(head, n).len() > head.len(),
        !is_atom_name(numbered(head, n)),
        forall|i: int| 0 <= i < head.len() ==> #[trigger] numbered(head, n)[i] == head[i],
{
    assert(decimal(n as nat).len() > 0 && decimal(n as nat).last() != ')');
}

proof fn lemma_same_number(head: Seq<char>, a: usize, b: usize)
    requires
        numbered(head, a) == numbered(head, b),
    ensures
        a == b,
{
    decimal_reads_back(a as nat);
    decimal_reads_back(b as nat);
    assert(decimal(a as nat) =~= numbered(head, a).skip(head.len() as int));
    assert(decimal(b as nat) =~= numbered(head, b).skip(head.len() as int));
}

/// Names of different kinds differ, and so do names of one kind with different
/// numbers.
proof fn lemma_names(a: usize, b: usize)
    ensures
        !is_atom_name(unfired_name(a)),
        !is_atom_name(fired_name(a)),
        !is_atom_name(guard_name(a as int)),
        unfired_name(a) != fired_name(b),
        unfired_name(a) != guard_name(b as int),
        fired_name(a) != guard_name(b as int),
        unfired_name(a) == unfired_name(b) ==> a == b,
        fired_name(a) == fired_name(b) ==> a == b,
        guard_name(a as int) == guard_name(b as int) ==> a == b,
{
    reveal_strlit("exec-neg-");
    reveal_strlit("exec-pos-");
    reveal_strlit("guard-");
    lemma_numbered("exec-neg-"@, a);
    lemma_numbered("exec-pos-"@, a);
    lemma_numbered("guard-"@, a);
    lemma_numbered("exec-pos-"@, b);
    lemma_numbered("guard-"@, b);
    assert(unfired_name(a)[5] == 'n' && fired_name(b)[5] == 'p' && fired_name(a)[0] == 'e');
    assert(unfired_name(a)[0] == 'e' && guard_name(b as int)[0] == 'g');
    if unfired_name(a) == unfired_name(b) {
        lemma_same_number("exec-neg-"@, a, b);
    }
    if fired_name(a) == fired_name(b) {
        lemma_same_number("exec-pos-"@, a, b);
    }
    if guard_name(a as int) == guard_name(b as int) {
        lemma_same_number("guard-"@, a, b);
    }
}

// ---------------------------------------------------------------------------
// How a task grows
// ---------------------------------------------------------------------------

/// Whether a number is that of the fact of some name.
pub open spec fn is_named(t: GroundTaskView, f: usize, name: Seq<char>) -> bool {
    f < t.facts.len() && t.facts[f as int] == name
}

/// Whether an initial value is proper for a name: no step has been executed, and the
/// guard of a link holds if its producer is a real step.
spec fn proper(links: Seq<LinkView>, name: Seq<char>, init: bool) -> bool {
    &&& forall|id: usize| name == #[trigger] fired_name(id) ==> !init
    &&& forall|i: int| 0 <= i < links.len() && name == #[trigger] guard_name(i) ==> init == (links[i].from_id != INIT_ID)
}

/// No two facts have one name, and the initial values are proper.
spec fn tidy(t: GroundTaskView, links: Seq<LinkView>) -> bool {
    &&& t.facts.len() == t.init.len()
    &&& forall|i: int, j: int| 0 <= i < j < t.facts.len() ==> #[trigger] t.facts[i] != #[trigger] t.facts[j]
    &&& forall|i: int| 0 <= i < t.facts.len() ==> proper(links, #[trigger] t.facts[i], t.init[i])
}

/// Whether every fact has a number.
pub open spec fn is_numbered(t: GroundTaskView) -> bool {
    t.facts.len() <= usize::MAX
}

/// Whether the second task is the first with more facts.
spec fn more_facts(a: GroundTaskView, b: GroundTaskView) -> bool {
    &&& a.facts.len() <= b.facts.len()
    &&& forall|i: int| 0 <= i < a.facts.len() ==> #[trigger] b.facts[i] == a.facts[i]
}

/// Facts of the second task that the first has not are atoms.
spec fn atoms_beyond(a: GroundTaskView, b: GroundTaskView) -> bool {
    forall|i: int| a.facts.len() <= i < b.facts.len() ==> is_atom_name(#[trigger] b.facts[i])
}

/// Whether the second task is the first with more facts, and nothing else.
spec fn grows(a: GroundTaskView, b: GroundTaskView) -> bool {
    more_facts(a, b) && b.ops == a.ops && b.goal == a.goal
}

proof fn lemma_interned(links: Seq<LinkView>, t: GroundTaskView, name: Seq<char>, init: bool)
    requires
        proper(links, name, init),
    ensures
        interned(t, name, init).1.facts.len() >= t.facts.len(),
        tidy(t, links) && is_numbered(interned(t, name, init).1) ==> {
            let (id, t1) = interned(t, name, init);
            tidy(t1, links) && grows(t, t1) && is_named(t1, id, name) && (is_atom_name(name) ==> atoms_beyond(t, t1))
        },
{
    lemma_position(t.facts, name);
}

proof fn lemma_atom_name(g: Grounding, p: Predicate, objects: Seq<Object>)
    ensures
        is_atom_name(fact_name(g.names, p, objects)),
{
    reveal_strlit(")");
}

proof fn lemma_atom_proper(links: Seq<LinkView>, name: Seq<char>, init: bool)
    requires
        is_atom_name(name),
    ensures
        proper(links, name, init),
{
    assert forall|id: usize| name == #[trigger] fired_name(id) implies !init by {
        lemma_names(id, id);
    }
    assert forall|i: int| 0 <= i < links.len() && name == #[trigger] guard_name(i) implies init == (links[i].from_id != INIT_ID) by {
        lemma_names(i as usize, i as usize);
        lemma_numbered("guard-"@, i as usize);
    }
}

proof fn lemma_atom_fact(links: Seq<LinkView>, g: Grounding, t: GroundTaskView, p: Predicate, objects: Seq<Object>)
    ensures
        atom_fact(g, t, p, objects).1.facts.len() >= t.facts.len(),
        tidy(t, links) && is_numbered(atom_fact(g, t, p, objects).1) ==> {
            let (id, t1) = atom_fact(g, t, p, objects);
            tidy(t1, links) && grows(t, t1) && atoms_beyond(t, t1) && is_named(t1, id, fact_name(g.names, p, objects))
        },
        is_atom_name(fact_name(g.names, p, objects)),
{
    let name = fact_name(g.names, p, objects);
    let init = g.init.contains(crate::formula::AtomView { predicate: p, terms: crate::ground_task::as_terms(objects) });
    lemma_atom_name(g, p, objects);
    lemma_atom_proper(links, name, init);
    lemma_interned(links, t, name, init);
}

/// Whether every listed fact is an atom.
spec fn are_atoms(t: GroundTaskView, facts: Seq<(usize, bool)>) -> bool {
    forall|i: int| 0 <= i < facts.len() ==> (#[trigger] facts[i]).0 < t.facts.len() && is_atom_name(t.facts[facts[i].0 as int])
}

/// What flattening a condition keeps.
spec fn flattens(links: Seq<LinkView>, t: GroundTaskView, facts: Seq<(usize, bool)>, out: Flat) -> bool {
    &&& out.task.facts.len() >= t.facts.len()
    &&& tidy(t, links) && is_numbered(out.task) ==> {
        &&& tidy(out.task, links)
        &&& grows(t, out.task)
        &&& atoms_beyond(t, out.task)
        &&& are_atoms(t, facts) ==> are_atoms(out.task, out.facts)
    }
}

proof fn lemma_flat(links: Seq<LinkView>, g: Grounding, t: GroundTaskView, facts: Seq<(usize, bool)>, f: FormulaView)
    ensures
        flattens(links, t, facts, flat(g, t, facts, f)),
    decreases f, 0nat,
{
    match f {
        FormulaView::Atom(a) => {
            if let Some(objects) = objects_of(a.terms) {
                lemma_atom_fact(links, g, t, a.predicate, objects);
            }
        },
        FormulaView::Negation(a) => {
            if let Some(objects) = objects_of(a.terms) {
                lemma_atom_fact(links, g, t, a.predicate, objects);
            }
        },
        FormulaView::Conjunction(cs) => {
            lemma_flat_all(links, g, t, facts, cs, cs.len());
        },
        _ => {},
    }
}

proof fn lemma_flat_all(links: Seq<LinkView>, g: Grounding, t: GroundTaskView, facts: Seq<(usize, bool)>, fs: Seq<FormulaView>, n: nat)
    ensures
        flattens(links, t, facts, flat_all(g, t, facts, fs, n)),
    decreases fs, n,
{
    if n > 0 && n <= fs.len() {
        lemma_flat_all(links, g, t, facts, fs, (n - 1) as nat);
        let rest = flat_all(g, t, facts, fs, (n - 1) as nat);
        if rest.ok {
            lemma_flat(links, g, rest.task, rest.facts, fs[n - 1]);
        }
    }
}

/// Whether every effect is on an atom.
spec fn on_atoms(t: GroundTaskView, es: Seq<GroundEffectView>) -> bool {
    forall|i: int| 0 <= i < es.len() ==> (#[trigger] es[i]).fact < t.facts.len() && is_atom_name(t.facts[es[i].fact as int])
}

proof fn lemma_ground_effects(links: Seq<LinkView>, g: Grounding, t: GroundTaskView, es: Seq<EffectView>, n: nat)
    ensures
        flat_effects(g, t, es, n).task.facts.len() >= t.facts.len(),
        tidy(t, links) && is_numbered(flat_effects(g, t, es, n).task) ==> {
            let out = flat_effects(g, t, es, n);
            tidy(out.task, links) && grows(t, out.task) && atoms_beyond(t, out.task) && on_atoms(out.task, out.effects)
        },
    decreases n,
{
    if n > 0 {
        lemma_ground_effects(links, g, t, es, (n - 1) as nat);
        let before = flat_effects(g, t, es, (n - 1) as nat);
        let e = es[n - 1];
        if !(e.condition is False || e.parameters.len() > 0) {
            lemma_flat(links, g, before.task, seq![], e.condition);
            let cond = flat(g, before.task, seq![], e.condition);
            if let Some(objects) = objects_of(e.literal.atom.terms) {
                if cond.ok {
                    lemma_atom_fact(links, g, cond.task, e.literal.atom.predicate, objects);
                }
            }
        }
    }
}

// ---------------------------------------------------------------------------
// The insertable actions
// ---------------------------------------------------------------------------

/// An operator of an insertable action: its effects are on atoms, and it does not
/// ask whether a step has been executed.
spec fn plain(t: GroundTaskView, o: GroundOpView) -> bool {
    &&& on_atoms(t, o.effects)
    &&& forall|i: int| 0 <= i < o.pre.len() ==> (#[trigger] o.pre[i]).0 < t.facts.len() && !is_unfired(t.facts[o.pre[i].0 as int])
}

proof fn lemma_plain(a: GroundTaskView, b: GroundTaskView, o: GroundOpView)
    requires
        plain(a, o),
        more_facts(a, b),
    ensures
        plain(b, o),
{
}

proof fn lemma_not_unfired(s: Seq<char>)
    ensures
        is_atom_name(s) ==> !is_unfired(s),
        (exists|id: usize| s == #[trigger] fired_name(id)) ==> !is_unfired(s),
        (exists|i: int| s == #[trigger] guard_name(i)) ==> !is_unfired(s),
{
    if is_unfired(s) {
        let id = choose|id: usize| s == #[trigger] unfired_name(id);
        lemma_names(id, id);
        assert forall|k: usize| s != #[trigger] fired_name(k) by {
            lemma_names(id, k);
        }
        assert forall|i: int| s != #[trigger] guard_name(i) by {
            lemma_names(id, i as usize);
            assert(guard_name(i) == guard_name((i as usize) as int));
        }
    }
}

/// Whether every operator is that of an insertable action.
spec fn all_plain(t: GroundTaskView, n: int) -> bool {
    forall|i: int| 0 <= i < n ==> plain(t, #[trigger] t.ops[i])
}

proof fn lemma_based(links: Seq<LinkView>, g: Grounding, actions: Seq<StepActionView>, n: nat)
    ensures
        n > 0 ==> based(g, actions, n).facts.len() >= based(g, actions, (n - 1) as nat).facts.len(),
        is_numbered(based(g, actions, n)) ==> {
            let t = based(g, actions, n);
            tidy(t, links) && all_plain(t, t.ops.len() as int) && t.goal.len() == 0
        },
    decreases n,
{
    if n > 0 {
        lemma_based(links, g, actions, (n - 1) as nat);
        let t = based(g, actions, (n - 1) as nat);
        let a = actions[n - 1];
        lemma_flat(links, g, t, seq![], a.precondition);
        let pre = flat(g, t, seq![], a.precondition);
        lemma_ground_effects(links, g, pre.task, a.effects, a.effects.len());
        let out = based(g, actions, n);
        if is_numbered(out) {
            assert forall|i: int| 0 <= i < out.ops.len() implies plain(out, #[trigger] out.ops[i]) by {
                if i < t.ops.len() {
                    assert(plain(t, t.ops[i]));
                    lemma_plain(t, out, t.ops[i]);
                } else {
                    let o = out.ops[i];
                    assert forall|j: int| 0 <= j < o.pre.len() implies (#[trigger] o.pre[j]).0 < out.facts.len() && !is_unfired(
                        out.facts[o.pre[j].0 as int],
                    ) by {
                        assert(pre.facts[j].0 < pre.task.facts.len());
                        lemma_not_unfired(out.facts[o.pre[j].0 as int]);
                    }
                }
            }
        }
    }
}

// ---------------------------------------------------------------------------
// Indicators and guards
// ---------------------------------------------------------------------------

proof fn lemma_indicator(links: Seq<LinkView>, t: GroundTaskView, id: usize)
    ensures
        interned(t, fired_name(id), false).1.facts.len() >= t.facts.len(),
        tidy(t, links) && is_numbered(interned(t, fired_name(id), false).1) ==> {
            let (f, t1) = interned(t, fired_name(id), false);
            tidy(t1, links) && grows(t, t1) && is_named(t1, f, fired_name(id))
        },
        interned(t, unfired_name(id), true).1.facts.len() >= t.facts.len(),
        tidy(t, links) && is_numbered(interned(t, unfired_name(id), true).1) ==> {
            let (f, t1) = interned(t, unfired_name(id), true);
            tidy(t1, links) && grows(t, t1) && is_named(t1, f, unfired_name(id))
        },
{
    assert forall|i: int| #[trigger] guard_name(i) != fired_name(id) && guard_name(i) != unfired_name(id) by {
        lemma_names(id, i as usize);
        assert(guard_name(i) == guard_name((i as usize) as int));
    }
    assert forall|k: usize| #[trigger] fired_name(k) != unfired_name(id) by {
        lemma_names(id, k);
    }
    lemma_interned(links, t, fired_name(id), false);
    lemma_interned(links, t, unfired_name(id), true);
}

proof fn lemma_guard(links: Seq<LinkView>, t: GroundTaskView, i: int)
    requires
        0 <= i < links.len() <= usize::MAX,
    ensures
        guard_fact(t, links, i).1.facts.len() >= t.facts.len(),
        tidy(t, links) && is_numbered(guard_fact(t, links, i).1) ==> {
            let (f, t1) = guard_fact(t, links, i);
            tidy(t1, links) && grows(t, t1) && is_named(t1, f, guard_name(i))
        },
{
    let name = guard_name(i);
    assert forall|k: usize| name != #[trigger] fired_name(k) by {
        lemma_names(k, i as usize);
    }
    assert forall|j: int| 0 <= j < links.len() && name == #[trigger] guard_name(j) implies j == i by {
        lemma_names(i as usize, j as usize);
    }
    lemma_interned(links, t, name, links[i].from_id != INIT_ID);
}

proof fn lemma_step_facts(links: Seq<LinkView>, t: GroundTaskView, ids: Seq<usize>, n: nat)
    ensures
        with_step_facts(t, ids, n).facts.len() >= t.facts.len(),
        tidy(t, links) && is_numbered(with_step_facts(t, ids, n)) ==> tidy(with_step_facts(t, ids, n), links) && grows(
            t,
            with_step_facts(t, ids, n),
        ),
    decreases n,
{
    if n > 0 {
        lemma_step_facts(links, t, ids, (n - 1) as nat);
        let rest = with_step_facts(t, ids, (n - 1) as nat);
        lemma_indicator(links, rest, ids[n - 1]);
        lemma_indicator(links, interned(rest, unfired_name(ids[n - 1]), true).1, ids[n - 1]);
    }
}

proof fn lemma_guard_facts(links: Seq<LinkView>, t: GroundTaskView, n: nat)
    requires
        n <= links.len() <= usize::MAX,
    ensures
        with_guard_facts(t, links, n).facts.len() >= t.facts.len(),
        tidy(t, links) && is_numbered(with_guard_facts(t, links, n)) ==> tidy(with_guard_facts(t, links, n), links) && grows(
            t,
            with_guard_facts(t, links, n),
        ),
    decreases n,
{
    if n > 0 {
        lemma_guard_facts(links, t, (n - 1) as nat);
        lemma_guard(links, with_guard_facts(t, links, (n - 1) as nat), n - 1);
    }
}

// ---------------------------------------------------------------------------
// What operators need and do
// ---------------------------------------------------------------------------

/// Whether the fact of some name is listed as one that holds.
pub open spec fn asks(t: GroundTaskView, facts: Seq<(usize, bool)>, name: Seq<char>) -> bool {
    exists|i: int| 0 <= i < facts.len() && (#[trigger] facts[i]).1 && is_named(t, facts[i].0, name)
}

/// Whether an effect without conditions gives the fact of some name a value.
spec fn gives(t: GroundTaskView, es: Seq<GroundEffectView>, name: Seq<char>, value: bool) -> bool {
    exists|i: int| 0 <= i < es.len() && (#[trigger] es[i]).cond.len() == 0 && es[i].value == value && is_named(t, es[i].fact, name)
}

proof fn lemma_asks(a: GroundTaskView, b: GroundTaskView, facts: Seq<(usize, bool)>, more: Seq<(usize, bool)>, name: Seq<char>)
    requires
        asks(a, facts, name),
        more_facts(a, b),
        facts.len() <= more.len(),
        forall|i: int| 0 <= i < facts.len() ==> #[trigger] more[i] == facts[i],
    ensures
        asks(b, more, name),
{
    let i = choose|i: int| 0 <= i < facts.len() && (#[trigger] facts[i]).1 && is_named(a, facts[i].0, name);
    assert(more[i] == facts[i]);
}

proof fn lemma_gives(a: GroundTaskView, b: GroundTaskView, es: Seq<GroundEffectView>, more: Seq<GroundEffectView>, name: Seq<char>, value: bool)
    requires
        gives(a, es, name, value),
        more_facts(a, b),
        es.len() <= more.len(),
        forall|i: int| 0 <= i < es.len() ==> #[trigger] more[i] == es[i],
    ensures
        gives(b, more, name, value),
{
    let i = choose|i: int| 0 <= i < es.len() && (#[trigger] es[i]).cond.len() == 0 && es[i].value == value && is_named(a, es[i].fact, name);
    assert(more[i] == es[i]);
}

/// The literal that a link protects, if it is ground: the name of its fact.
pub open spec fn protected_name(g: Grounding, sets: Seq<Class>, l: LinkView) -> Option<Seq<char>> {
    let v = resolved_literal(sets, l.condition, l.to_id);
    match objects_of(v.atom.terms) {
        Some(objects) => Some(fact_name(g.names, v.atom.predicate, objects)),
        None => None,
    }
}

/// Whether an operator may undo what a link protects.
pub open spec fn threatens(t: GroundTaskView, g: Grounding, sets: Seq<Class>, l: LinkView, o: GroundOpView) -> bool {
    exists|f: usize|
        is_named(t, f, protected_name(g, sets, l)->0) && #[trigger] sets_fact(o, f, resolved_literal(sets, l.condition, l.to_id).negative)
}

/// Whether the operators of the insertable actions that may undo what a link protects
/// need its guard.
spec fn watched(t: GroundTaskView, g: Grounding, sets: Seq<Class>, l: LinkView, i: int, n: int) -> bool {
    protected_name(g, sets, l) is Some ==> forall|j: int|
        0 <= j < n && threatens(t, g, sets, l, #[trigger] t.ops[j]) ==> asks(t, t.ops[j].pre, guard_name(i))
}

/// What the first `n` links leave of the operators of the insertable actions.
spec fn folded(t: GroundTaskView, g: Grounding, sets: Seq<Class>, links: Seq<LinkView>, originals: int, n: nat) -> bool {
    &&& all_plain(t, originals)
    &&& forall|i: int| 0 <= i < n ==> watched(t, g, sets, #[trigger] links[i], i, originals)
}

proof fn lemma_same_number_of(t: GroundTaskView, links: Seq<LinkView>, name: Seq<char>, a: usize, b: usize)
    requires
        tidy(t, links),
        is_named(t, a, name),
        is_named(t, b, name),
    ensures
        a == b,
{
    if a < b {
        assert(t.facts[a as int] != t.facts[b as int]);
    } else if b < a {
        assert(t.facts[b as int] != t.facts[a as int]);
    }
}

/// More facts and more preconditions leave the operators as they should be.
proof fn lemma_watched(a: GroundTaskView, b: GroundTaskView, links: Seq<LinkView>, g: Grounding, sets: Seq<Class>, l: LinkView, i: int, n: int)
    requires
        tidy(b, links),
        more_facts(a, b),
        n <= a.ops.len() <= b.ops.len(),
        all_plain(a, n),
        forall|j: int|
            0 <= j < n ==> {
                &&& (#[trigger] b.ops[j]).effects == a.ops[j].effects
                &&& a.ops[j].pre.len() <= b.ops[j].pre.len()
                &&& forall|q: int| 0 <= q < a.ops[j].pre.len() ==> #[trigger] b.ops[j].pre[q] == a.ops[j].pre[q]
            },
        watched(a, g, sets, l, i, n),
    ensures
        watched(b, g, sets, l, i, n),
{
    if protected_name(g, sets, l) is Some {
        let name = protected_name(g, sets, l)->0;
        let value = resolved_literal(sets, l.condition, l.to_id).negative;
        assert forall|j: int| 0 <= j < n && threatens(b, g, sets, l, #[trigger] b.ops[j]) implies asks(b, b.ops[j].pre, guard_name(i)) by {
            let f = choose|f: usize| is_named(b, f, name) && #[trigger] sets_fact(b.ops[j], f, value);
            assert(b.ops[j].effects == a.ops[j].effects);
            let k = choose|k: int|
                0 <= k < b.ops[j].effects.len() && (#[trigger] b.ops[j].effects[k]).fact == f && b.ops[j].effects[k].value == value;
            assert(plain(a, a.ops[j]));
            assert(a.ops[j].effects[k].fact < a.facts.len());
            assert(is_named(a, f, name) && sets_fact(a.ops[j], f, value));
            assert(threatens(a, g, sets, l, a.ops[j]));
            lemma_asks(a, b, a.ops[j].pre, b.ops[j].pre, guard_name(i));
        }
    }
}

proof fn lemma_folded(g: Grounding, sets: Seq<Class>, t: GroundTaskView, links: Seq<LinkView>, originals: int, n: nat)
    requires
        n <= links.len() <= usize::MAX,
        0 <= originals <= t.ops.len(),
    ensures
        with_folded(g, sets, t, links, originals, n).facts.len() >= t.facts.len(),
        with_folded(g, sets, t, links, originals, n).ops.len() == t.ops.len(),
        tidy(t, links) && all_plain(t, originals) && is_numbered(with_folded(g, sets, t, links, originals, n)) ==> {
            let out = with_folded(g, sets, t, links, originals, n);
            tidy(out, links) && more_facts(t, out) && out.goal == t.goal && folded(out, g, sets, links, originals, n)
        },
    decreases n,
{
    if n > 0 {
        lemma_folded(g, sets, t, links, originals, (n - 1) as nat);
        let rest = with_folded(g, sets, t, links, originals, (n - 1) as nat);
        let l = links[n - 1];
        let v = resolved_literal(sets, l.condition, l.to_id);
        let out = with_folded(g, sets, t, links, originals, n);
        match objects_of(v.atom.terms) {
            Some(objects) => {
                lemma_atom_fact(links, g, rest, v.atom.predicate, objects);
                let (fact, t1) = atom_fact(g, rest, v.atom.predicate, objects);
                lemma_guard(links, t1, n - 1);
                let (guard, t2) = guard_fact(t1, links, n - 1);
                if tidy(t, links) && all_plain(t, originals) && is_numbered(out) {
                    assert(tidy(out, links) && more_facts(rest, out));
                    assert forall|j: int| 0 <= j < originals implies plain(out, #[trigger] out.ops[j]) by {
                        assert(plain(rest, rest.ops[j]));
                        let o = out.ops[j];
                        assert forall|q: int| 0 <= q < o.pre.len() implies (#[trigger] o.pre[q]).0 < out.facts.len() && !is_unfired(
                            out.facts[o.pre[q].0 as int],
                        ) by {
                            if q < rest.ops[j].pre.len() {
                                assert(o.pre[q] == rest.ops[j].pre[q]);
                            } else {
                                assert(out.facts[guard as int] == guard_name(n - 1));
                                lemma_not_unfired(guard_name(n - 1));
                            }
                        }
                    }
                    assert forall|i: int| 0 <= i < n implies watched(out, g, sets, #[trigger] links[i], i, originals) by {
                        if i < n - 1 {
                            lemma_watched(rest, out, links, g, sets, links[i], i, originals);
                        } else {
                            let name = protected_name(g, sets, l)->0;
                            assert forall|j: int| 0 <= j < originals && threatens(out, g, sets, l, #[trigger] out.ops[j]) implies asks(
                                out,
                                out.ops[j].pre,
                                guard_name(i),
                            ) by {
                                let f = choose|f: usize| is_named(out, f, name) && #[trigger] sets_fact(out.ops[j], f, v.negative);
                                lemma_same_number_of(out, links, name, f, fact);
                                assert(t2.ops[j].effects == out.ops[j].effects);
                                assert(sets_fact(t2.ops[j], fact, v.negative)) by {
                                    let k = choose|k: int|
                                        0 <= k < out.ops[j].effects.len() && (#[trigger] out.ops[j].effects[k]).fact == f
                                            && out.ops[j].effects[k].value == v.negative;
                                    assert(t2.ops[j].effects[k].fact == fact);
                                }
                                assert(out.ops[j].pre == t2.ops[j].pre.push((guard, true)));
                                let q = t2.ops[j].pre.len() as int;
                                assert(out.ops[j].pre[q].1 && is_named(out, out.ops[j].pre[q].0, guard_name(i)));
                            }
                        }
                    }
                }
            },
            None => {
                if tidy(t, links) && all_plain(t, originals) && is_numbered(out) {
                    assert forall|i: int| 0 <= i < n implies watched(out, g, sets, #[trigger] links[i], i, originals) by {
                        if i < n - 1 {
                            assert(watched(rest, g, sets, links[i], i, originals));
                        }
                    }
                }
            },
        }
    }
}

// ---------------------------------------------------------------------------
// The committed steps
// ---------------------------------------------------------------------------

/// Whether the conditions ask of no step but one whether it has not been executed.
spec fn asks_of_itself(t: GroundTaskView, facts: Seq<(usize, bool)>, id: usize) -> bool {
    forall|i: int|
        0 <= i < facts.len() ==> (#[trigger] facts[i]).0 < t.facts.len() && (is_unfired(t.facts[facts[i].0 as int]) ==> t.facts[facts[i].0 as int]
            == unfired_name(id))
}

/// What an effect of the operator of a step may do.
spec fn is_own_effect(t: GroundTaskView, links: Seq<LinkView>, id: usize, e: GroundEffectView) -> bool {
    e.fact < t.facts.len() && {
        let name = t.facts[e.fact as int];
        ||| is_atom_name(name)
        ||| name == fired_name(id) && e.value
        ||| name == unfired_name(id) && !e.value
        ||| exists|i: int|
            0 <= i < links.len() && name == #[trigger] guard_name(i) && id == if e.value {
                links[i].to_id
            } else {
                links[i].from_id
            }
    }
}

spec fn are_own_effects(t: GroundTaskView, links: Seq<LinkView>, id: usize, es: Seq<GroundEffectView>) -> bool {
    forall|i: int| 0 <= i < es.len() ==> is_own_effect(t, links, id, #[trigger] es[i])
}

proof fn lemma_own_effects(a: GroundTaskView, b: GroundTaskView, links: Seq<LinkView>, id: usize, es: Seq<GroundEffectView>)
    requires
        more_facts(a, b),
        are_own_effects(a, links, id, es),
    ensures
        are_own_effects(b, links, id, es),
{
    assert forall|i: int| 0 <= i < es.len() implies is_own_effect(b, links, id, #[trigger] es[i]) by {
        assert(is_own_effect(a, links, id, es[i]));
        assert(b.facts[es[i].fact as int] == a.facts[es[i].fact as int]);
    }
}

/// The operator of a committed step.
spec fn is_step_op(t: GroundTaskView, pv: PlanView, o: GroundOpView, s: StepView) -> bool {
    let ids = committed(pv.steps, pv.steps.len());
    let before = predecessors(pv.order, ids, s.id, ids.len());
    let guards = clobbered(pv.classes, s, pv.links, pv.links.len());
    &&& asks(t, o.pre, unfired_name(s.id))
    &&& asks_of_itself(t, o.pre, s.id)
    &&& forall|i: int| 0 <= i < before.len() ==> asks(t, o.pre, fired_name(#[trigger] before[i]))
    &&& forall|i: int| 0 <= i < guards.len() ==> asks(t, o.pre, guard_name(#[trigger] guards[i] as int))
    &&& gives(t, o.effects, fired_name(s.id), true)
    &&& gives(t, o.effects, unfired_name(s.id), false)
    &&& forall|i: int| 0 <= i < pv.links.len() && (#[trigger] pv.links[i]).from_id == s.id ==> gives(t, o.effects, guard_name(i), false)
    &&& are_own_effects(t, pv.links, s.id, o.effects)
}

proof fn lemma_step_op(a: GroundTaskView, b: GroundTaskView, pv: PlanView, o: GroundOpView, s: StepView)
    requires
        more_facts(a, b),
        is_step_op(a, pv, o, s),
    ensures
        is_step_op(b, pv, o, s),
{
    let ids = committed(pv.steps, pv.steps.len());
    let before = predecessors(pv.order, ids, s.id, ids.len());
    let guards = clobbered(pv.classes, s, pv.links, pv.links.len());
    lemma_asks(a, b, o.pre, o.pre, unfired_name(s.id));
    lemma_gives(a, b, o.effects, o.effects, fired_name(s.id), true);
    lemma_gives(a, b, o.effects, o.effects, unfired_name(s.id), false);
    lemma_own_effects(a, b, pv.links, s.id, o.effects);
    assert forall|i: int| 0 <= i < before.len() implies asks(b, o.pre, fired_name(#[trigger] before[i])) by {
        lemma_asks(a, b, o.pre, o.pre, fired_name(before[i]));
    }
    assert forall|i: int| 0 <= i < guards.len() implies asks(b, o.pre, guard_name(#[trigger] guards[i] as int)) by {
        lemma_asks(a, b, o.pre, o.pre, guard_name(guards[i] as int));
    }
    assert forall|i: int| 0 <= i < pv.links.len() && (#[trigger] pv.links[i]).from_id == s.id implies gives(b, o.effects, guard_name(i), false) by {
        lemma_gives(a, b, o.effects, o.effects, guard_name(i), false);
    }
    assert forall|i: int| 0 <= i < o.pre.len() implies (#[trigger] o.pre[i]).0 < b.facts.len() && (is_unfired(b.facts[o.pre[i].0 as int])
        ==> b.facts[o.pre[i].0 as int] == unfired_name(s.id)) by {
        assert(o.pre[i].0 < a.facts.len());
    }
}

/// What adding conditions keeps.
spec fn asks_more(links: Seq<LinkView>, id: usize, before: Flat, out: Flat) -> bool {
    &&& out.task.facts.len() >= before.task.facts.len()
    &&& before.facts.len() <= out.facts.len()
    &&& forall|i: int| 0 <= i < before.facts.len() ==> #[trigger] out.facts[i] == before.facts[i]
    &&& tidy(before.task, links) && is_numbered(out.task) ==> {
        &&& tidy(out.task, links)
        &&& grows(before.task, out.task)
        &&& asks_of_itself(before.task, before.facts, id) ==> asks_of_itself(out.task, out.facts, id)
    }
}

proof fn lemma_marks(links: Seq<LinkView>, id: usize, before: Flat, ids: Seq<usize>, n: nat)
    requires
        n <= ids.len(),
    ensures
        asks_more(links, id, before, with_marks(before, ids, n)),
        tidy(before.task, links) && is_numbered(with_marks(before, ids, n).task) ==> forall|i: int|
            0 <= i < n ==> asks(with_marks(before, ids, n).task, with_marks(before, ids, n).facts, fired_name(#[trigger] ids[i])),
    decreases n,
{
    if n > 0 {
        lemma_marks(links, id, before, ids, (n - 1) as nat);
        let rest = with_marks(before, ids, (n - 1) as nat);
        let out = with_marks(before, ids, n);
        lemma_indicator(links, rest.task, ids[n - 1]);
        let (f, t1) = interned(rest.task, fired_name(ids[n - 1]), false);
        if tidy(before.task, links) && is_numbered(out.task) {
            lemma_not_unfired(fired_name(ids[n - 1]));
            assert(out.facts[out.facts.len() - 1] == (f, true));
            assert forall|i: int| 0 <= i < n implies asks(out.task, out.facts, fired_name(#[trigger] ids[i])) by {
                if i < n - 1 {
                    lemma_asks(rest.task, out.task, rest.facts, out.facts, fired_name(ids[i]));
                }
            }
        }
    }
}

proof fn lemma_needs(links: Seq<LinkView>, id: usize, before: Flat, guards: Seq<usize>, n: nat)
    requires
        n <= guards.len(),
        links.len() <= usize::MAX,
        forall|i: int| 0 <= i < guards.len() ==> (#[trigger] guards[i]) < links.len(),
    ensures
        asks_more(links, id, before, with_needs(before, links, guards, n)),
        tidy(before.task, links) && is_numbered(with_needs(before, links, guards, n).task) ==> forall|i: int|
            0 <= i < n ==> asks(
                with_needs(before, links, guards, n).task,
                with_needs(before, links, guards, n).facts,
                guard_name(#[trigger] guards[i] as int),
            ),
    decreases n,
{
    if n > 0 {
        lemma_needs(links, id, before, guards, (n - 1) as nat);
        let rest = with_needs(before, links, guards, (n - 1) as nat);
        let out = with_needs(before, links, guards, n);
        let g = guards[n - 1] as int;
        lemma_guard(links, rest.task, g);
        let (f, t1) = guard_fact(rest.task, links, g);
        if tidy(before.task, links) && is_numbered(out.task) {
            lemma_not_unfired(guard_name(g));
            assert(out.facts[out.facts.len() - 1] == (f, true));
            assert forall|i: int| 0 <= i < n implies asks(out.task, out.facts, guard_name(#[trigger] guards[i] as int)) by {
                if i < n - 1 {
                    lemma_asks(rest.task, out.task, rest.facts, out.facts, guard_name(guards[i] as int));
                }
            }
        }
    }
}

/// What adding effects keeps.
spec fn gives_more(links: Seq<LinkView>, id: usize, before: FlatEffects, out: FlatEffects) -> bool {
    &&& out.task.facts.len() >= before.task.facts.len()
    &&& before.effects.len() <= out.effects.len()
    &&& forall|i: int| 0 <= i < before.effects.len() ==> #[trigger] out.effects[i] == before.effects[i]
    &&& tidy(before.task, links) && is_numbered(out.task) ==> {
        &&& tidy(out.task, links)
        &&& grows(before.task, out.task)
        &&& are_own_effects(before.task, links, id, before.effects) ==> are_own_effects(out.task, links, id, out.effects)
    }
}

proof fn lemma_own_guard(links: Seq<LinkView>, id: usize, before: FlatEffects, i: int, value: bool)
    requires
        0 <= i < links.len() <= usize::MAX,
        id == if value {
            links[i].to_id
        } else {
            links[i].from_id
        },
    ensures
        ({
            let (f, t) = guard_fact(before.task, links, i);
            let out = FlatEffects { effects: before.effects.push(GroundEffectView { cond: seq![], fact: f, value }), task: t };
            &&& gives_more(links, id, before, out)
            &&& tidy(before.task, links) && is_numbered(t) ==> gives(t, out.effects, guard_name(i), value)
        }),
{
    lemma_guard(links, before.task, i);
    let (f, t) = guard_fact(before.task, links, i);
    let e = GroundEffectView { cond: seq![], fact: f, value };
    let es = before.effects.push(e);
    if tidy(before.task, links) && is_numbered(t) {
        assert(es[es.len() - 1] == e);
        if are_own_effects(before.task, links, id, before.effects) {
            lemma_own_effects(before.task, t, links, id, before.effects);
            assert forall|k: int| 0 <= k < es.len() implies is_own_effect(t, links, id, #[trigger] es[k]) by {
                if k < before.effects.len() {
                    assert(es[k] == before.effects[k]);
                }
            }
        }
    }
}

proof fn lemma_link_effects(links: Seq<LinkView>, id: usize, before: FlatEffects, n: nat)
    requires
        n <= links.len() <= usize::MAX,
    ensures
        gives_more(links, id, before, with_link_effects(before, links, id, n)),
        tidy(before.task, links) && is_numbered(with_link_effects(before, links, id, n).task) ==> forall|i: int|
            0 <= i < n && (#[trigger] links[i]).from_id == id ==> gives(
                with_link_effects(before, links, id, n).task,
                with_link_effects(before, links, id, n).effects,
                guard_name(i),
                false,
            ),
    decreases n,
{
    if n > 0 {
        lemma_link_effects(links, id, before, (n - 1) as nat);
        let rest = with_link_effects(before, links, id, (n - 1) as nat);
        let out = with_link_effects(before, links, id, n);
        let l = links[n - 1];
        let taken = if l.from_id == id {
            let (f, t) = guard_fact(rest.task, links, n - 1);
            FlatEffects { effects: rest.effects.push(GroundEffectView { cond: seq![], fact: f, value: false }), task: t }
        } else {
            rest
        };
        if l.from_id == id {
            lemma_own_guard(links, id, rest, n - 1, false);
        }
        if l.to_id == id {
            lemma_own_guard(links, id, taken, n - 1, true);
        }
        assert(gives_more(links, id, rest, taken));
        assert(gives_more(links, id, taken, out));
        if tidy(before.task, links) && is_numbered(out.task) {
            assert forall|i: int| 0 <= i < n && (#[trigger] links[i]).from_id == id implies gives(out.task, out.effects, guard_name(i), false) by {
                if i < n - 1 {
                    lemma_gives(rest.task, taken.task, rest.effects, taken.effects, guard_name(i), false);
                }
                lemma_gives(taken.task, out.task, taken.effects, out.effects, guard_name(i), false);
            }
        }
    }
}

proof fn lemma_clobbered(sets: Seq<Class>, s: StepView, links: Seq<LinkView>, n: nat)
    requires
        n <= links.len() <= usize::MAX,
    ensures
        forall|i: int| 0 <= i < clobbered(sets, s, links, n).len() ==> (#[trigger] clobbered(sets, s, links, n)[i]) < n,
    decreases n,
{
    if n > 0 {
        lemma_clobbered(sets, s, links, (n - 1) as nat);
        let rest = clobbered(sets, s, links, (n - 1) as nat);
        let all = clobbered(sets, s, links, n);
        assert forall|i: int| 0 <= i < all.len() implies (#[trigger] all[i]) < n by {
            if i < rest.len() {
                assert(all[i] == rest[i]);
            }
        }
    }
}

#[verifier::rlimit(40)]
proof fn lemma_committed(g: Grounding, pv: PlanView, t: GroundTaskView, s: StepView)
    requires
        pv.links.len() <= usize::MAX,
    ensures
        with_committed(g, pv, t, s).facts.len() >= t.facts.len(),
        tidy(t, pv.links) && is_numbered(with_committed(g, pv, t, s)) ==> {
            let out = with_committed(g, pv, t, s);
            &&& tidy(out, pv.links) && more_facts(t, out) && out.goal == t.goal
            &&& out.ops == t.ops || out.ops == t.ops.push(out.ops.last()) && is_step_op(out, pv, out.ops.last(), s)
        },
{
    let links = pv.links;
    lemma_flat(links, g, t, seq![], s.action.precondition);
    let pre = flat(g, t, seq![], s.action.precondition);
    if pre.ok {
        lemma_ground_effects(links, g, pre.task, s.action.effects, s.action.effects.len());
        let es = flat_effects(g, pre.task, s.action.effects, s.action.effects.len());
        lemma_indicator(links, es.task, s.id);
        let (neg, t1) = interned(es.task, unfired_name(s.id), true);
        lemma_indicator(links, t1, s.id);
        let (pos, t2) = interned(t1, fired_name(s.id), false);
        let once = Flat { ok: true, facts: pre.facts.push((neg, true)), task: t2 };
        let yes = GroundEffectView { cond: seq![], fact: pos, value: true };
        let no = GroundEffectView { cond: seq![], fact: neg, value: false };
        let fired = es.effects.push(yes).push(no);
        let ids = committed(pv.steps, pv.steps.len());
        let before = predecessors(pv.order, ids, s.id, ids.len());
        lemma_marks(links, s.id, once, before, before.len());
        let after = with_marks(once, before, before.len());
        let start = FlatEffects { effects: fired, task: after.task };
        lemma_link_effects(links, s.id, start, links.len());
        let linked = with_link_effects(start, links, s.id, links.len());
        let guards = clobbered(pv.classes, s, links, links.len());
        lemma_clobbered(pv.classes, s, links, links.len());
        let mid = Flat { ok: true, facts: after.facts, task: linked.task };
        lemma_needs(links, s.id, mid, guards, guards.len());
        let guarded = with_needs(mid, links, guards, guards.len());
        let out = with_committed(g, pv, t, s);
        if tidy(t, links) && is_numbered(out) {
            let o = out.ops.last();
            assert(out.facts == guarded.task.facts);
            assert(tidy(out, links) && more_facts(t, out));
            assert(more_facts(t2, after.task) && more_facts(after.task, linked.task) && more_facts(linked.task, out));
            // the conditions
            assert forall|i: int| 0 <= i < once.facts.len() implies (#[trigger] once.facts[i]).0 < t2.facts.len() && (is_unfired(
                t2.facts[once.facts[i].0 as int],
            ) ==> t2.facts[once.facts[i].0 as int] == unfired_name(s.id)) by {
                if i < pre.facts.len() {
                    assert(once.facts[i] == pre.facts[i]);
                    lemma_not_unfired(t2.facts[once.facts[i].0 as int]);
                } else {
                    assert(t2.facts[neg as int] == unfired_name(s.id));
                }
            }
            assert(asks_of_itself(after.task, after.facts, s.id));
            assert(asks_of_itself(mid.task, mid.facts, s.id)) by {
                assert forall|i: int| 0 <= i < mid.facts.len() implies (#[trigger] mid.facts[i]).0 < mid.task.facts.len() && (is_unfired(
                    mid.task.facts[mid.facts[i].0 as int],
                ) ==> mid.task.facts[mid.facts[i].0 as int] == unfired_name(s.id)) by {
                    assert(after.facts[i].0 < after.task.facts.len());
                }
            }
            assert(asks_of_itself(out, o.pre, s.id));
            assert(once.facts[once.facts.len() - 1] == (neg, true));
            assert(asks(t2, once.facts, unfired_name(s.id)));
            lemma_asks(t2, out, once.facts, o.pre, unfired_name(s.id));
            assert forall|i: int| 0 <= i < before.len() implies asks(out, o.pre, fired_name(#[trigger] before[i])) by {
                lemma_asks(after.task, out, after.facts, o.pre, fired_name(before[i]));
            }
            assert forall|i: int| 0 <= i < guards.len() implies asks(out, o.pre, guard_name(#[trigger] guards[i] as int)) by {
                assert(asks(guarded.task, guarded.facts, guard_name(guards[i] as int)));
                lemma_asks(guarded.task, out, guarded.facts, o.pre, guard_name(guards[i] as int));
            }
            // the effects
            assert(fired[fired.len() - 2] == yes && fired[fired.len() - 1] == no);
            assert(after.task.facts[pos as int] == fired_name(s.id) && after.task.facts[neg as int] == unfired_name(s.id));
            assert forall|i: int| 0 <= i < fired.len() implies is_own_effect(after.task, links, s.id, #[trigger] fired[i]) by {
                if i < es.effects.len() {
                    assert(fired[i] == es.effects[i]);
                }
            }
            lemma_own_effects(linked.task, out, links, s.id, o.effects);
            assert(gives(after.task, fired, fired_name(s.id), true));
            assert(gives(after.task, fired, unfired_name(s.id), false));
            lemma_gives(after.task, out, fired, o.effects, fired_name(s.id), true);
            lemma_gives(after.task, out, fired, o.effects, unfired_name(s.id), false);
            assert forall|i: int| 0 <= i < links.len() && (#[trigger] links[i]).from_id == s.id implies gives(out, o.effects, guard_name(i), false) by {
                lemma_gives(linked.task, out, linked.effects, o.effects, guard_name(i), false);
            }
        }
    }
}

/// Whether an operator is that of one of the first `n` steps.
spec fn is_some_step_op(t: GroundTaskView, pv: PlanView, o: GroundOpView, n: nat) -> bool {
    exists|k: int| 0 <= k < n && !pv.steps[k].action.is_synthetic() && is_step_op(t, pv, o, #[trigger] pv.steps[k])
}

/// The operators behind those of the insertable actions are those of steps.
spec fn stepped(t: GroundTaskView, pv: PlanView, originals: int, n: nat) -> bool {
    forall|j: int| originals <= j < t.ops.len() ==> is_some_step_op(t, pv, #[trigger] t.ops[j], n)
}

proof fn lemma_stepped(a: GroundTaskView, b: GroundTaskView, pv: PlanView, originals: int, n: nat)
    requires
        more_facts(a, b),
        b.ops == a.ops,
        stepped(a, pv, originals, n),
    ensures
        stepped(b, pv, originals, n),
{
    assert forall|j: int| originals <= j < b.ops.len() implies is_some_step_op(b, pv, #[trigger] b.ops[j], n) by {
        assert(is_some_step_op(a, pv, a.ops[j], n));
        let k = choose|k: int| 0 <= k < n && !pv.steps[k].action.is_synthetic() && is_step_op(a, pv, a.ops[j], #[trigger] pv.steps[k]);
        lemma_step_op(a, b, pv, a.ops[j], pv.steps[k]);
    }
}

proof fn lemma_kept(a: GroundTaskView, b: GroundTaskView, g: Grounding, pv: PlanView, originals: int)
    requires
        tidy(b, pv.links),
        more_facts(a, b),
        0 <= originals <= a.ops.len() <= b.ops.len(),
        forall|j: int| 0 <= j < a.ops.len() ==> #[trigger] b.ops[j] == a.ops[j],
        folded(a, g, pv.classes, pv.links, originals, pv.links.len()),
    ensures
        folded(b, g, pv.classes, pv.links, originals, pv.links.len()),
{
    assert forall|j: int| 0 <= j < originals implies plain(b, #[trigger] b.ops[j]) by {
        assert(plain(a, a.ops[j]));
        lemma_plain(a, b, a.ops[j]);
    }
    assert forall|i: int| 0 <= i < pv.links.len() implies watched(b, g, pv.classes, #[trigger] pv.links[i], i, originals) by {
        lemma_watched(a, b, pv.links, g, pv.classes, pv.links[i], i, originals);
    }
}

proof fn lemma_all_committed(g: Grounding, pv: PlanView, t: GroundTaskView, n: nat)
    requires
        pv.links.len() <= usize::MAX,
        n <= pv.steps.len(),
    ensures
        with_all_committed(g, pv, t, n).facts.len() >= t.facts.len(),
        tidy(t, pv.links) && folded(t, g, pv.classes, pv.links, t.ops.len() as int, pv.links.len()) && is_numbered(
            with_all_committed(g, pv, t, n),
        ) ==> {
            let out = with_all_committed(g, pv, t, n);
            &&& tidy(out, pv.links)
            &&& out.goal == t.goal
            &&& out.ops.len() >= t.ops.len()
            &&& folded(out, g, pv.classes, pv.links, t.ops.len() as int, pv.links.len())
            &&& stepped(out, pv, t.ops.len() as int, n)
        },
    decreases n,
{
    if n > 0 {
        let originals = t.ops.len() as int;
        lemma_all_committed(g, pv, t, (n - 1) as nat);
        let rest = with_all_committed(g, pv, t, (n - 1) as nat);
        let out = with_all_committed(g, pv, t, n);
        lemma_committed(g, pv, rest, pv.steps[n - 1]);
        if tidy(t, pv.links) && folded(t, g, pv.classes, pv.links, originals, pv.links.len()) && is_numbered(out) {
            lemma_kept(rest, out, g, pv, originals);
            assert forall|j: int| originals <= j < out.ops.len() implies is_some_step_op(out, pv, #[trigger] out.ops[j], n) by {
                if j < rest.ops.len() {
                    assert(out.ops[j] == rest.ops[j]);
                    assert(is_some_step_op(rest, pv, rest.ops[j], (n - 1) as nat));
                    let k = choose|k: int|
                        0 <= k < n - 1 && !pv.steps[k].action.is_synthetic() && is_step_op(rest, pv, rest.ops[j], #[trigger] pv.steps[k]);
                    lemma_step_op(rest, out, pv, rest.ops[j], pv.steps[k]);
                } else {
                    assert(is_step_op(out, pv, out.ops[j], pv.steps[n - 1]));
                }
            }
        }
    }
}

/// Whether no listed fact is a guard.
spec fn no_guards(t: GroundTaskView, facts: Seq<(usize, bool)>) -> bool {
    &&& forall|q: int| 0 <= q < facts.len() ==> (#[trigger] facts[q]).0 < t.facts.len()
    &&& forall|q: int, i: int| 0 <= q < facts.len() ==> t.facts[(#[trigger] facts[q]).0 as int] != #[trigger] guard_name(i)
}

proof fn lemma_step_goals(links: Seq<LinkView>, t: GroundTaskView, ids: Seq<usize>, n: nat)
    requires
        n <= ids.len(),
    ensures
        with_step_goals(t, ids, n).facts.len() >= t.facts.len(),
        tidy(t, links) && is_numbered(with_step_goals(t, ids, n)) ==> {
            let out = with_step_goals(t, ids, n);
            &&& tidy(out, links) && more_facts(t, out) && out.ops == t.ops
            &&& forall|i: int| 0 <= i < n ==> asks(out, out.goal, fired_name(#[trigger] ids[i]))
            &&& no_guards(t, t.goal) ==> no_guards(out, out.goal)
        },
    decreases n,
{
    if n > 0 {
        lemma_step_goals(links, t, ids, (n - 1) as nat);
        let rest = with_step_goals(t, ids, (n - 1) as nat);
        let out = with_step_goals(t, ids, n);
        lemma_indicator(links, rest, ids[n - 1]);
        let (f, t1) = interned(rest, fired_name(ids[n - 1]), false);
        if tidy(t, links) && is_numbered(out) {
            assert(out.goal[out.goal.len() - 1] == (f, true));
            if no_guards(t, t.goal) {
                assert forall|q: int| 0 <= q < out.goal.len() implies (#[trigger] out.goal[q]).0 < out.facts.len() by {
                    if q < rest.goal.len() {
                        assert(out.goal[q] == rest.goal[q]);
                    }
                }
                assert forall|q: int, i: int| 0 <= q < out.goal.len() implies out.facts[(#[trigger] out.goal[q]).0 as int] != #[trigger] guard_name(
                    i,
                ) by {
                    if q < rest.goal.len() {
                        assert(out.goal[q] == rest.goal[q]);
                        assert(rest.facts[rest.goal[q].0 as int] != guard_name(i));
                    } else {
                        lemma_names(ids[n - 1], i as usize);
                        assert(guard_name(i) == guard_name((i as usize) as int));
                    }
                }
            }
            assert forall|i: int| 0 <= i < n implies asks(out, out.goal, fired_name(#[trigger] ids[i])) by {
                if i < n - 1 {
                    lemma_asks(rest, out, rest.goal, out.goal, fired_name(ids[i]));
                }
            }
        }
    }
}

/// The task that a partial plan is grounded to, over the given insertable actions.
pub open spec fn compiled(g: Grounding, pv: PlanView, actions: Seq<StepActionView>, goal: FormulaView) -> GroundTaskView {
    grounded(g, pv, based(g, actions, actions.len()), goal)
}

/// The number of operators of insertable actions; they come first.
pub open spec fn originals(g: Grounding, actions: Seq<StepActionView>) -> int {
    based(g, actions, actions.len()).ops.len() as int
}

/// The ids of the committed steps.
pub open spec fn committed_ids_of(pv: PlanView) -> Seq<usize> {
    committed(pv.steps, pv.steps.len())
}

/// What the compilation of a plan looks like.
spec fn is_compiled(t: GroundTaskView, g: Grounding, pv: PlanView, n: int) -> bool {
    let ids = committed_ids_of(pv);
    &&& tidy(t, pv.links)
    &&& 0 <= n <= t.ops.len()
    &&& folded(t, g, pv.classes, pv.links, n, pv.links.len())
    &&& stepped(t, pv, n, pv.steps.len())
    &&& forall|i: int| 0 <= i < ids.len() ==> asks(t, t.goal, fired_name(#[trigger] ids[i]))
    &&& no_guards(t, t.goal)
}

proof fn lemma_compiled(g: Grounding, pv: PlanView, actions: Seq<StepActionView>, goal: FormulaView)
    requires
        pv.links.len() <= usize::MAX,
        is_numbered(compiled(g, pv, actions, goal)),
    ensures
        is_compiled(compiled(g, pv, actions, goal), g, pv, originals(g, actions)),
{
    let links = pv.links;
    let base = based(g, actions, actions.len());
    let n = base.ops.len() as int;
    let ids = committed_ids_of(pv);
    lemma_based(links, g, actions, actions.len());
    lemma_step_facts(links, base, ids, ids.len());
    let marked = with_step_facts(base, ids, ids.len());
    lemma_guard_facts(links, marked, links.len());
    let guarded = with_guard_facts(marked, links, links.len());
    lemma_same_ops(base, ids, ids.len());
    lemma_same_guarded_ops(marked, links, links.len());
    lemma_folded(g, pv.classes, guarded, links, n, links.len());
    let done = with_folded(g, pv.classes, guarded, links, n, links.len());
    lemma_all_committed(g, pv, done, pv.steps.len());
    let stepped_t = with_all_committed(g, pv, done, pv.steps.len());
    lemma_flat(links, g, stepped_t, seq![], goal);
    let goaled = with_problem_goal(g, stepped_t, goal);
    lemma_step_goals(links, goaled, ids, ids.len());
    let out = compiled(g, pv, actions, goal);
    assert(out == with_step_goals(goaled, ids, ids.len()));
    assert(tidy(base, links) && all_plain(base, n));
    assert forall|j: int| 0 <= j < n implies plain(guarded, #[trigger] guarded.ops[j]) by {
        assert(plain(base, base.ops[j]));
        lemma_plain(base, guarded, base.ops[j]);
    }
    assert(tidy(stepped_t, links));
    assert(tidy(goaled, links) && more_facts(stepped_t, goaled) && goaled.ops == stepped_t.ops);
    assert(stepped_t.goal.len() == 0);
    let flat_goal = flat(g, stepped_t, seq![], goal);
    assert forall|q: int| 0 <= q < goaled.goal.len() implies (#[trigger] goaled.goal[q]).0 < goaled.facts.len() by {
        assert(goaled.goal[q] == flat_goal.facts[q]);
    }
    assert forall|q: int, i: int| 0 <= q < goaled.goal.len() implies goaled.facts[(#[trigger] goaled.goal[q]).0 as int] != #[trigger] guard_name(i) by {
        assert(goaled.goal[q] == flat_goal.facts[q]);
        assert(is_atom_name(flat_goal.task.facts[flat_goal.facts[q].0 as int]));
        lemma_names(i as usize, i as usize);
        assert(guard_name(i) == guard_name((i as usize) as int));
    }
    lemma_kept(stepped_t, out, g, pv, n);
    lemma_stepped(stepped_t, out, pv, n, pv.steps.len());
}

proof fn lemma_same_ops(t: GroundTaskView, ids: Seq<usize>, n: nat)
    ensures
        with_step_facts(t, ids, n).ops == t.ops,
    decreases n,
{
    if n > 0 {
        lemma_same_ops(t, ids, (n - 1) as nat);
    }
}

proof fn lemma_same_guarded_ops(t: GroundTaskView, links: Seq<LinkView>, n: nat)
    ensures
        with_guard_facts(t, links, n).ops == t.ops,
    decreases n,
{
    if n > 0 {
        lemma_same_guarded_ops(t, links, (n - 1) as nat);
    }
}

// ---------------------------------------------------------------------------
// Laws
// ---------------------------------------------------------------------------

/// Whether a committed step is executed at a time point: the operator that needs the
/// step not to have been executed is applied.
pub open spec fn executed_at(t: GroundTaskView, acts: Seq<Option<int>>, k: int, id: usize) -> bool {
    0 <= k < acts.len() && (acts[k] matches Some(j) && asks(t, t.ops[j].pre, unfired_name(id)))
}

/// An operator that needs a step not to have been executed is that of the step.
proof fn lemma_executes(t: GroundTaskView, g: Grounding, pv: PlanView, n: int, j: int, id: usize) -> (k: int)
    requires
        is_compiled(t, g, pv, n),
        0 <= j < t.ops.len(),
        asks(t, t.ops[j].pre, unfired_name(id)),
    ensures
        0 <= k < pv.steps.len(),
        !pv.steps[k].action.is_synthetic(),
        pv.steps[k].id == id,
        is_step_op(t, pv, t.ops[j], pv.steps[k]),
{
    let o = t.ops[j];
    let q = choose|q: int| 0 <= q < o.pre.len() && (#[trigger] o.pre[q]).1 && is_named(t, o.pre[q].0, unfired_name(id));
    if j < n {
        assert(plain(t, o));
        assert(!is_unfired(t.facts[o.pre[q].0 as int]));
        assert(false);
    }
    assert(is_some_step_op(t, pv, o, pv.steps.len()));
    let k = choose|k: int| 0 <= k < pv.steps.len() && !pv.steps[k].action.is_synthetic() && is_step_op(t, pv, o, #[trigger] pv.steps[k]);
    assert(is_unfired(t.facts[o.pre[q].0 as int]));
    lemma_names(id, pv.steps[k].id);
    k
}

/// Only the operator of a step has an effect on its indicators, and only those of the
/// producer and the consumer of a link have one on its guard.
proof fn lemma_brought(t: GroundTaskView, g: Grounding, pv: PlanView, n: int, j: int, s: Seq<bool>, f: usize, value: bool) -> (k: int)
    requires
        is_compiled(t, g, pv, n),
        0 <= j < t.ops.len(),
        f < t.facts.len(),
        !is_atom_name(t.facts[f as int]),
        brings(t.ops[j], s, f as int, value),
    ensures
        0 <= k < pv.steps.len(),
        is_step_op(t, pv, t.ops[j], pv.steps[k]),
        asks(t, t.ops[j].pre, unfired_name(pv.steps[k].id)),
        ({
            let name = t.facts[f as int];
            let id = pv.steps[k].id;
            ||| name == fired_name(id) && value
            ||| name == unfired_name(id) && !value
            ||| exists|i: int|
                0 <= i < pv.links.len() && name == #[trigger] guard_name(i) && id == if value {
                    pv.links[i].to_id
                } else {
                    pv.links[i].from_id
                }
        }),
{
    let o = t.ops[j];
    let e = choose|e: int| 0 <= e < o.effects.len() && (#[trigger] o.effects[e]).fact == f && o.effects[e].value == value && met(o.effects[e].cond, s);
    if j < n {
        assert(plain(t, o));
        assert(is_atom_name(t.facts[o.effects[e].fact as int]));
        assert(false);
    }
    assert(is_some_step_op(t, pv, o, pv.steps.len()));
    let k = choose|k: int| 0 <= k < pv.steps.len() && !pv.steps[k].action.is_synthetic() && is_step_op(t, pv, o, #[trigger] pv.steps[k]);
    assert(is_own_effect(t, pv.links, pv.steps[k].id, o.effects[e]));
    k
}

/// A fact that holds after it did not was made to hold in between.
proof fn lemma_made(t: GroundTaskView, acts: Seq<Option<int>>, states: Seq<Seq<bool>>, f: usize, a: int, b: int) -> (k: int)
    requires
        is_run(t, acts, states),
        f < t.init.len(),
        0 <= a <= b <= acts.len(),
        !states[a][f as int],
        states[b][f as int],
    ensures
        a <= k < b,
        acts[k] matches Some(j) && 0 <= j < t.ops.len() && met(t.ops[j].pre, states[k]) && brings(t.ops[j], states[k], f as int, true),
{
    lemma_turn(t, acts, states, f as int, a, b)
}

/// A fact that an applied operator needs holds there.
proof fn lemma_held(t: GroundTaskView, acts: Seq<Option<int>>, states: Seq<Seq<bool>>, k: int, name: Seq<char>) -> (f: usize)
    requires
        t.facts.len() == t.init.len(),
        is_run(t, acts, states),
        0 <= k < acts.len(),
        acts[k] matches Some(j) && asks(t, t.ops[j].pre, name),
    ensures
        is_named(t, f, name),
        states[k][f as int],
{
    lemma_sizes(t, acts, states, k as nat);
    assert(is_step(t.ops, acts[k], states[k], states[k + 1]));
    let o = t.ops[acts[k]->0];
    let q = choose|q: int| 0 <= q < o.pre.len() && (#[trigger] o.pre[q]).1 && is_named(t, o.pre[q].0, name);
    o.pre[q].0
}

/// A fact that an applied operator takes away, and does not give, does not hold
/// behind it.
proof fn lemma_taken(t: GroundTaskView, acts: Seq<Option<int>>, states: Seq<Seq<bool>>, k: int, name: Seq<char>, links: Seq<LinkView>, f: usize)
    requires
        tidy(t, links),
        is_run(t, acts, states),
        0 <= k < acts.len(),
        is_named(t, f, name),
        acts[k] matches Some(j) && gives(t, t.ops[j].effects, name, false) && !brings(t.ops[j], states[k], f as int, true),
    ensures
        !states[k + 1][f as int],
{
    lemma_sizes(t, acts, states, k as nat);
    assert(is_step(t.ops, acts[k], states[k], states[k + 1]));
    let o = t.ops[acts[k]->0];
    let e = choose|e: int|
        0 <= e < o.effects.len() && (#[trigger] o.effects[e]).cond.len() == 0 && o.effects[e].value == false && is_named(t, o.effects[e].fact, name);
    lemma_same_number_of(t, links, name, f, o.effects[e].fact);
    assert(brings(o, states[k], f as int, false));
}

/// Where a step is known to have been executed, it was executed before.
proof fn lemma_executed_before(
    t: GroundTaskView,
    g: Grounding,
    pv: PlanView,
    n: int,
    acts: Seq<Option<int>>,
    states: Seq<Seq<bool>>,
    id: usize,
    f: usize,
    b: int,
) -> (k: int)
    requires
        is_compiled(t, g, pv, n),
        is_run(t, acts, states),
        0 <= b <= acts.len(),
        is_named(t, f, fired_name(id)),
        states[b][f as int],
    ensures
        0 <= k < b,
        executed_at(t, acts, k, id),
{
    assert(proper(pv.links, t.facts[f as int], t.init[f as int]));
    lemma_names(id, id);
    let k = lemma_made(t, acts, states, f, 0, b);
    let j = acts[k]->0;
    let m = lemma_brought(t, g, pv, n, j, states[k], f, true);
    lemma_names(id, pv.steps[m].id);
    lemma_names(pv.steps[m].id, id);
    assert forall|i: int| fired_name(id) != #[trigger] guard_name(i) by {
        lemma_names(id, i as usize);
        assert(guard_name(i) == guard_name((i as usize) as int));
    }
    k
}

/// A committed step is executed in every plan of the compiled task.
pub proof fn committed_step_is_executed(
    g: Grounding,
    pv: PlanView,
    actions: Seq<StepActionView>,
    goal: FormulaView,
    acts: Seq<Option<int>>,
    states: Seq<Seq<bool>>,
    id: usize,
)
    requires
        pv.links.len() <= usize::MAX,
        is_numbered(compiled(g, pv, actions, goal)),
        is_run(compiled(g, pv, actions, goal), acts, states),
        committed_ids_of(pv).contains(id),
    ensures
        exists|k: int| #[trigger] executed_at(compiled(g, pv, actions, goal), acts, k, id),
{
    let t = compiled(g, pv, actions, goal);
    lemma_compiled(g, pv, actions, goal);
    let ids = committed_ids_of(pv);
    let i = choose|i: int| 0 <= i < ids.len() && ids[i] == id;
    assert(asks(t, t.goal, fired_name(ids[i])));
    let q = choose|q: int| 0 <= q < t.goal.len() && (#[trigger] t.goal[q]).1 && is_named(t, t.goal[q].0, fired_name(id));
    lemma_sizes(t, acts, states, acts.len());
    let k = lemma_executed_before(t, g, pv, originals(g, actions), acts, states, id, t.goal[q].0, acts.len() as int);
    assert(executed_at(t, acts, k, id));
}

/// No step is executed twice in a plan of the compiled task.
pub proof fn no_step_is_executed_twice(
    g: Grounding,
    pv: PlanView,
    actions: Seq<StepActionView>,
    goal: FormulaView,
    acts: Seq<Option<int>>,
    states: Seq<Seq<bool>>,
    id: usize,
    a: int,
    b: int,
)
    requires
        pv.links.len() <= usize::MAX,
        is_numbered(compiled(g, pv, actions, goal)),
        is_run(compiled(g, pv, actions, goal), acts, states),
        executed_at(compiled(g, pv, actions, goal), acts, a, id),
        executed_at(compiled(g, pv, actions, goal), acts, b, id),
    ensures
        a == b,
    decreases (if a > b { 1int } else { 0int }),
{
    if a > b {
        no_step_is_executed_twice(g, pv, actions, goal, acts, states, id, b, a);
    } else if a < b {
        let t = compiled(g, pv, actions, goal);
        let n = originals(g, actions);
        lemma_compiled(g, pv, actions, goal);
        let f = lemma_held(t, acts, states, b, unfired_name(id));
        assert(is_step(t.ops, acts[a], states[a], states[a + 1]));
        let m = lemma_executes(t, g, pv, n, acts[a]->0, id);
        lemma_names(id, id);
        assert forall|k: usize| unfired_name(id) != #[trigger] fired_name(k) by {
            lemma_names(id, k);
        }
        assert forall|i: int| unfired_name(id) != #[trigger] guard_name(i) by {
            lemma_names(id, i as usize);
            assert(guard_name(i) == guard_name((i as usize) as int));
        }
        if brings(t.ops[acts[a]->0], states[a], f as int, true) {
            let m2 = lemma_brought(t, g, pv, n, acts[a]->0, states[a], f, true);
            assert(unfired_name(id) != fired_name(pv.steps[m2].id));
        }
        lemma_taken(t, acts, states, a, unfired_name(id), pv.links, f);
        let k = lemma_made(t, acts, states, f, a + 1, b);
        let m3 = lemma_brought(t, g, pv, n, acts[k]->0, states[k], f, true);
        assert(unfired_name(id) != fired_name(pv.steps[m3].id));
    }
}

proof fn lemma_predecessor(order: Set<(int, int)>, ids: Seq<usize>, id: usize, i: int, n: nat)
    requires
        0 <= i < n <= ids.len(),
        necessarily_before(order, ids[i], id),
    ensures
        predecessors(order, ids, id, n).contains(ids[i]),
    decreases n,
{
    let all = predecessors(order, ids, id, n);
    let rest = predecessors(order, ids, id, (n - 1) as nat);
    if i < n - 1 {
        lemma_predecessor(order, ids, id, i, (n - 1) as nat);
        let k = choose|k: int| 0 <= k < rest.len() && rest[k] == ids[i];
        assert(all[k] == ids[i]);
    } else {
        assert(all[all.len() - 1] == ids[i]);
    }
}

/// The steps are executed in the order of the plan: where a committed step comes
/// before another in every linearization, it is executed before it.
pub proof fn order_is_kept(
    g: Grounding,
    pv: PlanView,
    actions: Seq<StepActionView>,
    goal: FormulaView,
    acts: Seq<Option<int>>,
    states: Seq<Seq<bool>>,
    first: usize,
    second: usize,
    a: int,
    b: int,
)
    requires
        pv.links.len() <= usize::MAX,
        is_numbered(compiled(g, pv, actions, goal)),
        is_run(compiled(g, pv, actions, goal), acts, states),
        committed_ids_of(pv).contains(first),
        necessarily_before(pv.order, first, second),
        executed_at(compiled(g, pv, actions, goal), acts, a, first),
        executed_at(compiled(g, pv, actions, goal), acts, b, second),
    ensures
        a < b,
{
    let t = compiled(g, pv, actions, goal);
    let n = originals(g, actions);
    lemma_compiled(g, pv, actions, goal);
    let ids = committed_ids_of(pv);
    let i = choose|i: int| 0 <= i < ids.len() && ids[i] == first;
    lemma_predecessor(pv.order, ids, second, i, ids.len());
    let before = predecessors(pv.order, ids, second, ids.len());
    let q = choose|q: int| 0 <= q < before.len() && before[q] == first;
    assert(is_step(t.ops, acts[b], states[b], states[b + 1]));
    let m = lemma_executes(t, g, pv, n, acts[b]->0, second);
    assert(asks(t, t.ops[acts[b]->0].pre, fired_name(before[q])));
    let f = lemma_held(t, acts, states, b, fired_name(first));
    let k = lemma_executed_before(t, g, pv, n, acts, states, first, f, b);
    no_step_is_executed_twice(g, pv, actions, goal, acts, states, first, a, k);
}

/// Whether the protected interval of a link has begun at a time point: its producer is
/// the initial step, or was executed at an earlier time point `from`.
pub open spec fn has_begun(t: GroundTaskView, acts: Seq<Option<int>>, l: LinkView, from: int, k: int) -> bool {
    if l.from_id == INIT_ID {
        from == -1
    } else {
        from < k && executed_at(t, acts, from, l.from_id)
    }
}

/// Where an operator that needs the guard of a link is applied once the protected
/// interval has begun, the consumer was executed in between.
proof fn lemma_guarded(
    g: Grounding,
    pv: PlanView,
    actions: Seq<StepActionView>,
    goal: FormulaView,
    acts: Seq<Option<int>>,
    states: Seq<Seq<bool>>,
    i: int,
    from: int,
    k: int,
) -> (c: int)
    requires
        pv.links.len() <= usize::MAX,
        is_numbered(compiled(g, pv, actions, goal)),
        is_run(compiled(g, pv, actions, goal), acts, states),
        0 <= i < pv.links.len(),
        pv.links[i].from_id != pv.links[i].to_id,
        0 <= k < acts.len(),
        has_begun(compiled(g, pv, actions, goal), acts, pv.links[i], from, k),
        acts[k] matches Some(j) && asks(compiled(g, pv, actions, goal), compiled(g, pv, actions, goal).ops[j].pre, guard_name(i)),
    ensures
        from < c < k,
        executed_at(compiled(g, pv, actions, goal), acts, c, pv.links[i].to_id),
{
    let t = compiled(g, pv, actions, goal);
    let n = originals(g, actions);
    let l = pv.links[i];
    let name = guard_name(i);
    lemma_compiled(g, pv, actions, goal);
    let f = lemma_held(t, acts, states, k, name);
    lemma_names(i as usize, i as usize);
    assert forall|id: usize| name != #[trigger] fired_name(id) && name != unfired_name(id) by {
        lemma_names(id, i as usize);
    }
    assert forall|m: int| 0 <= m < pv.links.len() && name == #[trigger] guard_name(m) implies m == i by {
        lemma_names(i as usize, m as usize);
    }
    if l.from_id == INIT_ID {
        assert(proper(pv.links, t.facts[f as int], t.init[f as int]));
    } else {
        assert(is_step(t.ops, acts[from], states[from], states[from + 1]));
        let j = acts[from]->0;
        let m = lemma_executes(t, g, pv, n, j, l.from_id);
        assert(pv.links[i].from_id == pv.steps[m].id);
        if brings(t.ops[j], states[from], f as int, true) {
            let m2 = lemma_brought(t, g, pv, n, j, states[from], f, true);
            assert(name != fired_name(pv.steps[m2].id));
            lemma_step_is_one(t, pv, t.ops[j], pv.steps[m], pv.steps[m2]);
        }
        lemma_taken(t, acts, states, from, name, pv.links, f);
    }
    let c = lemma_made(t, acts, states, f, from + 1, k);
    let m3 = lemma_brought(t, g, pv, n, acts[c]->0, states[c], f, true);
    assert(name != fired_name(pv.steps[m3].id));
    c
}

/// An operator is that of one step.
proof fn lemma_step_is_one(t: GroundTaskView, pv: PlanView, o: GroundOpView, a: StepView, b: StepView)
    requires
        is_step_op(t, pv, o, a),
        is_step_op(t, pv, o, b),
    ensures
        a.id == b.id,
{
    let q = choose|q: int| 0 <= q < o.pre.len() && (#[trigger] o.pre[q]).1 && is_named(t, o.pre[q].0, unfired_name(a.id));
    assert(is_unfired(t.facts[o.pre[q].0 as int]));
    lemma_names(a.id, b.id);
}

/// The links are protected: between the producer and the consumer of a link no
/// insertable action is applied that may undo what the link protects. Where one is
/// applied after the producer, the consumer has been executed in between.
pub proof fn link_is_protected_from_actions(
    g: Grounding,
    pv: PlanView,
    actions: Seq<StepActionView>,
    goal: FormulaView,
    acts: Seq<Option<int>>,
    states: Seq<Seq<bool>>,
    i: int,
    from: int,
    k: int,
)
    requires
        pv.links.len() <= usize::MAX,
        is_numbered(compiled(g, pv, actions, goal)),
        is_run(compiled(g, pv, actions, goal), acts, states),
        0 <= i < pv.links.len(),
        pv.links[i].from_id != pv.links[i].to_id,
        protected_name(g, pv.classes, pv.links[i]) is Some,
        0 <= k < acts.len(),
        has_begun(compiled(g, pv, actions, goal), acts, pv.links[i], from, k),
        acts[k] matches Some(j) && j < originals(g, actions) && threatens(
            compiled(g, pv, actions, goal),
            g,
            pv.classes,
            pv.links[i],
            compiled(g, pv, actions, goal).ops[j],
        ),
    ensures
        exists|c: int| from < c < k && #[trigger] executed_at(compiled(g, pv, actions, goal), acts, c, pv.links[i].to_id),
{
    let t = compiled(g, pv, actions, goal);
    lemma_compiled(g, pv, actions, goal);
    assert(is_step(t.ops, acts[k], states[k], states[k + 1]));
    assert(watched(t, g, pv.classes, pv.links[i], i, originals(g, actions)));
    let c = lemma_guarded(g, pv, actions, goal, acts, states, i, from, k);
    assert(executed_at(t, acts, c, pv.links[i].to_id));
}

/// The links are protected from the steps of the plan too: a step that clobbers a link
/// is not executed between its producer and its consumer.
pub proof fn link_is_protected_from_steps(
    g: Grounding,
    pv: PlanView,
    actions: Seq<StepActionView>,
    goal: FormulaView,
    acts: Seq<Option<int>>,
    states: Seq<Seq<bool>>,
    i: int,
    from: int,
    k: int,
    s: StepView,
)
    requires
        pv.links.len() <= usize::MAX,
        is_numbered(compiled(g, pv, actions, goal)),
        is_run(compiled(g, pv, actions, goal), acts, states),
        0 <= i < pv.links.len(),
        pv.links[i].from_id != pv.links[i].to_id,
        has_begun(compiled(g, pv, actions, goal), acts, pv.links[i], from, k),
        forall|m: int| 0 <= m < pv.steps.len() && !pv.steps[m].action.is_synthetic() && (#[trigger] pv.steps[m]).id == s.id ==> pv.steps[m] == s,
        executed_at(compiled(g, pv, actions, goal), acts, k, s.id),
        clobbered(pv.classes, s, pv.links, pv.links.len()).contains(i as usize),
    ensures
        exists|c: int| from < c < k && #[trigger] executed_at(compiled(g, pv, actions, goal), acts, c, pv.links[i].to_id),
{
    let t = compiled(g, pv, actions, goal);
    lemma_compiled(g, pv, actions, goal);
    assert(is_step(t.ops, acts[k], states[k], states[k + 1]));
    let m = lemma_executes(t, g, pv, originals(g, actions), acts[k]->0, s.id);
    let guards = clobbered(pv.classes, s, pv.links, pv.links.len());
    let q = choose|q: int| 0 <= q < guards.len() && guards[q] == i as usize;
    assert(asks(t, t.ops[acts[k]->0].pre, guard_name(guards[q] as int)));
    let c = lemma_guarded(g, pv, actions, goal, acts, states, i, from, k);
    assert(executed_at(t, acts, c, pv.links[i].to_id));
}

/// Guards are never goals.
pub proof fn guards_are_no_goals(g: Grounding, pv: PlanView, actions: Seq<StepActionView>, goal: FormulaView, q: int, i: int)
    requires
        pv.links.len() <= usize::MAX,
        is_numbered(compiled(g, pv, actions, goal)),
        0 <= q < compiled(g, pv, actions, goal).goal.len(),
    ensures
        !is_named(compiled(g, pv, actions, goal), compiled(g, pv, actions, goal).goal[q].0, guard_name(i)),
{
    lemma_compiled(g, pv, actions, goal);
    let t = compiled(g, pv, actions, goal);
    assert(t.facts[t.goal[q].0 as int] != guard_name(i));
}

/// The time points at which the first `n` steps are executed differ.
proof fn lemma_times(
    g: Grounding,
    pv: PlanView,
    actions: Seq<StepActionView>,
    goal: FormulaView,
    acts: Seq<Option<int>>,
    states: Seq<Seq<bool>>,
    n: nat,
) -> (times: Set<int>)
    requires
        pv.links.len() <= usize::MAX,
        is_numbered(compiled(g, pv, actions, goal)),
        is_run(compiled(g, pv, actions, goal), acts, states),
        committed_ids_of(pv).no_duplicates(),
        n <= committed_ids_of(pv).len(),
    ensures
        times.finite(),
        times.len() == n,
        forall|k: int| #[trigger] times.contains(k) ==> exists|i: int|
            0 <= i < n && executed_at(compiled(g, pv, actions, goal), acts, k, #[trigger] committed_ids_of(pv)[i]),
    decreases n,
{
    if n == 0 {
        Set::empty()
    } else {
        let t = compiled(g, pv, actions, goal);
        let ids = committed_ids_of(pv);
        let rest = lemma_times(g, pv, actions, goal, acts, states, (n - 1) as nat);
        let id = ids[n - 1];
        lemma_compiled(g, pv, actions, goal);
        committed_step_is_executed(g, pv, actions, goal, acts, states, id);
        let k = choose|k: int| #[trigger] executed_at(t, acts, k, id);
        if rest.contains(k) {
            let i = choose|i: int| 0 <= i < n - 1 && executed_at(t, acts, k, #[trigger] ids[i]);
            assert(is_step(t.ops, acts[k], states[k], states[k + 1]));
            let m = lemma_executes(t, g, pv, originals(g, actions), acts[k]->0, id);
            let m2 = lemma_executes(t, g, pv, originals(g, actions), acts[k]->0, ids[i]);
            lemma_step_is_one(t, pv, t.ops[acts[k]->0], pv.steps[m], pv.steps[m2]);
            assert(ids[i] != ids[n - 1]);
        }
        let all = rest.insert(k);
        assert forall|h: int| #[trigger] all.contains(h) implies exists|i: int| 0 <= i < n && executed_at(t, acts, h, #[trigger] ids[i]) by {
            if h == k {
                assert(executed_at(t, acts, h, ids[n - 1]));
            } else {
                let i = choose|i: int| 0 <= i < n - 1 && executed_at(t, acts, h, #[trigger] ids[i]);
                assert(executed_at(t, acts, h, ids[i]));
            }
        }
        all
    }
}

/// No plan of the compiled task is shorter than the committed steps are many.
pub proof fn plan_has_every_step(
    g: Grounding,
    pv: PlanView,
    actions: Seq<StepActionView>,
    goal: FormulaView,
    acts: Seq<Option<int>>,
    states: Seq<Seq<bool>>,
)
    requires
        pv.links.len() <= usize::MAX,
        is_numbered(compiled(g, pv, actions, goal)),
        is_run(compiled(g, pv, actions, goal), acts, states),
        committed_ids_of(pv).no_duplicates(),
    ensures
        committed_ids_of(pv).len() <= acts.len(),
{
    let times = lemma_times(g, pv, actions, goal, acts, states, committed_ids_of(pv).len());
    let range = vstd::set_lib::set_int_range(0, acts.len() as int);
    vstd::set_lib::lemma_int_range(0, acts.len() as int);
    assert(times.subset_of(range));
    vstd::set_lib::lemma_len_subset(times, range);
}

} // verus!
