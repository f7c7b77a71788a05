//! Causal-link compilation of a partial plan into a classical task.
//!
//! For each committed step `l` two propositions are introduced: `exec-neg-l`, true
//! at the start, needed and deleted by the step, so that it fires at most once, and
//! `exec-pos-l`, added by the step and required by the goal, so that it fires. The
//! partial order is enforced by the `exec-pos` propositions of the predecessors.
//!
//! One guard proposition per causal link protects it: true at the start if the
//! producer is a real step, deleted by the producer, added by the consumer, and a
//! precondition of every action that could delete the protected literal.
//!
//! Unbound step variables stay parameters of the compiled action.
use std::rc::Rc;

use vstd::prelude::*;

use crate::chain::{elements, Chain};
use crate::compile_model::{
    alphanumeric, arguments_of, clobbered, committed, compiled, compiled_step, compiled_steps, consumed, effect_clobbers, effect_guards,
    guarded_first, link_guards_of, literals_among, literals_in, objects_of, original_guards, predecessors, produced, residual_goal,
    resolved_literal, resolved_terms, sanitized, step_clobbers, with_parameter, Arguments, CompiledStepView, CompiledView, OriginalGuardView,
};
use crate::effect::{effect_views, Effect};
use crate::external::HResult;
use crate::fdr_rank::{rank_with, ranked, weigh_signed, weighted, INFINITE_RANK};
use crate::numerals::{magnitude, unscaled};
use crate::flaws::{link_views, Link};
use crate::formula::{forms, same_atom, Atom, Formula, Literal, LiteralView};
use crate::lower_model::schema_views;
use crate::plan::{steps_of, Plan, GOAL_ID, INIT_ID};
use crate::plan_model::types_at;
use crate::search::{copy_effects, SearchContext};
use crate::step::{step_views, Step, StepTypes, StepVarTypes};
use crate::terms::{Object, Term, Variable};
use crate::text::{chars_of, copy_vec, push_number};
use crate::types::Type;

verus! {

/// `char::is_alphanumeric`: a function of the character, named [`alphanumeric`]. Of
/// ASCII characters it holds for the letters and the digits.
pub assume_specification[ char::is_alphanumeric ](c: char) -> (res: bool)
    ensures
        res == alphanumeric(c),
        c <= '\u{7f}' ==> res == ('0' <= c <= '9' || 'A' <= c <= 'Z' || 'a' <= c <= 'z'),
;

/// A committed plan step compiled to a classical action.
#[derive(Debug)]
pub struct CompiledStep {
    /// Step id.
    pub id: usize,
    /// Unique action name, e.g. `step-3-puton`.
    pub name: String,
    /// Leftover unbound variables with their types: the action's parameters.
    pub params: Vec<(Variable, Type)>,
    /// Substitution of bound step variables.
    pub subst: Vec<(Variable, Term)>,
    pub precondition: Rc<Formula>,
    pub effects: Vec<Effect>,
    /// Variable types in the step's scope.
    pub var_types: Vec<Type>,
    /// Committed steps that come before.
    pub predecessors: Vec<usize>,
    /// Guards this step needs to fire.
    pub precond_guards: Vec<usize>,
    /// Guards this step deletes (producer).
    pub del_guards: Vec<usize>,
    /// Guards this step adds (consumer).
    pub add_guards: Vec<usize>,
}

/// A conditional guard precondition of an insertable action: an instance needs the
/// guard whenever the arguments of its effect equal the protected ones.
#[derive(Debug)]
pub struct OriginalGuard {
    pub schema_index: usize,
    pub guard_id: usize,
    pub effect_args: Vec<Term>,
    pub protected_args: Vec<Object>,
}

/// The classical task compiled from a partial plan.
#[derive(Debug)]
pub struct CompiledProblem {
    /// Number of causal-link guard propositions.
    pub num_guards: usize,
    /// Guards true in the initial state.
    pub init_guards: Vec<usize>,
    /// Committed steps as classical actions.
    pub steps: Vec<CompiledStep>,
    /// Conditional guard preconditions of the insertable actions.
    pub original_guards: Vec<OriginalGuard>,
    /// The literals of the problem's goal.
    pub goal: Vec<Literal>,
}

impl View for CompiledStep {
    type V = CompiledStepView;

    open spec fn view(&self) -> CompiledStepView {
        CompiledStepView {
            id: self.id,
            name: self.name@,
            params: self.params@,
            subst: self.subst@,
            precondition: self.precondition@,
            effects: effect_views(self.effects@),
            var_types: self.var_types@,
            predecessors: self.predecessors@,
            precond_guards: self.precond_guards@,
            del_guards: self.del_guards@,
            add_guards: self.add_guards@,
        }
    }
}

impl View for OriginalGuard {
    type V = OriginalGuardView;

    open spec fn view(&self) -> OriginalGuardView {
        OriginalGuardView {
            schema_index: self.schema_index,
            guard_id: self.guard_id,
            effect_args: self.effect_args@,
            protected_args: self.protected_args@,
        }
    }
}

pub open spec fn compiled_step_views(s: Seq<CompiledStep>) -> Seq<CompiledStepView> {
    Seq::new(s.len(), |i: int| s[i]@)
}

pub open spec fn guard_views(s: Seq<OriginalGuard>) -> Seq<OriginalGuardView> {
    Seq::new(s.len(), |i: int| s[i]@)
}

pub open spec fn literal_views(s: Seq<Literal>) -> Seq<LiteralView> {
    Seq::new(s.len(), |i: int| s[i]@)
}

impl View for CompiledProblem {
    type V = CompiledView;

    open spec fn view(&self) -> CompiledView {
        CompiledView {
            num_guards: self.num_guards,
            init_guards: self.init_guards@,
            steps: compiled_step_views(self.steps@),
            original_guards: guard_views(self.original_guards@),
            goal: literal_views(self.goal@),
        }
    }
}

/// A name with every character outside letters, digits and `-` made a `-`.
pub(crate) fn sanitize(name: &str) -> (res: String)
    ensures
        res@ == sanitized(name@),
{
    let all = chars_of(name);
    let mut out = String::new();
    let mut i: usize = 0;
    assert(out@ =~= sanitized(name@).take(0));
    while i < all.len()
        invariant
            all@ == name@,
            i <= all@.len(),
            out@ == sanitized(name@).take(i as int),
        decreases all@.len() - i,
    {
        let c = all[i];
        let shown = if c.is_alphanumeric() || c == '-' {
            c
        } else {
            '-'
        };
        out.push(shown);
        i = i + 1;
        assert(sanitized(name@).take(i as int) =~= sanitized(name@).take(i - 1).push(shown));
    }
    assert(sanitized(name@).take(i as int) =~= sanitized(name@));
    out
}

/// The links of a chain.
pub(crate) fn links_of(c: &Option<Rc<Chain<Link>>>) -> (res: Vec<Link>)
    ensures
        link_views(res@) == link_views(elements(c)),
{
    let mut res: Vec<Link> = Vec::new();
    let mut cur: &Option<Rc<Chain<Link>>> = c;
    let ghost all = link_views(elements(c));
    assert(link_views(res@) + link_views(elements(cur)) =~= all);
    while cur.is_some()
        invariant
            link_views(res@) + link_views(elements(cur)) == all,
        decreases elements(cur).len(),
    {
        match cur {
            Some(node) => {
                let ghost before = link_views(res@);
                let ghost rest = link_views(elements(cur));
                res.push(node.head.clone());
                cur = &node.tail;
                proof {
                    assert(rest =~= seq![node.head@] + link_views(elements(cur)));
                    assert(link_views(res@) =~= before.push(node.head@));
                    assert(before + rest =~= link_views(res@) + link_views(elements(cur)));
                }
            },
            None => {},
        }
    }
    assert(link_views(elements(cur)) =~= seq![]);
    assert(link_views(res@) =~= all);
    res
}

/// A literal with its terms as bound at a step.
pub(crate) fn resolve_literal(plan: &Plan, l: &Literal, id: usize) -> (res: Literal)
    ensures
        res@ == resolved_literal(plan@.classes, l@, id),
{
    let a = l.atom();
    let ghost want = resolved_terms(plan@.classes, a.terms@, id);
    let mut terms: Vec<Term> = Vec::new();
    let mut i: usize = 0;
    while i < a.terms.len()
        invariant
            want == resolved_terms(plan@.classes, a.terms@, id),
            i <= a.terms@.len(),
            terms@ == want.take(i as int),
        decreases a.terms@.len() - i,
    {
        terms.push(plan.bindings.binding(a.terms[i], id));
        i = i + 1;
        assert(want.take(i as int) =~= want.take(i - 1).push(want[i - 1]));
    }
    assert(want.take(i as int) =~= want);
    let atom = Atom { predicate: a.predicate, terms };
    if l.negative() {
        Literal::Negation(atom)
    } else {
        Literal::Atom(atom)
    }
}

/// The objects that terms are, if all are objects.
pub(crate) fn all_objects(ts: &Vec<Term>) -> (res: Option<Vec<Object>>)
    ensures
        match objects_of(ts@) {
            Some(os) => res matches Some(r) && r@ == os,
            None => res is None,
        },
{
    let mut out: Vec<Object> = Vec::new();
    let mut i: usize = 0;
    assert(ts@.take(0) =~= seq![]);
    assert(out@ =~= seq![]);
    while i < ts.len()
        invariant
            i <= ts@.len(),
            objects_of(ts@.take(i as int)) == Some(out@),
        decreases ts@.len() - i,
    {
        proof {
            assert(ts@.take(i + 1).drop_last() =~= ts@.take(i as int));
            assert(ts@.take(i + 1).last() == ts@[i as int]);
        }
        match ts[i] {
            Term::Object(o) => out.push(o),
            Term::Variable(_) => {
                proof {
                    lemma_objects_none(ts@, (i + 1) as nat, ts@.len());
                    assert(ts@.take(ts@.len() as int) =~= ts@);
                }
                return None;
            },
        }
        i = i + 1;
    }
    assert(ts@.take(i as int) =~= ts@);
    Some(out)
}

proof fn lemma_objects_none(ts: Seq<Term>, n: nat, m: nat)
    requires
        n <= m <= ts.len(),
        objects_of(ts.take(n as int)) is None,
    ensures
        objects_of(ts.take(m as int)) is None,
    decreases m,
{
    if n < m {
        lemma_objects_none(ts, n, (m - 1) as nat);
        assert(ts.take(m as int).drop_last() =~= ts.take(m - 1));
    }
}

/// Puts a parameter in its place unless it is there.
fn add_parameter(ps: &mut Vec<(Variable, Type)>, v: Variable, ty: Type)
    ensures
        final(ps)@ == with_parameter(old(ps)@, v, ty),
{
    let ghost all = ps@;
    let mut i: usize = ps.len();
    assert(all.take(i as int) =~= all);
    assert(with_parameter(all, v, ty) + all.skip(i as int) =~= with_parameter(all, v, ty));
    while i > 0 && ps[i - 1].0.0 > v.0
        invariant
            ps@ == all,
            i <= all.len(),
            with_parameter(all, v, ty) == with_parameter(all.take(i as int), v, ty) + all.skip(i as int),
        decreases i,
    {
        proof {
            let front = all.take(i as int);
            assert(front.last() == all[i - 1]);
            assert(front.drop_last() =~= all.take(i - 1));
            assert(with_parameter(all.take(i - 1), v, ty).push(all[i - 1]) + all.skip(i as int) =~= with_parameter(all.take(i - 1), v, ty)
                + all.skip(i - 1));
        }
        i = i - 1;
    }
    let ghost front = all.take(i as int);
    proof {
        if i > 0 {
            assert(front.last() == all[i - 1]);
        }
    }
    if i > 0 && ps[i - 1].0 == v {
        assert(front + all.skip(i as int) =~= all);
        return;
    }
    ps.insert(i, (v, ty));
    assert(ps@ =~= front.push((v, ty)) + all.skip(i as int));
    assert(i == 0 ==> seq![(v, ty)] =~= front.push((v, ty)));
}

/// The ids of the real steps.
pub(crate) fn committed_ids(steps: &Vec<Step>) -> (res: Vec<usize>)
    ensures
        res@ == committed(step_views(steps@), steps@.len()),
{
    let ghost all = step_views(steps@);
    let mut res: Vec<usize> = Vec::new();
    let mut i: usize = 0;
    assert(res@ =~= seq![]);
    while i < steps.len()
        invariant
            all == step_views(steps@),
            i <= steps@.len(),
            res@ == committed(all, i as nat),
        decreases steps@.len() - i,
    {
        assert(all[i as int] == steps@[i as int]@);
        if !steps[i].action.synthetic() {
            res.push(steps[i].id);
        }
        i = i + 1;
    }
    res
}

/// The ids that necessarily come before a step.
pub(crate) fn predecessors_of(plan: &Plan, ids: &Vec<usize>, id: usize) -> (res: Vec<usize>)
    requires
        plan.wf(),
    ensures
        res@ == predecessors(plan@.order, ids@, id, ids@.len()),
{
    let mut res: Vec<usize> = Vec::new();
    let mut i: usize = 0;
    assert(res@ =~= seq![]);
    while i < ids.len()
        invariant
            plan.wf(),
            i <= ids@.len(),
            res@ == predecessors(plan@.order, ids@, id, i as nat),
        decreases ids@.len() - i,
    {
        if ids[i] != id && !plan.orderings.may_order(id, ids[i]) {
            res.push(ids[i]);
        }
        i = i + 1;
    }
    res
}

/// Whether a step clobbers a link that it neither produces nor consumes.
pub(crate) fn clobbers(plan: &Plan, s: &Step, link: &Link) -> (res: bool)
    ensures
        res == step_clobbers(plan@.classes, s@, link@),
{
    if link.from_id == s.id || link.to_id == s.id {
        return false;
    }
    let v = resolve_literal(plan, &link.condition, link.to_id);
    let mut k: usize = 0;
    while k < s.action.effects.len()
        invariant
            v@ == resolved_literal(plan@.classes, link@.condition, link@.to_id),
            k <= s.action.effects@.len(),
            link@.from_id != s.id,
            link@.to_id != s.id,
            forall|j: int| 0 <= j < k ==> !#[trigger] effect_clobbers(plan@.classes, s@, j, link@),
        decreases s.action.effects@.len() - k,
    {
        let l = &s.action.effects[k].literal;
        let r = resolve_literal(plan, l, s.id);
        assert(s@.action.effects[k as int] == s.action.effects@[k as int]@);
        if l.negative() != v.negative() && same_atom(r.atom(), v.atom()) {
            assert(effect_clobbers(plan@.classes, s@, k as int, link@));
            return true;
        }
        k = k + 1;
    }
    false
}

/// The links that a step produces, consumes and clobbers.
pub(crate) fn guards_at(plan: &Plan, links: &Vec<Link>, s: &Step) -> (res: (Vec<usize>, Vec<usize>, Vec<usize>))
    ensures
        res.0@ == produced(link_views(links@), s.id, links@.len()),
        res.1@ == consumed(link_views(links@), s.id, links@.len()),
        res.2@ == clobbered(plan@.classes, s@, link_views(links@), links@.len()),
{
    let ghost all = link_views(links@);
    let mut del: Vec<usize> = Vec::new();
    let mut give: Vec<usize> = Vec::new();
    let mut need: Vec<usize> = Vec::new();
    let mut i: usize = 0;
    assert(del@ =~= seq![]);
    assert(give@ =~= seq![]);
    assert(need@ =~= seq![]);
    while i < links.len()
        invariant
            all == link_views(links@),
            i <= links@.len(),
            del@ == produced(all, s.id, i as nat),
            give@ == consumed(all, s.id, i as nat),
            need@ == clobbered(plan@.classes, s@, all, i as nat),
        decreases links@.len() - i,
    {
        assert(all[i as int] == links@[i as int]@);
        if links[i].from_id == s.id {
            del.push(i);
        }
        if links[i].to_id == s.id {
            give.push(i);
        }
        if clobbers(plan, s, &links[i]) {
            need.push(i);
        }
        i = i + 1;
    }
    (del, give, need)
}

/// The links that a real step produces.
pub(crate) fn first_guards(links: &Vec<Link>) -> (res: Vec<usize>)
    ensures
        res@ == guarded_first(link_views(links@), links@.len()),
{
    let ghost all = link_views(links@);
    let mut res: Vec<usize> = Vec::new();
    let mut i: usize = 0;
    assert(res@ =~= seq![]);
    while i < links.len()
        invariant
            all == link_views(links@),
            i <= links@.len(),
            res@ == guarded_first(all, i as nat),
        decreases links@.len() - i,
    {
        assert(all[i as int] == links@[i as int]@);
        if links[i].from_id != INIT_ID {
            res.push(i);
        }
        i = i + 1;
    }
    res
}

/// What becomes of the parameters of a step.
fn step_arguments(plan: &Plan, types: &StepTypes, s: &Step) -> (res: (Vec<(Variable, Term)>, Vec<(Variable, Type)>))
    ensures
        (Arguments { subst: res.0@, params: res.1@ }) == arguments_of(plan@.classes, types@, s@, s@.action.parameters.len()),
{
    let mut subst: Vec<(Variable, Term)> = Vec::new();
    let mut params: Vec<(Variable, Type)> = Vec::new();
    let mut i: usize = 0;
    assert(Arguments { subst: subst@, params: params@ } =~= Arguments { subst: seq![], params: seq![] });
    while i < s.action.parameters.len()
        invariant
            i <= s.action.parameters@.len(),
            (Arguments { subst: subst@, params: params@ }) == arguments_of(plan@.classes, types@, s@, i as nat),
        decreases s.action.parameters@.len() - i,
    {
        let p = s.action.parameters[i];
        let bound = plan.bindings.binding(Term::Variable(p), s.id);
        match bound {
            Term::Object(_) => subst.push((p, bound)),
            Term::Variable(v) => {
                if v != p {
                    subst.push((p, bound));
                }
                add_parameter(&mut params, v, types.var_type(v, s.id));
            },
        }
        i = i + 1;
    }
    (subst, params)
}

/// Appends the literals of a conjunction, as bound at the goal step.
fn collect_literals(plan: &Plan, f: &Formula, out: &mut Vec<Literal>)
    ensures
        literal_views(final(out)@) == literal_views(old(out)@) + residual_goal(plan@.classes, f@),
    decreases f, 0nat,
{
    let ghost before = literal_views(out@);
    match f {
        Formula::Atom(a) => {
            let l = resolve_literal(plan, &Literal::Atom(a.clone()), GOAL_ID);
            let ghost lv = l@;
            out.push(l);
            assert(residual_goal(plan@.classes, f@) =~= seq![lv]);
            assert(literal_views(out@) =~= before + seq![lv]);
        },
        Formula::Negation(a) => {
            let l = resolve_literal(plan, &Literal::Negation(a.clone()), GOAL_ID);
            let ghost lv = l@;
            out.push(l);
            assert(residual_goal(plan@.classes, f@) =~= seq![lv]);
            assert(literal_views(out@) =~= before + seq![lv]);
        },
        Formula::Conjunction(cs) => collect_among(plan, cs, out),
        _ => {
            assert(literals_in(f@) =~= seq![]);
            assert(before + residual_goal(plan@.classes, f@) =~= before);
        },
    }
}

spec fn bound_literals(sets: Seq<crate::bindings::Class>, ls: Seq<LiteralView>) -> Seq<LiteralView> {
    Seq::new(ls.len(), |i: int| resolved_literal(sets, ls[i], GOAL_ID))
}

fn collect_among(plan: &Plan, fs: &Vec<Rc<Formula>>, out: &mut Vec<Literal>)
    ensures
        literal_views(final(out)@) == literal_views(old(out)@) + bound_literals(plan@.classes, literals_among(forms(fs@), fs@.len())),
    decreases fs, 0nat,
{
    let ghost before = literal_views(out@);
    let ghost all = forms(fs@);
    let ghost sets = plan@.classes;
    let mut i: usize = 0;
    assert(before + bound_literals(sets, literals_among(all, 0)) =~= before);
    while i < fs.len()
        invariant
            before == literal_views(old(out)@),
            all == forms(fs@),
            all.len() == fs@.len(),
            sets == plan@.classes,
            i <= fs@.len(),
            literal_views(out@) == before + bound_literals(sets, literals_among(all, i as nat)),
        decreases fs@.len() - i,
    {
        assert(all[i as int] == fs@[i as int]@);
        let ghost mid = literal_views(out@);
        collect_literals(plan, &fs[i], out);
        proof {
            let a = literals_among(all, i as nat);
            let b = literals_in(all[i as int]);
            assert(literals_among(all, (i + 1) as nat) == a + b);
            assert(bound_literals(sets, a) + residual_goal(sets, all[i as int]) =~= bound_literals(sets, a + b));
            assert(mid + residual_goal(sets, all[i as int]) =~= before + bound_literals(sets, a + b));
        }
        i = i + 1;
    }
}

/// The guards that an action needs.
fn push_guards(plan: &Plan, links: &Vec<Link>, effects: &Vec<Effect>, schema_index: usize, out: &mut Vec<OriginalGuard>)
    ensures
        guard_views(final(out)@) == link_guards_of(
            guard_views(old(out)@),
            plan@.classes,
            link_views(links@),
            effect_views(effects@),
            schema_index,
            links@.len(),
        ),
{
    let ghost start = guard_views(out@);
    let ghost all = link_views(links@);
    let ghost es = effect_views(effects@);
    let mut g: usize = 0;
    while g < links.len()
        invariant
            start == guard_views(old(out)@),
            all == link_views(links@),
            es == effect_views(effects@),
            g <= links@.len(),
            guard_views(out@) == link_guards_of(start, plan@.classes, all, es, schema_index, g as nat),
        decreases links@.len() - g,
    {
        assert(all[g as int] == links@[g as int]@);
        let v = resolve_literal(plan, &links[g].condition, links[g].to_id);
        match all_objects(&v.atom().terms) {
            None => {},
            Some(objects) => {
                let ghost rest = guard_views(out@);
                let mut k: usize = 0;
                while k < effects.len()
                    invariant
                        es == effect_views(effects@),
                        k <= effects@.len(),
                        guard_views(out@) == effect_guards(rest, es, schema_index, g, v@, objects@, k as nat),
                    decreases effects@.len() - k,
                {
                    assert(es[k as int] == effects@[k as int]@);
                    let l = &effects[k].literal;
                    if l.negative() != v.negative() && l.atom().predicate == v.atom().predicate && l.atom().terms.len() == objects.len() {
                        let ghost before = guard_views(out@);
                        let guard = OriginalGuard {
                            schema_index,
                            guard_id: g,
                            effect_args: copy_vec(&l.atom().terms),
                            protected_args: copy_vec(&objects),
                        };
                        let ghost gv = guard@;
                        out.push(guard);
                        assert(guard_views(out@) =~= before.push(gv));
                    }
                    k = k + 1;
                }
            },
        }
        g = g + 1;
    }
}

impl CompiledProblem {
    /// Compiles a partial plan into the classical task with causal-link protection
    /// enabled.
    pub fn compile(plan: &Plan, ctx: &SearchContext) -> (res: CompiledProblem)
        requires
            plan.wf(),
        ensures
            res@ == compiled(ctx@, plan@, schema_views(ctx.domain.actions@), ctx.problem.goal@, true),
    {
        Self::compile_opts(plan, ctx, true)
    }

    /// Compiles with `link_guards` controlling whether causal links are protected.
    pub fn compile_opts(plan: &Plan, ctx: &SearchContext, link_guards: bool) -> (res: CompiledProblem)
        requires
            plan.wf(),
        ensures
            res@ == compiled(ctx@, plan@, schema_views(ctx.domain.actions@), ctx.problem.goal@, link_guards),
    {
        let links = if link_guards {
            links_of(&plan.links)
        } else {
            let none: Vec<Link> = Vec::new();
            assert(link_views(none@) =~= seq![]);
            none
        };
        let ghost lv = link_views(links@);
        let ghost pv = plan@;
        let types = plan.types(ctx);
        let all = steps_of(&plan.steps);
        let ids = committed_ids(&all);
        let init_guards = first_guards(&links);
        let mut steps: Vec<CompiledStep> = Vec::new();
        let mut i: usize = 0;
        assert(compiled_step_views(steps@) =~= seq![]);
        while i < all.len()
            invariant
                plan.wf(),
                pv == plan@,
                lv == link_views(links@),
                types@ == types_at(ctx@, pv.steps, pv.fresh),
                step_views(all@) == pv.steps,
                ids@ == committed(pv.steps, pv.steps.len()),
                i <= all@.len(),
                compiled_step_views(steps@) == compiled_steps(pv, types@, lv, i as nat),
            decreases all@.len() - i,
        {
            assert(pv.steps[i as int] == all@[i as int]@);
            if !all[i].action.synthetic() {
                let ghost before = compiled_step_views(steps@);
                let step = compile_step(plan, &types, &links, &ids, &all[i]);
                let ghost sv = step@;
                steps.push(step);
                assert(compiled_step_views(steps@) =~= before.push(sv));
            }
            i = i + 1;
        }
        let mut original: Vec<OriginalGuard> = Vec::new();
        let ghost schemas = schema_views(ctx.domain.actions@);
        let mut k: usize = 0;
        assert(guard_views(original@) =~= seq![]);
        while k < ctx.domain.actions.len()
            invariant
                pv == plan@,
                lv == link_views(links@),
                schemas == schema_views(ctx.domain.actions@),
                k <= ctx.domain.actions@.len(),
                guard_views(original@) == original_guards(pv.classes, lv, schemas, k as nat),
            decreases ctx.domain.actions@.len() - k,
        {
            push_guards(plan, &links, &ctx.domain.actions[k].effects, k, &mut original);
            k = k + 1;
        }
        let mut goal: Vec<Literal> = Vec::new();
        let ghost nothing = literal_views(goal@);
        collect_literals(plan, &ctx.problem.goal, &mut goal);
        assert(nothing + residual_goal(pv.classes, ctx.problem.goal@) =~= residual_goal(pv.classes, ctx.problem.goal@));
        let res = CompiledProblem { num_guards: links.len(), init_guards, steps, original_guards: original, goal };
        assert(res@ =~= compiled(ctx@, pv, schemas, ctx.problem.goal@, link_guards));
        res
    }
}

fn compile_step(plan: &Plan, types: &StepTypes, links: &Vec<Link>, ids: &Vec<usize>, s: &Step) -> (res: CompiledStep)
    requires
        plan.wf(),
        ids@ == committed(plan@.steps, plan@.steps.len()),
    ensures
        res@ == compiled_step(plan@, types@, link_views(links@), s@),
{
    let mut name = "step-".to_string();
    push_number(&mut name, s.id as u128);
    name.append("-");
    let tail = sanitize(s.action.name.as_str());
    name.append(tail.as_str());
    let (subst, params) = step_arguments(plan, types, s);
    let (del_guards, add_guards, precond_guards) = guards_at(plan, links, s);
    let res = CompiledStep {
        id: s.id,
        name,
        params,
        subst,
        precondition: s.action.precondition.clone(),
        effects: copy_effects(&s.action.effects),
        var_types: copy_vec(&s.action.var_types),
        predecessors: predecessors_of(plan, ids, s.id),
        precond_guards,
        del_guards,
        add_guards,
    };
    assert(res@ =~= compiled_step(plan@, types@, link_views(links@), s@));
    res
}

/// The rank of a plan by the value of a state-based heuristic on its compilation: the
/// committed steps and the weighted value, infinite where the compiled goal is out
/// of reach or there is no value.
pub open spec fn compiled_rank(steps: usize, weight: i128, value: Option<HResult>) -> i128 {
    match value {
        Some(HResult::Finite(h)) => ranked(steps, weighted(weight, h as int)),
        Some(HResult::Fraction(h)) => ranked(steps, unscaled(weighted(weight, h as int) as int) as i128),
        _ => INFINITE_RANK,
    }
}

/// See [`compiled_rank`].
pub fn compile_rank(plan: &Plan, weight: i128, value: Option<HResult>) -> (res: i128)
    ensures
        res == compiled_rank(plan.num_steps, weight, value),
{
    match value {
        Some(HResult::Finite(h)) => rank_with(plan.num_steps(), weigh_signed(weight, h)),
        Some(HResult::Fraction(h)) => {
            let part = weigh_signed(weight, h);
            let size = magnitude(part) / 1_000_000_000;
            let whole: i128 = if part < 0 {
                -(size as i128)
            } else {
                size as i128
            };
            rank_with(plan.num_steps(), whole)
        },
        _ => INFINITE_RANK,
    }
}

} // verus!
