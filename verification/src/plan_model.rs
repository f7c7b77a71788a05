//! What a partial plan commits to, and what each refinement makes of it.
use vstd::prelude::*;

use crate::agenda::{with_goal, Agenda};
use crate::bindings::{
    bound_all, literals_clash, literals_unify, may_differ, raised_all, unbarred, unifier, Binding, Class,
};
use crate::effect::EffectView;
use crate::flaws::{removed, LinkView, OpenView, UnsafeView};
use crate::formula::{both, either, lookup, negated, put, AtomView, FormulaView, LiteralView};
use crate::orderings::{may_come_before, ordered_pair, StepTime};
use crate::plan::{GOAL_ID, INIT_ID};
use crate::search::ContextView;
use crate::step::{StepActionView, StepTypesView, StepView};
use crate::terms::{Object, Term, Variable};
use crate::types::Type;
use crate::typing::Typing;

verus! {

/// What a partial plan commits to.
#[verifier::ext_equal]
pub struct PlanView {
    /// The steps, newest first; the initial and the goal step among them.
    pub steps: Seq<StepView>,
    /// The number of real steps.
    pub num_steps: nat,
    pub links: Seq<LinkView>,
    /// The ordered pairs of real steps.
    pub order: Set<(int, int)>,
    /// The binding constraints, newest class first.
    pub classes: Seq<Class>,
    /// The highest step id that the constraints mention.
    pub high: usize,
    pub unsafes: Seq<UnsafeView>,
    pub opens: Seq<OpenView>,
    /// The types of the variables made fresh.
    pub fresh: Seq<Type>,
}

/// The variable types in effect with the given steps and fresh variables.
pub open spec fn types_at(cv: ContextView, steps: Seq<StepView>, fresh: Seq<Type>) -> StepTypesView {
    StepTypesView { steps, fresh_base: cv.fresh_base, fresh }
}

impl PlanView {
    /// Type reasoning at the plan.
    pub open spec fn typing(self, cv: ContextView) -> Typing {
        cv.typing(types_at(cv, self.steps, self.fresh))
    }

    pub open spec fn is_complete(self) -> bool {
        self.unsafes.len() == 0 && self.opens.len() == 0
    }
}

/// Whether effect `e` of a step may clobber a link.
pub open spec fn threatens(t: Typing, sets: Seq<Class>, order: Set<(int, int)>, link: LinkView, s: StepView, e: EffectView) -> bool {
    &&& !(e.link_condition is False)
    &&& s.id != link.to_id
    &&& may_come_before(order, link.from_id as int, s.id as int)
    &&& may_come_before(order, s.id as int, link.to_id as int)
    &&& link.condition.negative || link.from_id != s.id
    &&& literals_clash(t, sets, seq![], e.literal, s.id, link.condition, link.to_id)
}

/// The threats to a link by the first `n` effects of a step, the last first.
pub open spec fn effect_threats(
    t: Typing,
    sets: Seq<Class>,
    order: Set<(int, int)>,
    link: LinkView,
    s: StepView,
    n: nat,
) -> Seq<UnsafeView>
    decreases n,
{
    if n == 0 {
        seq![]
    } else {
        let rest = effect_threats(t, sets, order, link, s, (n - 1) as nat);
        let e = s.action.effects[n - 1];
        if threatens(t, sets, order, link, s, e) {
            seq![UnsafeView { link, step_id: s.id, effect: e }] + rest
        } else {
            rest
        }
    }
}

/// The threats to a link by the first `n` of a list of steps, the last first.
pub open spec fn threats_to(
    t: Typing,
    sets: Seq<Class>,
    order: Set<(int, int)>,
    link: LinkView,
    steps: Seq<StepView>,
    n: nat,
) -> Seq<UnsafeView>
    decreases n,
{
    if n == 0 {
        seq![]
    } else {
        effect_threats(t, sets, order, link, steps[n - 1], steps[n - 1].action.effects.len()) + threats_to(
            t,
            sets,
            order,
            link,
            steps,
            (n - 1) as nat,
        )
    }
}

/// The threats by a step to the first `n` of a list of links, the last first.
pub open spec fn threats_by(
    t: Typing,
    sets: Seq<Class>,
    order: Set<(int, int)>,
    links: Seq<LinkView>,
    s: StepView,
    n: nat,
) -> Seq<UnsafeView>
    decreases n,
{
    if n == 0 {
        seq![]
    } else {
        effect_threats(t, sets, order, links[n - 1], s, s.action.effects.len()) + threats_by(
            t,
            sets,
            order,
            links,
            s,
            (n - 1) as nat,
        )
    }
}

/// Names for the parameters of a quantified effect: a fresh variable for each,
/// and the types of all fresh variables of the plan.
#[verifier::ext_equal]
pub struct Renaming {
    pub subst: Seq<(Variable, Term)>,
    pub fresh: Seq<Type>,
}

/// The fresh variable that comes next.
pub open spec fn next_fresh(cv: ContextView, r: Renaming) -> Variable {
    Variable((cv.fresh_base + r.fresh.len()) as u32)
}

/// A renaming with a name for a parameter.
pub open spec fn with_name(cv: ContextView, vars: StepTypesView, r: Renaming, p: Variable, id: usize) -> Renaming {
    if lookup(r.subst, p) is Some {
        r
    } else {
        Renaming {
            subst: r.subst.push((p, Term::Variable(next_fresh(cv, r)))),
            fresh: r.fresh.push(vars.type_of(p, id)),
        }
    }
}

/// A renaming with names for the first `n` of a list of parameters.
pub open spec fn with_names(cv: ContextView, vars: StepTypesView, r: Renaming, ps: Seq<Variable>, id: usize, n: nat) -> Renaming
    decreases n,
{
    if n == 0 {
        r
    } else {
        with_name(cv, vars, with_names(cv, vars, r, ps, id, (n - 1) as nat), ps[n - 1], id)
    }
}

/// Whether a variable of a step is a parameter of the step's effect.
pub open spec fn is_parameter(e: EffectView, step_id: usize, v: Variable, id: usize) -> bool {
    id == step_id && e.parameters.contains(v)
}

/// The renaming after the first `n` bindings of a unifier: each parameter of the
/// effect that is bound gets a name.
pub open spec fn names_for(
    cv: ContextView,
    vars: StepTypesView,
    r: Renaming,
    e: EffectView,
    step_id: usize,
    u: Seq<Binding>,
    n: nat,
) -> Renaming
    decreases n,
{
    if n == 0 {
        r
    } else {
        let before = names_for(cv, vars, r, e, step_id, u, (n - 1) as nat);
        if is_parameter(e, step_id, u[n - 1].var, u[n - 1].var_id) {
            with_name(cv, vars, before, u[n - 1].var, step_id)
        } else {
            before
        }
    }
}

/// A binding with its variable replaced by its name, if it has one here.
pub open spec fn named(e: EffectView, step_id: usize, subst: Seq<(Variable, Term)>, b: Binding) -> Binding {
    if is_parameter(e, step_id, b.var, b.var_id) && lookup(subst, b.var) is Some && lookup(subst, b.var)->0 is Variable {
        Binding { var: lookup(subst, b.var)->0->Variable_0, equality: true, ..b }
    } else {
        b
    }
}

/// The first `n` bindings of a unifier with the effect's parameters renamed.
pub open spec fn named_all(e: EffectView, step_id: usize, subst: Seq<(Variable, Term)>, u: Seq<Binding>, n: nat) -> Seq<Binding> {
    Seq::new(n, |i: int| named(e, step_id, subst, u[i]))
}

/// The condition under which an effect gives a link.
pub open spec fn link_goal(e: EffectView) -> FormulaView {
    both(e.condition, e.link_condition)
}

/// The renaming that a link from an effect takes.
pub open spec fn link_names(cv: ContextView, p: PlanView, steps: Seq<StepView>, s: StepView, e: EffectView, u: Seq<Binding>) -> Renaming {
    let vars = types_at(cv, steps, p.fresh);
    let bound = names_for(cv, vars, Renaming { subst: seq![], fresh: p.fresh }, e, s.id, u, u.len());
    if link_goal(e) is True {
        bound
    } else {
        with_names(cv, vars, bound, e.parameters, s.id, e.parameters.len())
    }
}

/// What a link from an effect adds as goals and bindings: the condition of the
/// effect and, for a new step, its precondition.
pub open spec fn link_agenda(
    t: Typing,
    p: PlanView,
    s: StepView,
    is_new: bool,
    e: EffectView,
    oc: OpenView,
    u: Seq<Binding>,
    subst: Seq<(Variable, Term)>,
) -> Option<Agenda> {
    let start = Agenda { opens: removed(p.opens, oc), binds: named_all(e, s.id, subst, u, u.len()) };
    match with_goal(t, start, put(link_goal(e), subst), s.id) {
        None => None,
        Some(a) => if is_new {
            with_goal(t, a, s.action.precondition, s.id)
        } else {
            Some(a)
        },
    }
}

/// The order with a link's producer before its consumer: the initial step needs
/// no order.
pub open spec fn link_order(order: Set<(int, int)>, from: usize, to: usize) -> Option<Set<(int, int)>> {
    if from == INIT_ID {
        Some(order)
    } else {
        ordered_pair(order, from as int, to as int)
    }
}

/// The plan with an open condition supported by an effect of a step, given the
/// bindings that unify them; `None` if that is inconsistent.
pub open spec fn linked(
    cv: ContextView,
    p: PlanView,
    s: StepView,
    is_new: bool,
    e: EffectView,
    oc: OpenView,
    u: Seq<Binding>,
) -> Option<PlanView> {
    let steps = if is_new {
        seq![s] + p.steps
    } else {
        p.steps
    };
    let r = link_names(cv, p, steps, s, e, u);
    let t = cv.typing(types_at(cv, steps, r.fresh));
    if cv.fresh_base + r.fresh.len() > u32::MAX {
        None
    } else {
        match link_agenda(t, p, s, is_new, e, oc, u, r.subst) {
            None => None,
            Some(a) => match (bound_all(t, p.classes, a.binds), link_order(p.order, s.id, oc.step_id)) {
                (Some(sets), Some(order)) => {
                    let link = LinkView {
                        from_id: s.id,
                        effect_time: StepTime::AtEnd,
                        to_id: oc.step_id,
                        condition: oc.as_literal()->0,
                        condition_time: oc.when,
                    };
                    let to_link = threats_to(t, sets, order, link, steps, steps.len()) + p.unsafes;
                    Some(
                        PlanView {
                            steps,
                            num_steps: if is_new {
                                p.num_steps + 1
                            } else {
                                p.num_steps
                            },
                            links: seq![link] + p.links,
                            order,
                            classes: sets,
                            high: raised_all(p.high, a.binds),
                            unsafes: if is_new {
                                threats_by(t, sets, order, p.links, s, p.links.len()) + to_link
                            } else {
                                to_link
                            },
                            opens: a.opens,
                            fresh: r.fresh,
                        },
                    )
                },
                _ => None,
            },
        }
    }
}

/// The plan with an open literal supported by effect `k` of a step's action, if
/// they unify.
pub open spec fn link_child(cv: ContextView, p: PlanView, s: StepView, is_new: bool, k: int, oc: OpenView) -> Option<PlanView> {
    let steps = if is_new {
        seq![s] + p.steps
    } else {
        p.steps
    };
    let t = cv.typing(types_at(cv, steps, p.fresh));
    let e = s.action.effects[k];
    let l = oc.as_literal()->0;
    if literals_unify(t, p.classes, seq![], e.literal, s.id, l, oc.step_id) {
        linked(cv, p, s, is_new, e, oc, unifier(t, p.classes, e.literal.atom, s.id, l.atom, oc.step_id))
    } else {
        None
    }
}

/// Appends a plan, where there is one.
pub open spec fn appended(plans: Seq<PlanView>, p: Option<PlanView>) -> Seq<PlanView> {
    match p {
        Some(v) => plans.push(v),
        None => plans,
    }
}

/// The plans that support an open condition with a new step for one of the first
/// `n` achievers.
pub open spec fn new_step_plans(cv: ContextView, p: PlanView, oc: OpenView, achievers: Seq<(StepActionView, int)>, n: nat) -> Seq<PlanView>
    decreases n,
{
    if n == 0 {
        seq![]
    } else {
        let rest = new_step_plans(cv, p, oc, achievers, (n - 1) as nat);
        let (a, k) = achievers[n - 1];
        if a.is_synthetic() {
            rest
        } else {
            appended(rest, link_child(cv, p, StepView { id: (p.num_steps + 1) as usize, action: a }, true, k, oc))
        }
    }
}

/// The plans that support an open condition with a given step by one of the first
/// `n` achievers.
pub open spec fn reuse_by_step(
    cv: ContextView,
    p: PlanView,
    oc: OpenView,
    s: StepView,
    achievers: Seq<(StepActionView, int)>,
    n: nat,
) -> Seq<PlanView>
    decreases n,
{
    if n == 0 {
        seq![]
    } else {
        let rest = reuse_by_step(cv, p, oc, s, achievers, (n - 1) as nat);
        let (a, k) = achievers[n - 1];
        if a.id == s.action.id && may_come_before(p.order, s.id as int, oc.step_id as int) && k < s.action.effects.len() {
            appended(rest, link_child(cv, p, s, false, k, oc))
        } else {
            rest
        }
    }
}

/// The plans that support an open condition with one of the first `n` steps.
pub open spec fn reuse_plans(cv: ContextView, p: PlanView, oc: OpenView, achievers: Seq<(StepActionView, int)>, n: nat) -> Seq<PlanView>
    decreases n,
{
    if n == 0 {
        seq![]
    } else {
        reuse_plans(cv, p, oc, achievers, (n - 1) as nat) + reuse_by_step(cv, p, oc, p.steps[n - 1], achievers, achievers.len())
    }
}

/// The inequality that keeps the two sides of a binding apart.
pub open spec fn parting(b: Binding) -> FormulaView {
    FormulaView::Inequality(Term::Variable(b.var), Some(b.var_id), b.term, Some(b.term_id))
}

/// Some of the first `n` bindings keep their sides apart.
pub open spec fn some_parted(u: Seq<Binding>, n: nat) -> FormulaView
    decreases n,
{
    if n == 0 {
        FormulaView::False
    } else {
        either(some_parted(u, (n - 1) as nat), parting(u[n - 1]))
    }
}

/// What keeps an atom at a step from the first `n` initial facts; `None` if it is
/// one of them.
pub open spec fn absence(t: Typing, sets: Seq<Class>, facts: Seq<EffectView>, atom: AtomView, id: usize, n: nat) -> Option<FormulaView>
    decreases n,
{
    if n == 0 {
        Some(FormulaView::True)
    } else {
        match absence(t, sets, facts, atom, id, (n - 1) as nat) {
            None => None,
            Some(f) => {
                let l = facts[n - 1].literal;
                let goal = LiteralView { negative: false, atom };
                if literals_unify(t, sets, seq![], l, INIT_ID, goal, id) {
                    let u = unifier(t, sets, l.atom, INIT_ID, atom, id);
                    if u.len() == 0 {
                        None
                    } else {
                        Some(both(f, some_parted(u, u.len())))
                    }
                } else {
                    Some(f)
                }
            },
        }
    }
}

/// The plan with a negative open literal supported by its absence from the
/// initial state.
pub open spec fn absence_plan(cv: ContextView, p: PlanView, oc: OpenView) -> Option<PlanView> {
    let t = p.typing(cv);
    let l = oc.as_literal()->0;
    match absence(t, p.classes, cv.init.effects, l.atom, oc.step_id, cv.init.effects.len()) {
        None => None,
        Some(goal) => match with_goal(t, Agenda { opens: removed(p.opens, oc), binds: seq![] }, goal, INIT_ID) {
            None => None,
            Some(a) => match bound_all(t, p.classes, a.binds) {
                None => None,
                Some(sets) => {
                    let link = LinkView { from_id: INIT_ID, effect_time: StepTime::AtEnd, to_id: oc.step_id, condition: l, condition_time: oc.when };
                    Some(
                        PlanView {
                            links: seq![link] + p.links,
                            classes: sets,
                            high: raised_all(p.high, a.binds),
                            unsafes: threats_to(t, sets, p.order, link, p.steps, p.steps.len()) + p.unsafes,
                            opens: a.opens,
                            ..p
                        },
                    )
                },
            },
        },
    }
}

/// The plan with an open condition replaced by a goal of its step.
pub open spec fn goal_plan(cv: ContextView, p: PlanView, opens: Seq<OpenView>, goal: FormulaView, id: usize) -> Option<PlanView> {
    let t = p.typing(cv);
    match with_goal(t, Agenda { opens, binds: seq![] }, goal, id) {
        None => None,
        Some(a) => match bound_all(t, p.classes, a.binds) {
            None => None,
            Some(sets) => Some(PlanView { classes: sets, high: raised_all(p.high, a.binds), opens: a.opens, ..p }),
        },
    }
}

/// The plans that choose one of the first `n` disjuncts of an open disjunction.
pub open spec fn disjunct_plans(cv: ContextView, p: PlanView, oc: OpenView, ds: Seq<FormulaView>, n: nat) -> Seq<PlanView>
    decreases n,
{
    if n == 0 {
        seq![]
    } else {
        appended(
            disjunct_plans(cv, p, oc, ds, (n - 1) as nat),
            goal_plan(cv, p, removed(p.opens, oc), ds[n - 1], oc.step_id),
        )
    }
}

/// The plan that resolves an open inequality by giving `v` the object `o` and
/// keeping `w` from it.
pub open spec fn object_plan(cv: ContextView, p: PlanView, oc: OpenView, v: Variable, w: Variable, o: Object) -> Option<PlanView> {
    let id = oc.step_id;
    let bs = seq![
        Binding { var: v, var_id: id, term: Term::Object(o), term_id: 0, equality: true },
        Binding { var: w, var_id: id, term: Term::Object(o), term_id: 0, equality: false },
    ];
    match bound_all(p.typing(cv), p.classes, bs) {
        None => None,
        Some(sets) => Some(PlanView { classes: sets, high: raised_all(p.high, bs), opens: removed(p.opens, oc), ..p }),
    }
}

pub open spec fn object_plans(cv: ContextView, p: PlanView, oc: OpenView, v: Variable, w: Variable, os: Seq<Object>, n: nat) -> Seq<PlanView>
    decreases n,
{
    if n == 0 {
        seq![]
    } else {
        appended(object_plans(cv, p, oc, v, w, os, (n - 1) as nat), object_plan(cv, p, oc, v, w, os[n - 1]))
    }
}

/// The objects a variable of a step may stand for.
pub open spec fn domain_of(cv: ContextView, p: PlanView, v: Variable, id: usize) -> Seq<Object> {
    let t = p.typing(cv);
    unbarred(p.classes, (v, id), t.range(t.var_ty(v, id)))
}

/// The plans that resolve an open inequality of two variables: the one with the
/// smaller domain gets one of its objects.
pub open spec fn inequality_plans(cv: ContextView, p: PlanView, oc: OpenView, v: Variable, w: Variable) -> Seq<PlanView> {
    let d1 = domain_of(cv, p, v, oc.step_id);
    let d2 = domain_of(cv, p, w, oc.step_id);
    if d1.len() < d2.len() {
        object_plans(cv, p, oc, v, w, d1, d1.len())
    } else {
        object_plans(cv, p, oc, w, v, d2, d2.len())
    }
}

/// The plans that resolve an open condition.
pub open spec fn open_plans(cv: ContextView, p: PlanView, oc: OpenView) -> Seq<PlanView> {
    match oc.condition {
        FormulaView::Disjunction(ds) => disjunct_plans(cv, p, oc, ds, ds.len()),
        FormulaView::Inequality(l, _, r, _) => if l is Variable && r is Variable {
            inequality_plans(cv, p, oc, l->Variable_0, r->Variable_0)
        } else {
            seq![]
        },
        _ => match oc.as_literal() {
            None => seq![],
            Some(l) => {
                let achievers = cv.achievers(l);
                let linked = new_step_plans(cv, p, oc, achievers, achievers.len()) + reuse_plans(
                    cv,
                    p,
                    oc,
                    achievers,
                    p.steps.len(),
                );
                if l.negative {
                    appended(linked, absence_plan(cv, p, oc))
                } else {
                    linked
                }
            },
        },
    }
}

/// The bindings that unify a threat's effect with the condition it threatens.
pub open spec fn threat_unifier(cv: ContextView, p: PlanView, u: UnsafeView) -> Seq<Binding> {
    unifier(p.typing(cv), p.classes, u.link.condition.atom, u.link.to_id, u.effect.literal.atom, u.step_id)
}

/// Whether a threat is still one.
pub open spec fn is_threat(cv: ContextView, p: PlanView, u: UnsafeView) -> bool {
    &&& may_come_before(p.order, u.link.from_id as int, u.step_id as int)
    &&& may_come_before(p.order, u.step_id as int, u.link.to_id as int)
    &&& literals_clash(p.typing(cv), p.classes, seq![], u.effect.literal, u.step_id, u.link.condition, u.link.to_id)
}

/// Whether a binding speaks of a parameter of an effect of a step.
pub open spec fn touches_parameter(e: EffectView, step_id: usize, b: Binding) -> bool {
    is_parameter(e, step_id, b.var, b.var_id) || (b.term is Variable && is_parameter(e, step_id, b.term->Variable_0, b.term_id))
}

/// Some of the first `n` bindings, of those that may, keep their sides apart:
/// bindings of the effect's parameters cannot, since the effect stands for all
/// their values.
pub open spec fn some_separated(p: PlanView, u: UnsafeView, bs: Seq<Binding>, n: nat) -> FormulaView
    decreases n,
{
    if n == 0 {
        FormulaView::False
    } else {
        let rest = some_separated(p, u, bs, (n - 1) as nat);
        let b = bs[n - 1];
        if !touches_parameter(u.effect, u.step_id, b) && may_differ(p.classes, p.high, b.var, b.var_id, b.term, b.term_id) {
            either(rest, parting(b))
        } else {
            rest
        }
    }
}

/// What separates a threat from the link, with the parameters of a quantified
/// effect renamed: some binding fails, or the effect's condition does, for all
/// values of its parameters.
pub open spec fn separation(p: PlanView, u: UnsafeView, bs: Seq<Binding>, r: Renaming) -> FormulaView {
    let apart = some_separated(p, u, bs, bs.len());
    if u.effect.condition is True {
        apart
    } else if u.effect.parameters.len() == 0 {
        either(apart, negated(u.effect.condition))
    } else {
        either(
            apart,
            FormulaView::Forall(
                Seq::new(u.effect.parameters.len(), |i: int| name_of(r.subst, u.effect.parameters[i])),
                Box::new(negated(put(u.effect.condition, r.subst))),
            ),
        )
    }
}

/// The name of a parameter.
pub open spec fn name_of(subst: Seq<(Variable, Term)>, p: Variable) -> Variable {
    match lookup(subst, p) {
        Some(Term::Variable(v)) => v,
        _ => p,
    }
}

/// The renaming that separation takes.
pub open spec fn separation_names(cv: ContextView, p: PlanView, u: UnsafeView) -> Renaming {
    let start = Renaming { subst: seq![], fresh: p.fresh };
    if u.effect.condition is True {
        start
    } else {
        with_names(cv, types_at(cv, p.steps, p.fresh), start, u.effect.parameters, u.step_id, u.effect.parameters.len())
    }
}

/// The plan with a threat separated from its link.
pub open spec fn separated_plan(cv: ContextView, p: PlanView, u: UnsafeView) -> Option<PlanView> {
    let r = separation_names(cv, p, u);
    if cv.fresh_base + r.fresh.len() > u32::MAX {
        None
    } else {
        let q = PlanView { unsafes: removed(p.unsafes, u), fresh: r.fresh, ..p };
        goal_plan(cv, q, p.opens, separation(p, u, threat_unifier(cv, p, u), r), u.step_id)
    }
}

/// The plan with a threat ordered out of the way.
pub open spec fn ordered_plan(p: PlanView, u: UnsafeView, before: usize, after: usize) -> Option<PlanView> {
    match ordered_pair(p.order, before as int, after as int) {
        None => None,
        Some(order) => Some(PlanView { order, unsafes: removed(p.unsafes, u), ..p }),
    }
}

/// The plans that resolve a threat: separation, promotion and demotion; one that
/// is none any more is dropped.
pub open spec fn unsafe_plans(cv: ContextView, p: PlanView, u: UnsafeView) -> Seq<PlanView> {
    if is_threat(cv, p, u) {
        appended(
            appended(
                appended(seq![], separated_plan(cv, p, u)),
                ordered_plan(p, u, u.link.to_id, u.step_id),
            ),
            ordered_plan(p, u, u.step_id, u.link.from_id),
        )
    } else {
        seq![PlanView { unsafes: removed(p.unsafes, u), ..p }]
    }
}

/// The plan that no refinement has touched: the initial and the goal step and the
/// goal's conditions; `None` if the goal is inconsistent.
pub open spec fn first_plan(cv: ContextView) -> Option<PlanView> {
    let steps = seq![StepView { id: INIT_ID, action: cv.init }, StepView { id: GOAL_ID, action: cv.goal }];
    let p = PlanView {
        steps,
        num_steps: 0,
        links: seq![],
        order: Set::empty(),
        classes: seq![],
        high: 0,
        unsafes: seq![],
        opens: seq![],
        fresh: seq![],
    };
    goal_plan(cv, p, seq![], cv.goal.precondition, GOAL_ID)
}

} // verus!
