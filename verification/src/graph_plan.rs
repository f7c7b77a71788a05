//! What a partial plan costs to complete, read off the planning graph: the value
//! of its open conditions, and a relaxed plan for them.
use std::rc::Rc;

use vstd::prelude::*;

use crate::bindings::literals_unify;
use crate::chain::{elements, Chain};
use crate::flaws::{open_views, OpenCondition};
use crate::formula::{forms, Atom, Formula, FormulaView, Literal, LiteralView};
use crate::graph_model::{GraphView, Reading};
use crate::hvalue::{hv_min, lesser, no_value, unit_work, zero_value, HeuristicValue};
use crate::orderings::may_come_before;
use crate::plan::{Plan, INIT_ID};
use crate::plan_model::PlanView;
use crate::planning_graph::{formula_heuristic_value, reading_of, PlanningGraph};
use crate::predicates::{Predicate, PredicateTable};
use crate::step::{step_views, Step, StepView};
use crate::typing::{TypeContext, Typing};

verus! {

/// Whether effect `k` of a step achieves a literal that step `id` needs.
pub open spec fn achieves(t: Typing, p: PlanView, l: LiteralView, id: usize, s: StepView, k: int) -> bool {
    &&& s.action.effects[k].literal.negative == l.negative
    &&& literals_unify(t, p.classes, seq![], l, id, s.action.effects[k].literal, s.id)
}

/// Whether step `i` of the plan may come before step `id` and achieve a literal
/// that it needs.
pub open spec fn step_achieves(t: Typing, p: PlanView, l: LiteralView, id: usize, i: int) -> bool {
    let s = p.steps[i];
    &&& s.id != INIT_ID
    &&& may_come_before(p.order, s.id as int, id as int)
    &&& exists|k: int| 0 <= k < s.action.effects.len() && #[trigger] achieves(t, p, l, id, s, k)
}

/// Whether a step of the plan may be reused for a literal: one that is not
/// static.
pub open spec fn is_reusable(dynamic: Set<Predicate>, t: Typing, p: PlanView, l: LiteralView, id: usize) -> bool {
    dynamic.contains(l.atom.predicate) && exists|i: int| 0 <= i < p.steps.len() && #[trigger] step_achieves(t, p, l, id, i)
}

/// The values of a conjunction's parts added up.
pub open spec fn sum_of(values: Seq<HeuristicValue>, n: nat) -> HeuristicValue
    decreases n,
{
    if n == 0 {
        zero_value()
    } else {
        sum_of(values, (n - 1) as nat).plus(values[n - 1])
    }
}

/// The least of the values of a disjunction's parts.
pub open spec fn least_of_all(values: Seq<HeuristicValue>, n: nat) -> HeuristicValue
    decreases n,
{
    if n == 0 {
        no_value()
    } else {
        lesser(least_of_all(values, (n - 1) as nat), values[n - 1])
    }
}

/// The values of a list of formulas at a step of the plan, with reuse.
pub open spec fn reuse_values(g: GraphView, dynamic: Set<Predicate>, t: Typing, p: PlanView, fs: Seq<FormulaView>, id: usize) -> Seq<HeuristicValue>
    decreases fs, 0nat,
{
    Seq::new(
        fs.len(),
        |i: int|
            if 0 <= i < fs.len() {
                reuse_value(g, dynamic, t, p, fs[i], id)
            } else {
                zero_value()
            },
    )
}

/// The value of a formula at a step of the plan, with reuse: a literal that a
/// step may achieve takes a link only.
pub open spec fn reuse_value(g: GraphView, dynamic: Set<Predicate>, t: Typing, p: PlanView, f: FormulaView, id: usize) -> HeuristicValue
    decreases f, 1nat,
{
    let r = Some(Reading { typing: t, classes: p.classes });
    match f {
        FormulaView::Atom(a) => if is_reusable(dynamic, t, p, LiteralView { negative: false, atom: a }, id) {
            unit_work()
        } else {
            g.formula(r, f, id)
        },
        FormulaView::Negation(a) => if is_reusable(dynamic, t, p, LiteralView { negative: true, atom: a }, id) {
            unit_work()
        } else {
            g.formula(r, f, id)
        },
        FormulaView::Conjunction(cs) => sum_of(reuse_values(g, dynamic, t, p, cs, id), cs.len()),
        FormulaView::Disjunction(ds) => least_of_all(reuse_values(g, dynamic, t, p, ds, id), ds.len()),
        FormulaView::Exists(_, body) => reuse_value(g, dynamic, t, p, *body, id),
        FormulaView::Forall(_, body) => reuse_value(g, dynamic, t, p, *body, id),
        _ => g.formula(r, f, id),
    }
}

/// The value of a formula at a step of the plan.
pub open spec fn value_at(g: GraphView, dynamic: Set<Predicate>, t: Typing, p: PlanView, f: FormulaView, id: usize, reuse: bool) -> HeuristicValue {
    if reuse {
        reuse_value(g, dynamic, t, p, f, id)
    } else {
        g.formula(Some(Reading { typing: t, classes: p.classes }), f, id)
    }
}

/// The steps of a plan.
pub fn plan_steps(plan: &Plan) -> (res: Vec<Step>)
    ensures
        step_views(res@) == plan@.steps,
{
    let mut res: Vec<Step> = Vec::new();
    let mut cur: &Option<Rc<Chain<Step>>> = &plan.steps;
    while cur.is_some()
        invariant
            res@ + elements(cur) == elements(&plan.steps),
        decreases elements(cur).len(),
    {
        match cur {
            Some(node) => {
                let ghost before = res@;
                let ghost rest = elements(cur);
                res.push(node.head.clone());
                cur = &node.tail;
                assert(before + rest =~= res@ + elements(cur));
            },
            None => {},
        }
    }
    assert(res@ + elements(cur) =~= res@);
    res
}

/// The open conditions of a plan.
pub fn plan_opens(plan: &Plan) -> (res: Vec<OpenCondition>)
    ensures
        open_views(res@) == plan@.opens,
{
    let mut res: Vec<OpenCondition> = Vec::new();
    let mut cur: &Option<Rc<Chain<OpenCondition>>> = &plan.open_conds;
    while cur.is_some()
        invariant
            res@ + elements(cur) == elements(&plan.open_conds),
        decreases elements(cur).len(),
    {
        match cur {
            Some(node) => {
                let ghost before = res@;
                let ghost rest = elements(cur);
                res.push(node.head.clone());
                cur = &node.tail;
                assert(before + rest =~= res@ + elements(cur));
            },
            None => {},
        }
    }
    assert(res@ + elements(cur) =~= res@);
    res
}

/// Whether a step of the plan may be reused for a literal.
fn reuse_literal(predicates: &PredicateTable, ctx: &TypeContext, plan: &Plan, literal: &Literal, step_id: usize) -> (res: bool)
    requires
        ctx.wf(),
        plan.wf(),
    ensures
        res == is_reusable(predicates.dynamics(), ctx@, plan@, literal@, step_id),
{
    if predicates.is_static(literal.atom().predicate) {
        return false;
    }
    let steps = plan_steps(plan);
    let ghost p = plan@;
    let ghost t = ctx@;
    let mut i: usize = 0;
    while i < steps.len()
        invariant
            ctx.wf(),
            plan.wf(),
            p == plan@,
            t == ctx@,
            step_views(steps@) == p.steps,
            predicates.dynamics().contains(literal@.atom.predicate),
            i <= steps@.len(),
            forall|j: int| 0 <= j < i ==> !#[trigger] step_achieves(t, p, literal@, step_id, j),
        decreases steps@.len() - i,
    {
        let s = &steps[i];
        assert(p.steps[i as int] == s@);
        if s.id != INIT_ID && plan.orderings.may_order(s.id, step_id) {
            let mut k: usize = 0;
            while k < s.action.effects.len()
                invariant
                    ctx.wf(),
                    plan.wf(),
                    p == plan@,
                    t == ctx@,
                    i < p.steps.len(),
                    p.steps[i as int] == s@,
                    s.id != INIT_ID,
                    may_come_before(p.order, s.id as int, step_id as int),
                    predicates.dynamics().contains(literal@.atom.predicate),
                    k <= s.action.effects@.len(),
                    forall|m: int| 0 <= m < k ==> !#[trigger] achieves(t, p, literal@, step_id, s@, m),
                decreases s.action.effects@.len() - k,
            {
                let e = &s.action.effects[k];
                assert(s@.action.effects[k as int] == e@);
                if e.literal.negative() == literal.negative() && plan.bindings.unify(ctx, literal, step_id, &e.literal, s.id) {
                    assert(achieves(t, p, literal@, step_id, s@, k as int));
                    assert(step_achieves(t, p, literal@, step_id, i as int));
                    return true;
                }
                k = k + 1;
            }
        }
        i = i + 1;
    }
    false
}

/// The reuse-aware formula value used by `Heuristic::plan_rank`. When `reuse`
/// is set, a non-static literal that an existing ordered-before step already
/// achieves is valued at zero cost / unit work.
pub fn formula_value(
    pg: &PlanningGraph,
    predicates: &PredicateTable,
    ctx: &TypeContext,
    plan: &Plan,
    formula: &Formula,
    step_id: usize,
    reuse: bool,
) -> (res: (HeuristicValue, HeuristicValue))
    requires
        pg.wf(),
        ctx.wf(),
        plan.wf(),
    ensures
        res.0 == value_at(pg@, predicates.dynamics(), ctx@, plan@, formula@, step_id, reuse),
        res.1 == res.0,
    decreases formula,
{
    let plain = Some((ctx, &*plan.bindings));
    assert(reading_of(plain) == Some(Reading { typing: ctx@, classes: plan@.classes }));
    if !reuse {
        return formula_heuristic_value(pg, formula, step_id, plain);
    }
    let ghost d = predicates.dynamics();
    let h = match formula {
        Formula::Atom(a) => {
            let l = Literal::Atom(a.clone());
            assert(l@ == (LiteralView { negative: false, atom: a@ }));
            if reuse_literal(predicates, ctx, plan, &l, step_id) {
                HeuristicValue::of_unit_work()
            } else {
                formula_heuristic_value(pg, formula, step_id, plain).0
            }
        },
        Formula::Negation(a) => {
            let l = Literal::Negation(a.clone());
            assert(l@ == (LiteralView { negative: true, atom: a@ }));
            if reuse_literal(predicates, ctx, plan, &l, step_id) {
                HeuristicValue::of_unit_work()
            } else {
                formula_heuristic_value(pg, formula, step_id, plain).0
            }
        },
        Formula::Disjunction(ds) => {
            let ghost values = reuse_values(pg@, d, ctx@, plan@, forms(ds@), step_id);
            let mut h = HeuristicValue::of_nothing();
            let mut i: usize = 0;
            while i < ds.len()
                invariant
                    pg.wf(),
                    ctx.wf(),
                    plan.wf(),
                    d == predicates.dynamics(),
                    *formula == Formula::Disjunction(*ds),
                    decreases_to!(formula => ds@),
                    values == reuse_values(pg@, d, ctx@, plan@, forms(ds@), step_id),
                    i <= ds@.len(),
                    h == least_of_all(values, i as nat),
                decreases ds@.len() - i,
            {
                let (hi, _) = formula_value(pg, predicates, ctx, plan, &ds[i], step_id, true);
                assert(values[i as int] == hi);
                h = hv_min(h, hi);
                i = i + 1;
            }
            h
        },
        Formula::Conjunction(cs) => {
            let ghost values = reuse_values(pg@, d, ctx@, plan@, forms(cs@), step_id);
            let mut h = HeuristicValue::of_zero();
            let mut i: usize = 0;
            while i < cs.len()
                invariant
                    pg.wf(),
                    ctx.wf(),
                    plan.wf(),
                    d == predicates.dynamics(),
                    *formula == Formula::Conjunction(*cs),
                    decreases_to!(formula => cs@),
                    values == reuse_values(pg@, d, ctx@, plan@, forms(cs@), step_id),
                    i <= cs@.len(),
                    h == sum_of(values, i as nat),
                decreases cs@.len() - i,
            {
                let (hi, _) = formula_value(pg, predicates, ctx, plan, &cs[i], step_id, true);
                assert(values[i as int] == hi);
                h.add_assign(&hi);
                i = i + 1;
            }
            h
        },
        Formula::Exists { params: _, body } => formula_value(pg, predicates, ctx, plan, body, step_id, true).0,
        Formula::Forall { params: _, body } => formula_value(pg, predicates, ctx, plan, body, step_id, true).0,
        _ => formula_heuristic_value(pg, formula, step_id, plain).0,
    };
    (h, h)
}

} // verus!
