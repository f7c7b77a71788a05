//! What the additive estimates of literal plans add up.
use vstd::prelude::*;

use crate::fdr_rank::INFINITE_RANK;
use crate::formula::FormulaView;
use crate::graph_model::GraphView;
use crate::graph_plan::{is_reusable, reuse_value, reuse_values, step_achieves, value_at};
use crate::heuristics::HVal;
use crate::hvalue::{cost_sum, work_sum, HeuristicValue};
use crate::flaws::OpenView;
use crate::formula::LiteralView;
use crate::plan_model::PlanView;
use crate::predicates::Predicate;
use crate::rank::{is_plan_rank, open_totals, Models};
use crate::search::{ContextView, SearchContext};
use crate::step::StepActionView;
use crate::typing::Typing;

verus! {

/// Whether two plans differ at most in their flaws.
pub open spec fn same_but_flaws(p: PlanView, q: PlanView) -> bool {
    &&& p.steps == q.steps
    &&& p.order == q.order
    &&& p.classes == q.classes
    &&& p.fresh == q.fresh
}

proof fn lemma_reusable_stays(dynamic: Set<Predicate>, t: Typing, p: PlanView, q: PlanView, l: LiteralView, id: usize)
    requires
        same_but_flaws(p, q),
    ensures
        is_reusable(dynamic, t, p, l, id) == is_reusable(dynamic, t, q, l, id),
{
    assert forall|i: int| 0 <= i < p.steps.len() implies #[trigger] step_achieves(t, p, l, id, i) == step_achieves(t, q, l, id, i) by {
        if step_achieves(t, p, l, id, i) {
            let k = choose|k: int|
                0 <= k < p.steps[i].action.effects.len() && #[trigger] crate::graph_plan::achieves(t, p, l, id, p.steps[i], k);
            assert(crate::graph_plan::achieves(t, q, l, id, q.steps[i], k));
        }
        if step_achieves(t, q, l, id, i) {
            let k = choose|k: int|
                0 <= k < q.steps[i].action.effects.len() && #[trigger] crate::graph_plan::achieves(t, q, l, id, q.steps[i], k);
            assert(crate::graph_plan::achieves(t, p, l, id, p.steps[i], k));
        }
    }
    if is_reusable(dynamic, t, p, l, id) {
        let i = choose|i: int| 0 <= i < p.steps.len() && #[trigger] step_achieves(t, p, l, id, i);
        assert(step_achieves(t, q, l, id, i));
    }
    if is_reusable(dynamic, t, q, l, id) {
        let i = choose|i: int| 0 <= i < q.steps.len() && #[trigger] step_achieves(t, q, l, id, i);
        assert(step_achieves(t, p, l, id, i));
    }
}

proof fn lemma_reuse_stays(g: GraphView, dynamic: Set<Predicate>, t: Typing, p: PlanView, q: PlanView, f: FormulaView, id: usize)
    requires
        same_but_flaws(p, q),
    ensures
        reuse_value(g, dynamic, t, p, f, id) == reuse_value(g, dynamic, t, q, f, id),
    decreases f,
{
    match f {
        FormulaView::Atom(a) => {
            lemma_reusable_stays(dynamic, t, p, q, LiteralView { negative: false, atom: a }, id);
        },
        FormulaView::Negation(a) => {
            lemma_reusable_stays(dynamic, t, p, q, LiteralView { negative: true, atom: a }, id);
        },
        FormulaView::Conjunction(cs) => {
            assert forall|i: int| 0 <= i < cs.len() implies #[trigger] reuse_values(g, dynamic, t, p, cs, id)[i] == reuse_values(
                g,
                dynamic,
                t,
                q,
                cs,
                id,
            )[i] by {
                lemma_reuse_stays(g, dynamic, t, p, q, cs[i], id);
            }
            assert(reuse_values(g, dynamic, t, p, cs, id) =~= reuse_values(g, dynamic, t, q, cs, id));
        },
        FormulaView::Disjunction(ds) => {
            assert forall|i: int| 0 <= i < ds.len() implies #[trigger] reuse_values(g, dynamic, t, p, ds, id)[i] == reuse_values(
                g,
                dynamic,
                t,
                q,
                ds,
                id,
            )[i] by {
                lemma_reuse_stays(g, dynamic, t, p, q, ds[i], id);
            }
            assert(reuse_values(g, dynamic, t, p, ds, id) =~= reuse_values(g, dynamic, t, q, ds, id));
        },
        FormulaView::Exists(_, body) => {
            lemma_reuse_stays(g, dynamic, t, p, q, *body, id);
        },
        FormulaView::Forall(_, body) => {
            lemma_reuse_stays(g, dynamic, t, p, q, *body, id);
        },
        _ => {},
    }
}

/// What an open condition counts in a plan.
spec fn open_value(g: GraphView, cv: ContextView, p: PlanView, reuse: bool, oc: OpenView) -> HeuristicValue {
    value_at(g, cv.dynamic, p.typing(cv), p, oc.condition, oc.step_id, reuse)
}

proof fn lemma_open_value_stays(g: GraphView, cv: ContextView, p: PlanView, q: PlanView, reuse: bool, oc: OpenView)
    requires
        same_but_flaws(p, q),
    ensures
        open_value(g, cv, p, reuse, oc) == open_value(g, cv, q, reuse, oc),
{
    lemma_reuse_stays(g, cv.dynamic, p.typing(cv), p, q, oc.condition, oc.step_id);
}

proof fn lemma_inserted(g: GraphView, cv: ContextView, p: PlanView, q: PlanView, reuse: bool, at: int, oc: OpenView, n: nat)
    requires
        same_but_flaws(p, q),
        0 <= at <= p.opens.len(),
        q.opens == p.opens.insert(at, oc),
        n <= q.opens.len(),
    ensures
        ({
            let v = open_value(g, cv, p, reuse, oc);
            let got = open_totals(g, cv, q, reuse, n);
            if n <= at {
                got == open_totals(g, cv, p, reuse, n)
            } else {
                let rest = open_totals(g, cv, p, reuse, (n - 1) as nat);
                got == (cost_sum(rest.0, v.add_cost), work_sum(rest.1, v.add_work))
            }
        }),
    decreases n,
{
    if n > 0 {
        lemma_inserted(g, cv, p, q, reuse, at, oc, (n - 1) as nat);
        lemma_open_value_stays(g, cv, p, q, reuse, q.opens[n - 1]);
        if n - 1 < at {
            assert(q.opens[n - 1] == p.opens[n - 1]);
        } else if n - 1 > at {
            assert(q.opens[n - 1] == p.opens[n - 2]);
        }
    }
}

/// Whether a term ranks by the additive cost alone, or by the additive work alone.
pub open spec fn is_bare(term: HVal) -> bool {
    term is AddCost || term is AddrCost || term is AddWork || term is AddrWork
}

/// The sum of two ranks of a bare term: infinite where one of them is, or from the limit of
/// what is counted on.
pub open spec fn bare_sum(a: i128, b: i128) -> i128 {
    if a == INFINITE_RANK || b == INFINITE_RANK || a + b >= 2147483647 {
        INFINITE_RANK
    } else {
        (a + b) as i128
    }
}

/// The additive estimate of a plan is that of the plan without one of its open conditions,
/// wherever it stands, plus that of the plan with this condition alone; a plan without open
/// conditions counts nothing.
pub proof fn additive_estimates_add_up(
    pg: GraphView,
    steps: Seq<StepActionView>,
    ctx: &SearchContext,
    weight: i128,
    p: PlanView,
    at: int,
    oc: OpenView,
    id: usize,
    term: HVal,
    models: &Models,
    k: int,
    all: (i128, i128),
    rest: (i128, i128),
    one: (i128, i128),
    none: (i128, i128),
)
    requires
        is_bare(term),
        0 <= at <= p.opens.len(),
        is_plan_rank(pg, steps, ctx, weight, (PlanView { opens: p.opens.insert(at, oc), ..p }), id, term, models, k, all),
        is_plan_rank(pg, steps, ctx, weight, p, id, term, models, k, rest),
        is_plan_rank(pg, steps, ctx, weight, (PlanView { opens: seq![oc], ..p }), id, term, models, k, one),
        is_plan_rank(pg, steps, ctx, weight, (PlanView { opens: seq![], ..p }), id, term, models, k, none),
    ensures
        none == (0i128, 0i128),
        all.0 == bare_sum(rest.0, one.0),
        all.1 == all.0,
        0 <= all.0,
{
    let cv = ctx@;
    let reuse = term is AddrCost || term is AddrWork;
    let q = PlanView { opens: p.opens.insert(at, oc), ..p };
    let empty = PlanView { opens: seq![], ..p };
    let single = PlanView { opens: seq![oc], ..p };
    lemma_inserted(pg, cv, p, q, reuse, at, oc, q.opens.len());
    assert(single.opens =~= empty.opens.insert(0, oc));
    lemma_inserted(pg, cv, empty, single, reuse, 0, oc, 1);
    lemma_open_value_stays(pg, cv, p, empty, reuse, oc);
    assert(open_totals(pg, cv, empty, reuse, 0) == (0u128, 0u32));
}

/// With the committed cost counted in, one more open condition raises the rank by the
/// weighted estimate of this condition.
pub proof fn weighted_estimates_add_up(
    pg: GraphView,
    steps: Seq<StepActionView>,
    ctx: &SearchContext,
    weight: i128,
    p: PlanView,
    at: int,
    oc: OpenView,
    id: usize,
    term: HVal,
    models: &Models,
    k: int,
    all: (i128, i128),
    rest: (i128, i128),
    one: (i128, i128),
)
    requires
        term is Add || term is Addr,
        -0x1_0000_0000_0000_0000 <= weight <= 0x1_0000_0000_0000_0000,
        0 <= at <= p.opens.len(),
        is_plan_rank(pg, steps, ctx, weight, (PlanView { opens: p.opens.insert(at, oc), ..p }), id, term, models, k, all),
        is_plan_rank(pg, steps, ctx, weight, p, id, term, models, k, rest),
        is_plan_rank(pg, steps, ctx, weight, (PlanView { opens: seq![oc], ..p }), id, term, models, k, one),
    ensures
        all.1 == bare_sum(rest.1, one.1),
        all.0 == INFINITE_RANK <==> all.1 == INFINITE_RANK,
        all.0 < INFINITE_RANK ==> all.0 == rest.0 + weight * one.1,
{
    let cv = ctx@;
    let reuse = term is Addr;
    let q = PlanView { opens: p.opens.insert(at, oc), ..p };
    let empty = PlanView { opens: seq![], ..p };
    let single = PlanView { opens: seq![oc], ..p };
    lemma_inserted(pg, cv, p, q, reuse, at, oc, q.opens.len());
    assert(single.opens =~= empty.opens.insert(0, oc));
    lemma_inserted(pg, cv, empty, single, reuse, 0, oc, 1);
    lemma_open_value_stays(pg, cv, p, empty, reuse, oc);
    assert(open_totals(pg, cv, empty, reuse, 0) == (0u128, 0u32));
    let a = open_totals(pg, cv, q, reuse, q.opens.len()).0;
    let r = open_totals(pg, cv, p, reuse, p.opens.len()).0;
    let o = open_totals(pg, cv, single, reuse, 1).0;
    if a < 2147483647 {
        assert(a == r + o);
        assert(weight * a == weight * r + weight * o) by (nonlinear_arith)
            requires
                a == r + o,
        ;
        assert(-0x1_0000_0000_0000_0000 * 2147483647 <= weight * a <= 0x1_0000_0000_0000_0000 * 2147483647) by (nonlinear_arith)
            requires
                -0x1_0000_0000_0000_0000 <= weight <= 0x1_0000_0000_0000_0000,
                0 <= a <= 2147483647,
        ;
        assert(-0x1_0000_0000_0000_0000 * 2147483647 <= weight * r <= 0x1_0000_0000_0000_0000 * 2147483647) by (nonlinear_arith)
            requires
                -0x1_0000_0000_0000_0000 <= weight <= 0x1_0000_0000_0000_0000,
                0 <= r <= 2147483647,
        ;
    }
}

/// Whether the first list of open conditions is the second in another order: each comes
/// from the other by swaps of neighbours.
pub open spec fn is_swapped(a: Seq<OpenView>, b: Seq<OpenView>, i: int) -> bool {
    0 <= i && i + 1 < a.len() && b == a.update(i, a[i + 1]).update(i + 1, a[i])
}

/// The additive estimate does not depend on the order of the open conditions: swapping two
/// neighbours changes nothing.
pub proof fn additive_estimates_know_no_order(
    pg: GraphView,
    steps: Seq<StepActionView>,
    ctx: &SearchContext,
    weight: i128,
    p: PlanView,
    q: PlanView,
    i: int,
    id: usize,
    term: HVal,
    models: &Models,
    k: int,
    r: (i128, i128),
)
    requires
        is_bare(term) || term is Add || term is Addr,
        is_swapped(p.opens, q.opens, i),
        q == (PlanView { opens: q.opens, ..p }),
        is_plan_rank(pg, steps, ctx, weight, p, id, term, models, k, r),
    ensures
        is_plan_rank(pg, steps, ctx, weight, q, id, term, models, k, r),
{
    let cv = ctx@;
    let reuse = term is AddrCost || term is AddrWork || term is Addr;
    let base = PlanView { opens: p.opens.remove(i), ..p };
    assert(p.opens =~= base.opens.insert(i, p.opens[i]));
    assert(q.opens =~= base.opens.insert(i + 1, p.opens[i]));
    lemma_inserted(pg, cv, base, p, reuse, i, p.opens[i], p.opens.len());
    lemma_inserted(pg, cv, base, q, reuse, i + 1, p.opens[i], q.opens.len());
}

} // verus!
