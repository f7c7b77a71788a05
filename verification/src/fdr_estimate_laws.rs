//! The additive estimates of finite-domain plans add up.
use vstd::prelude::*;

use crate::fdr::TaskView;
use crate::fdr_estimates::{
    capped, cost_values, efforts_of, is_cost_estimate, is_work_estimate, open_cost, open_sum, open_work, prices_of, relaxed_rules, reused, start_values,
    work_values, ENDLESS, UNREACHABLE,
};
use crate::fdr_lmcut::{number, numbers};
use crate::fdr_plan::{OpenCondition, PlanView};
use crate::params::ActionCost;
use crate::relax::{estimates_agree, zeroed};

verus! {

/// Whether the estimates of facts for a plan exist.
pub open spec fn has_estimates(t: TaskView, cost: ActionCost, p: PlanView, reuse: bool) -> bool {
    &&& exists|values: Seq<u128>| is_cost_estimate(t, cost, p, reuse, values)
    &&& exists|values: Seq<u128>| is_work_estimate(t, p, reuse, values)
}

/// A plan with other open conditions.
pub open spec fn opened(p: PlanView, opens: Seq<OpenCondition>) -> PlanView {
    PlanView { opens, ..p }
}

/// The estimates of facts for a plan know nothing of its open conditions.
proof fn lemma_same_values(t: TaskView, cost: ActionCost, p: PlanView, q: PlanView, reuse: bool)
    requires
        has_estimates(t, cost, p, reuse),
        q.steps == p.steps,
    ensures
        cost_values(t, cost, q, reuse) == cost_values(t, cost, p, reuse),
        work_values(t, q, reuse) == work_values(t, p, reuse),
{
    assert(reused(t, q, reuse) == reused(t, p, reuse)) by {
        lemma_same_committed(t, p, q, p.steps.len());
    }
    let free = numbers(t.variables, reused(t, p, reuse));
    let a = cost_values(t, cost, p, reuse);
    let v = work_values(t, p, reuse);
    assert(is_cost_estimate(t, cost, p, reuse, a));
    assert(is_cost_estimate(t, cost, q, reuse, a));
    assert(is_cost_estimate(t, cost, q, reuse, cost_values(t, cost, q, reuse)));
    estimates_agree(relaxed_rules(t), prices_of(t, cost), zeroed(start_values(t, UNREACHABLE), free), a, cost_values(t, cost, q, reuse));
    assert(is_work_estimate(t, p, reuse, v));
    assert(is_work_estimate(t, q, reuse, v));
    assert(is_work_estimate(t, q, reuse, work_values(t, q, reuse)));
    estimates_agree(relaxed_rules(t), efforts_of(t), zeroed(start_values(t, ENDLESS), free), v, work_values(t, q, reuse));
}

proof fn lemma_same_committed(t: TaskView, p: PlanView, q: PlanView, n: nat)
    requires
        q.steps == p.steps,
        n <= p.steps.len(),
    ensures
        crate::fdr_estimates::committed_facts(t, q, n) == crate::fdr_estimates::committed_facts(t, p, n),
    decreases n,
{
    if n > 0 {
        lemma_same_committed(t, p, q, (n - 1) as nat);
    }
}

proof fn lemma_sum_joined(t: TaskView, values: Seq<u128>, a: Seq<OpenCondition>, b: Seq<OpenCondition>, n: nat)
    requires
        n <= b.len(),
    ensures
        open_sum(t, values, a + b, a.len() + n) == open_sum(t, values, a, a.len()) + open_sum(t, values, b, n),
    decreases n,
{
    if n > 0 {
        lemma_sum_joined(t, values, a, b, (n - 1) as nat);
        assert((a + b)[a.len() + n - 1] == b[n - 1]);
    } else {
        lemma_sum_front(t, values, a, b, a.len());
    }
}

proof fn lemma_sum_front(t: TaskView, values: Seq<u128>, a: Seq<OpenCondition>, b: Seq<OpenCondition>, n: nat)
    requires
        n <= a.len(),
    ensures
        open_sum(t, values, a + b, n) == open_sum(t, values, a, n),
    decreases n,
{
    if n > 0 {
        lemma_sum_front(t, values, a, b, (n - 1) as nat);
        assert((a + b)[n - 1] == a[n - 1]);
    }
}

/// The estimate of open conditions is the sum of the estimates of any two parts of them, up
/// to the top value; and of one condition alone it is that of its fact.
pub proof fn estimates_of_parts_add_up(
    t: TaskView,
    cost: ActionCost,
    p: PlanView,
    reuse: bool,
    a: Seq<OpenCondition>,
    b: Seq<OpenCondition>,
    o: OpenCondition,
)
    requires
        has_estimates(t, cost, p, reuse),
    ensures
        open_cost(t, cost, opened(p, a + b), reuse) == capped(
            (open_cost(t, cost, opened(p, a), reuse) + open_cost(t, cost, opened(p, b), reuse)) as nat,
            UNREACHABLE,
        ),
        open_work(t, opened(p, a + b), reuse) == capped((open_work(t, opened(p, a), reuse) + open_work(t, opened(p, b), reuse)) as nat, ENDLESS),
        open_cost(t, cost, opened(p, seq![o]), reuse) == cost_values(t, cost, p, reuse)[number(t.variables, o.condition)],
        open_work(t, opened(p, seq![o]), reuse) == capped(work_values(t, p, reuse)[number(t.variables, o.condition)] as nat, ENDLESS),
        open_cost(t, cost, opened(p, seq![]), reuse) == 0,
        open_work(t, opened(p, seq![]), reuse) == 0,
{
    let c = cost_values(t, cost, p, reuse);
    let w = work_values(t, p, reuse);
    lemma_same_values(t, cost, p, opened(p, a + b), reuse);
    lemma_same_values(t, cost, p, opened(p, a), reuse);
    lemma_same_values(t, cost, p, opened(p, b), reuse);
    lemma_same_values(t, cost, p, opened(p, seq![o]), reuse);
    lemma_same_values(t, cost, p, opened(p, seq![]), reuse);
    lemma_sum_joined(t, c, a, b, b.len());
    lemma_sum_joined(t, w, a, b, b.len());
    reveal_with_fuel(open_sum, 2);
}

/// The estimate of open conditions does not depend on their order: exchanging two parts
/// leaves it the same.
pub proof fn estimates_know_no_order(
    t: TaskView,
    cost: ActionCost,
    p: PlanView,
    reuse: bool,
    a: Seq<OpenCondition>,
    b: Seq<OpenCondition>,
    c: Seq<OpenCondition>,
    d: Seq<OpenCondition>,
)
    requires
        has_estimates(t, cost, p, reuse),
    ensures
        open_cost(t, cost, opened(p, a + b + c + d), reuse) == open_cost(t, cost, opened(p, a + c + b + d), reuse),
        open_work(t, opened(p, a + b + c + d), reuse) == open_work(t, opened(p, a + c + b + d), reuse),
{
    let v = cost_values(t, cost, p, reuse);
    let w = work_values(t, p, reuse);
    lemma_same_values(t, cost, p, opened(p, a + b + c + d), reuse);
    lemma_same_values(t, cost, p, opened(p, a + c + b + d), reuse);
    lemma_sum_of_four(t, v, a, b, c, d);
    lemma_sum_of_four(t, v, a, c, b, d);
    lemma_sum_of_four(t, w, a, b, c, d);
    lemma_sum_of_four(t, w, a, c, b, d);
}

proof fn lemma_sum_of_four(
    t: TaskView,
    values: Seq<u128>,
    a: Seq<OpenCondition>,
    b: Seq<OpenCondition>,
    c: Seq<OpenCondition>,
    d: Seq<OpenCondition>,
)
    ensures
        open_sum(t, values, a + b + c + d, (a + b + c + d).len()) == open_sum(t, values, a, a.len()) + open_sum(t, values, b, b.len()) + open_sum(
            t,
            values,
            c,
            c.len(),
        ) + open_sum(t, values, d, d.len()),
{
    lemma_sum_joined(t, values, a, b, b.len());
    lemma_sum_joined(t, values, a + b, c, c.len());
    lemma_sum_joined(t, values, a + b + c, d, d.len());
}

} // verus!
