//! Ranking finite-domain plans.
//!
//! Ranks are integers; a term that multiplies by the weight counts in
//! billionths.
use std::time::Instant;

use vstd::prelude::*;

use crate::clock::nanos_since;
use crate::fdr_estimates::{
    is_lmcut_estimate, is_relaxed_plan, open_cost, open_facts, open_work, operators_cost, plan_in, reused, all_needed, AddEstimate,
    Planner, ENDLESS, UNREACHABLE,
};
use crate::fdr::{Fact, fact_in};
use crate::fdr_plan::{PartialPlan, PlanView};
use crate::heuristics::HVal;
use crate::numerals::{magnitude, magnitude_of};
use crate::params::WEIGHT_ONE;

verus! {

/// The rank of a plan that leads nowhere.
pub const INFINITE_RANK: i128 = i128::MAX;

/// The number as a rank, short of [`INFINITE_RANK`].
pub open spec fn finite_rank(n: int) -> i128 {
    if n >= INFINITE_RANK {
        (INFINITE_RANK - 1) as i128
    } else if n < i128::MIN {
        i128::MIN
    } else {
        n as i128
    }
}

/// A value times the weight, as a rank.
pub open spec fn weighted(weight: i128, h: int) -> i128 {
    finite_rank(weight * h)
}

/// The committed cost plus a weighted value, in billionths.
pub open spec fn ranked(g: usize, part: i128) -> i128 {
    finite_rank(WEIGHT_ONE * g + part)
}

/// The committed cost plus the weighted estimate, in billionths.
pub open spec fn total_rank(g: usize, weight: i128, h: nat) -> i128 {
    ranked(g, weighted(weight, h as int))
}

/// The ranks of an estimate: with the committed cost, and alone.
pub open spec fn estimate_ranks(g: usize, weight: i128, h: nat) -> (i128, i128) {
    (total_rank(g, weight, h), weighted(weight, h as int))
}

/// The ranks of an additive cost estimate.
pub open spec fn additive_ranks(g: usize, weight: i128, cost: u128) -> (i128, i128) {
    if cost == UNREACHABLE {
        (INFINITE_RANK, INFINITE_RANK)
    } else {
        (total_rank(g, weight, cost as nat), finite_rank(cost as int))
    }
}

/// The same rank twice, infinite at the top value.
pub open spec fn plain_ranks(value: u128, top: u128) -> (i128, i128) {
    if value == top {
        (INFINITE_RANK, INFINITE_RANK)
    } else {
        (finite_rank(value as int), finite_rank(value as int))
    }
}

pub open spec fn twice(n: int) -> (i128, i128) {
    (n as i128, n as i128)
}

/// The ranks of the plan under the term: the first with the committed cost where
/// the term counts it, the second without.
pub open spec fn is_term_rank(pl: &Planner, weight: i128, p: PlanView, id: usize, term: HVal, r: (i128, i128)) -> bool {
    let t = pl.t();
    let g = p.cost;
    match term {
        HVal::Lifo => r == twice(-(id as int)),
        HVal::Fifo => r == twice(id as int),
        HVal::Oc => r == twice(p.opens.len() as int),
        HVal::Uc => r == twice(p.threats(t).len() as int),
        HVal::Buc => r == twice(
            if p.threats(t).len() > 0 {
                1
            } else {
                0
            },
        ),
        HVal::SPlusOc => r == estimate_ranks(g, weight, p.opens.len()),
        HVal::Ucpop => r == estimate_ranks(g, weight, p.opens.len() + p.threats(t).len()),
        HVal::Add => r == additive_ranks(g, weight, open_cost(t, pl.model(), p, false)),
        HVal::Addr => r == additive_ranks(g, weight, open_cost(t, pl.model(), p, true)),
        HVal::AddCost => r == plain_ranks(open_cost(t, pl.model(), p, false), UNREACHABLE),
        HVal::AddrCost => r == plain_ranks(open_cost(t, pl.model(), p, true), UNREACHABLE),
        HVal::AddWork => r == plain_ranks(open_work(t, p, false), ENDLESS),
        HVal::AddrWork => r == plain_ranks(open_work(t, p, true), ENDLESS),
        HVal::Relax => is_relax_rank(pl, weight, p, false, r),
        HVal::RelaxR => is_relax_rank(pl, weight, p, true, r),
        HVal::LmCut => is_lmcut_rank(pl, weight, p, false, r),
        HVal::LmCutR => is_lmcut_rank(pl, weight, p, true, r),
        _ => false,
    }
}

/// The ranks of the cost of a relaxed plan, infinite if there is none.
pub open spec fn is_relax_rank(pl: &Planner, weight: i128, p: PlanView, reuse: bool, r: (i128, i128)) -> bool {
    let goals = open_facts(p);
    let means = pl.means(reused(pl.t(), p, reuse));
    if r == (INFINITE_RANK, INFINITE_RANK) {
        exists|achieved: Seq<Fact>|
            #![trigger all_needed(goals, means, achieved)]
            all_needed(goals, means, achieved) && achieved.len() > 0 && means(achieved.last()) is Nothing
    } else {
        exists|achieved: Seq<Fact>, ops: Seq<usize>| #[trigger]
            is_relaxed_plan(goals, means, achieved, ops) && r == estimate_ranks(
                p.cost,
                weight,
                operators_cost(pl.t(), pl.model(), ops),
            )
    }
}

/// The ranks of an LM-cut estimate, infinite if there is none.
pub open spec fn is_lmcut_rank(pl: &Planner, weight: i128, p: PlanView, reuse: bool, r: (i128, i128)) -> bool {
    pl.lm() matches Ok(lm) && exists|h: Option<u32>| #[trigger]
        is_lmcut_estimate(lm, pl.t(), p, reuse, h) && r == (match h {
            Some(v) => estimate_ranks(p.cost, weight, v as nat),
            None => (INFINITE_RANK, INFINITE_RANK),
        })
}

/// Whether the term is defined for finite-domain plans of the task.
pub open spec fn term_supported(pl: &Planner, term: HVal) -> bool {
    match term {
        HVal::SampleFf(_) | HVal::Lplan | HVal::Compile(_) => false,
        HVal::LmCut | HVal::LmCutR => pl.lm() is Ok,
        _ => true,
    }
}

pub open spec fn terms_supported(pl: &Planner, terms: Seq<HVal>) -> bool {
    forall|i: int| 0 <= i < terms.len() ==> term_supported(pl, #[trigger] terms[i])
}

/// The two ranks of the plan: by total cost, and greedy. The greedy one ends
/// with the number of open conditions and prefers the newest plan.
pub open spec fn are_ranks(pl: &Planner, weight: i128, terms: Seq<HVal>, p: PlanView, id: usize, rank: Seq<i128>, greedy: Seq<i128>) -> bool {
    &&& rank.len() == terms.len()
    &&& greedy.len() == terms.len() + 2
    &&& forall|k: int| 0 <= k < terms.len() ==> is_term_rank(pl, weight, p, id, #[trigger] terms[k], (rank[k], greedy[k]))
    &&& greedy[terms.len() as int] == p.opens.len()
    &&& greedy[terms.len() as int + 1] == -(id as int)
}

/// An infinite rank does not depend on the plan's number, and both ranks are infinite.
pub proof fn lemma_infinite(pl: &Planner, weight: i128, p: PlanView, id: usize, term: HVal, r: (i128, i128))
    requires
        is_term_rank(pl, weight, p, id, term, r),
        r.0 == INFINITE_RANK || r.1 == INFINITE_RANK,
        p.opens.len() <= usize::MAX,
        p.threats(pl.t()).len() <= usize::MAX,
    ensures
        is_term_rank(pl, weight, p, 0, term, (INFINITE_RANK, INFINITE_RANK)),
{
    assert(r == (INFINITE_RANK, INFINITE_RANK)) by {
        match term {
            HVal::Relax => {
                if r != (INFINITE_RANK, INFINITE_RANK) {
                    assert(is_relax_rank(pl, weight, p, false, r));
                }
            },
            HVal::RelaxR => {
                if r != (INFINITE_RANK, INFINITE_RANK) {
                    assert(is_relax_rank(pl, weight, p, true, r));
                }
            },
            HVal::LmCut => {
                assert(is_lmcut_rank(pl, weight, p, false, r));
            },
            HVal::LmCutR => {
                assert(is_lmcut_rank(pl, weight, p, true, r));
            },
            _ => {},
        }
    }
}

pub(crate) fn as_finite(n: u128) -> (res: i128)
    ensures
        res == finite_rank(n as int),
        0 <= res < INFINITE_RANK,
{
    if n >= 0x7fff_ffff_ffff_ffff_ffff_ffff_ffff_ffff {
        INFINITE_RANK - 1
    } else {
        n as i128
    }
}

/// A product, or its negation, as a rank.
fn product_rank(negative: bool, a: u128, b: u128) -> (res: i128)
    ensures
        res == finite_rank(
            if negative {
                -(a * b)
            } else {
                a * b
            },
        ),
{
    let product: Option<u128> = a.checked_mul(b);
    match product {
        Some(x) => if !negative {
            as_finite(x)
        } else if x >= 0x8000_0000_0000_0000_0000_0000_0000_0000 {
            i128::MIN
        } else {
            -(x as i128)
        },
        None => if negative {
            i128::MIN
        } else {
            INFINITE_RANK - 1
        },
    }
}

/// See [`weighted`].
pub(crate) fn weigh(weight: i128, h: u128) -> (res: i128)
    ensures
        res == weighted(weight, h as int),
{
    let size = magnitude(weight);
    assert(weight * h == (if weight < 0 {
        -(size * h)
    } else {
        size * h
    })) by (nonlinear_arith)
        requires
            size == magnitude_of(weight as int),
    ;
    product_rank(weight < 0, size, h)
}

/// See [`weighted`].
pub(crate) fn weigh_signed(weight: i128, h: i128) -> (res: i128)
    ensures
        res == weighted(weight, h as int),
{
    let size = magnitude(weight);
    let value = magnitude(h);
    assert(weight * h == (if (weight < 0) != (h < 0) {
        -(size * value)
    } else {
        size * value
    })) by (nonlinear_arith)
        requires
            size == magnitude_of(weight as int),
            value == magnitude_of(h as int),
    ;
    product_rank((weight < 0) != (h < 0), size, value)
}

/// See [`ranked`].
pub(crate) fn rank_with(g: usize, part: i128) -> (res: i128)
    ensures
        res == ranked(g, part),
{
    let committed: i128 = 1_000_000_000i128 * g as i128;
    let sum: Option<i128> = part.checked_add(committed);
    match sum {
        Some(x) => if x == INFINITE_RANK {
            INFINITE_RANK - 1
        } else {
            x
        },
        None => INFINITE_RANK - 1,
    }
}

/// See [`estimate_ranks`].
pub(crate) fn ranks_of_estimate(g: usize, weight: i128, h: u128) -> (res: (i128, i128))
    ensures
        res == estimate_ranks(g, weight, h as nat),
{
    let part = weigh(weight, h);
    (rank_with(g, part), part)
}

/// The ranks of an additive estimate under the term.
fn push_add_rank(term: HVal, estimate: AddEstimate, g: usize, weight: i128) -> (res: (i128, i128))
    requires
        term == HVal::Add || term == HVal::Addr || term == HVal::AddCost || term == HVal::AddrCost || term == HVal::AddWork || term
            == HVal::AddrWork,
    ensures
        res == (match term {
            HVal::Add | HVal::Addr => additive_ranks(g, weight, estimate.cost),
            HVal::AddCost | HVal::AddrCost => plain_ranks(estimate.cost, UNREACHABLE),
            _ => plain_ranks(estimate.work, ENDLESS),
        }),
{
    match term {
        HVal::Add | HVal::Addr => {
            if estimate.cost == UNREACHABLE {
                (INFINITE_RANK, INFINITE_RANK)
            } else {
                let (total, _) = ranks_of_estimate(g, weight, estimate.cost);
                (total, as_finite(estimate.cost))
            }
        },
        HVal::AddCost | HVal::AddrCost => {
            if estimate.cost == UNREACHABLE {
                (INFINITE_RANK, INFINITE_RANK)
            } else {
                (as_finite(estimate.cost), as_finite(estimate.cost))
            }
        },
        _ => {
            if estimate.work == ENDLESS {
                (INFINITE_RANK, INFINITE_RANK)
            } else {
                (as_finite(estimate.work), as_finite(estimate.work))
            }
        },
    }
}

/// What the search counted.
#[derive(Debug, Clone, Copy, PartialEq, Eq, Structural)]
pub struct SearchStats {
    pub nodes_generated: usize,
    pub nodes_visited: usize,
    pub h_evals: usize,
    pub h_eval_ms: u128,
    pub pruned: usize,
    pub max_steps: usize,
    pub max_open_conditions: usize,
    pub max_threats: usize,
    pub h_eval_nanos: u128,
}

impl SearchStats {
    pub fn new() -> (res: Self)
        ensures
            res.nodes_generated == 0,
            res.nodes_visited == 0,
            res.h_evals == 0,
            res.pruned == 0,
            res.max_steps == 0,
            res.max_open_conditions == 0,
            res.max_threats == 0,
    {
        SearchStats {
            nodes_generated: 0,
            nodes_visited: 0,
            h_evals: 0,
            h_eval_ms: 0,
            pruned: 0,
            max_steps: 0,
            max_open_conditions: 0,
            max_threats: 0,
            h_eval_nanos: 0,
        }
    }
}

/// The plan's steps and open conditions speak of the task.
pub proof fn lemma_plan_in(t: crate::fdr::TaskView, p: PlanView)
    requires
        p.wf(t),
    ensures
        plan_in(t, p),
{
    assert forall|k: int| 0 <= k < p.opens.len() implies fact_in(t.variables, (#[trigger] p.opens[k]).condition) by {
        assert(p.open_in(t, p.opens[k]));
    }
}

impl<'a> Planner<'a> {
    /// The ranks of the plan under one term.
    fn term_rank(&self, plan: &PartialPlan, weight: i128, term: HVal) -> (res: (i128, i128))
        requires
            self.wf(),
            plan.wf(self.t()),
            term_supported(self, term),
        ensures
            is_term_rank(self, weight, plan@, plan.id, term, res),
    {
        let ghost t = self.t();
        let ghost p = plan@;
        proof {
            lemma_plan_in(t, p);
            crate::fdr_plan::lemma_threats(p, t, plan.threats@);
        }
        let g = plan.cost;
        let opens = plan.open_conditions.len();
        let threats = plan.threats.len();
        match term {
            HVal::Lifo => (-(plan.id as i128), -(plan.id as i128)),
            HVal::Fifo => (plan.id as i128, plan.id as i128),
            HVal::Oc => (opens as i128, opens as i128),
            HVal::Uc => (threats as i128, threats as i128),
            HVal::Buc => {
                let value: i128 = if threats > 0 {
                    1
                } else {
                    0
                };
                (value, value)
            },
            HVal::SPlusOc => ranks_of_estimate(g, weight, opens as u128),
            HVal::Ucpop => ranks_of_estimate(g, weight, opens as u128 + threats as u128),
            HVal::Add | HVal::AddCost | HVal::AddWork => push_add_rank(term, self.open_estimate(plan, false), g, weight),
            HVal::Addr | HVal::AddrCost | HVal::AddrWork => push_add_rank(term, self.open_estimate(plan, true), g, weight),
            HVal::Relax | HVal::RelaxR => {
                let reuse = term == HVal::RelaxR;
                match self.relaxed_plan_size(plan, reuse) {
                    Some(h) => {
                        let r = ranks_of_estimate(g, weight, h);
                        assert(is_relax_rank(self, weight, p, reuse, r));
                        r
                    },
                    None => {
                        let r = (INFINITE_RANK, INFINITE_RANK);
                        assert(is_relax_rank(self, weight, p, reuse, r));
                        r
                    },
                }
            },
            HVal::LmCut | HVal::LmCutR => {
                let reuse = term == HVal::LmCutR;
                let estimate = self.lmcut_estimate(plan, reuse);
                let r = match estimate {
                    Some(h) => ranks_of_estimate(g, weight, h as u128),
                    None => (INFINITE_RANK, INFINITE_RANK),
                };
                assert(is_lmcut_estimate(self.lm()->Ok_0, t, p, reuse, estimate));
                assert(is_lmcut_rank(self, weight, p, reuse, r));
                r
            },
            HVal::SampleFf(_) | HVal::Lplan | HVal::Compile(_) => (0, 0),
        }
    }

    /// The two ranks of the plan.
    pub fn compute_rank_both(&self, plan: &PartialPlan, weight: i128, terms: &Vec<HVal>) -> (res: (Vec<i128>, Vec<i128>))
        requires
            self.wf(),
            plan.wf(self.t()),
            terms_supported(self, terms@),
        ensures
            are_ranks(self, weight, terms@, plan@, plan.id, res.0@, res.1@),
    {
        let mut rank: Vec<i128> = Vec::new();
        let mut greedy: Vec<i128> = Vec::new();
        let mut k: usize = 0;
        while k < terms.len()
            invariant
                self.wf(),
                plan.wf(self.t()),
                terms_supported(self, terms@),
                k <= terms@.len(),
                rank@.len() == k,
                greedy@.len() == k,
                forall|j: int| 0 <= j < k ==> is_term_rank(self, weight, plan@, plan.id, #[trigger] terms@[j], (rank@[j], greedy@[j])),
            decreases terms@.len() - k,
        {
            assert(term_supported(self, terms@[k as int]));
            let (a, b) = self.term_rank(plan, weight, terms[k]);
            rank.push(a);
            greedy.push(b);
            k = k + 1;
        }
        greedy.push(plan.open_conditions.len() as i128);
        greedy.push(-(plan.id as i128));
        (rank, greedy)
    }

    /// The two ranks of the plan; the evaluation is counted and timed.
    pub fn rank_both(&self, plan: &PartialPlan, weight: i128, terms: &Vec<HVal>, stats: &mut SearchStats) -> (res: (Vec<i128>, Vec<i128>))
        requires
            self.wf(),
            plan.wf(self.t()),
            terms_supported(self, terms@),
        ensures
            are_ranks(self, weight, terms@, plan@, plan.id, res.0@, res.1@),
            final(stats).h_evals == (if old(stats).h_evals == usize::MAX {
                usize::MAX
            } else {
                (old(stats).h_evals + 1) as usize
            }),
            final(stats).nodes_generated == old(stats).nodes_generated,
            final(stats).nodes_visited == old(stats).nodes_visited,
            final(stats).pruned == old(stats).pruned,
            final(stats).max_steps == old(stats).max_steps,
            final(stats).max_open_conditions == old(stats).max_open_conditions,
            final(stats).max_threats == old(stats).max_threats,
            final(stats).h_eval_ms == final(stats).h_eval_nanos / 1_000_000,
    {
        let start = Instant::now();
        let res = self.compute_rank_both(plan, weight, terms);
        stats.h_evals = stats.h_evals.saturating_add(1);
        stats.h_eval_nanos = stats.h_eval_nanos.saturating_add(nanos_since(&start));
        stats.h_eval_ms = stats.h_eval_nanos / 1_000_000;
        res
    }
}

} // verus!
