//! Which flaw of a finite-domain plan comes first.
use vstd::prelude::*;

use crate::fdr::{fact_in, facts_in, Fact, TaskView};
use crate::fdr_completeness::is_regular;
use crate::fdr_plan::{PlanView, Threat};
use crate::fdr_refine::{
    admits_open, admits_threat, alternatives, as_refinements, candidates_of, confrontations, flaw_children, flaw_estimate, open_candidates,
    open_count, prefers, refinements_are_counted, reusable, selects, selects_at, threat_candidates, threat_children, threat_count,
    value_confrontations, FlawCandidate, SelectedFlaw,
};
use crate::fdr_estimates::achievers_of;
use crate::fdr_soundness::plans_list_their_threats;
use crate::heuristics::{OrderType, SelectionCriterion};
use crate::params::ActionCost;

verus! {

proof fn lemma_value_count(p: PlanView, step: usize, fact: Fact, n: nat, list: Seq<PlanView>)
    ensures
        value_confrontations(p, step, fact, n, list).len() == list.len() + n - (if fact.value < n {
            1int
        } else {
            0int
        }),
    decreases n,
{
    if n > 0 {
        lemma_value_count(p, step, fact, (n - 1) as nat, list);
    }
}

proof fn lemma_confrontation_count(t: TaskView, p: PlanView, step: usize, conditions: Seq<Fact>, n: nat)
    requires
        n <= conditions.len(),
        facts_in(t.variables, conditions),
    ensures
        confrontations(t, p, step, conditions, n).len() == alternatives(t, conditions, n),
    decreases n,
{
    if n > 0 {
        lemma_confrontation_count(t, p, step, conditions, (n - 1) as nat);
        assert(fact_in(t.variables, conditions[n - 1]));
        lemma_value_count(
            p,
            step,
            conditions[n - 1],
            t.variables[conditions[n - 1].variable as int].values.len(),
            confrontations(t, p, step, conditions, (n - 1) as nat),
        );
    }
}

/// The count of the ways to resolve a threat is the number of its children.
pub proof fn threat_refinements_are_counted(t: TaskView, p: PlanView, threat: Threat)
    requires
        t.wf(),
        p.wf(t),
        p.threatens(t, threat),
    ensures
        threat_children(t, p, threat).len() == threat_count(t, p, threat),
{
    let s = threat.step as int;
    let op = t.operators[p.steps[s - 1].operator as int];
    let e = op.effects[threat.effect as int];
    assert(p.steps[s - 1].operator < t.operators.len());
    assert(crate::fdr::operator_in(t.variables, op));
    assert(crate::fdr::effect_in(t.variables, e));
    lemma_confrontation_count(t, p, threat.step, e.conditions, e.conditions.len());
}

/// Whether a criterion admits a flaw of a plan: it speaks of it, and there are no more ways
/// to resolve it than the criterion allows.
pub open spec fn admits_flaw(t: TaskView, cost: ActionCost, p: PlanView, c: SelectionCriterion, flaw: SelectedFlaw) -> bool {
    &&& as_refinements(flaw_children(t, cost, p, flaw).len()) <= c.max_refinements
    &&& match flaw {
        SelectedFlaw::Threat(threat) => p.threatens(t, threat) && admits_threat(t, p, c, threat),
        SelectedFlaw::Open(at) => at < p.opens.len() && admits_open(t, p, c, p.opens[at as int]),
    }
}

/// Whether a flaw is listed behind another of its kind.
pub open spec fn is_later(t: TaskView, p: PlanView, a: SelectedFlaw, b: SelectedFlaw) -> bool {
    match (a, b) {
        (SelectedFlaw::Open(i), SelectedFlaw::Open(j)) => i > j,
        (SelectedFlaw::Threat(x), SelectedFlaw::Threat(y)) => crate::fdr_plan::threat_less(y, x),
        _ => false,
    }
}

/// What a criterion estimates a flaw at: an open condition at its fact, a threat at
/// nothing.
pub open spec fn estimate_of(t: TaskView, cost: ActionCost, p: PlanView, c: SelectionCriterion, flaw: SelectedFlaw) -> u128 {
    match flaw {
        SelectedFlaw::Threat(_) => 0,
        SelectedFlaw::Open(at) => flaw_estimate(t, cost, p, c, p.opens[at as int].condition),
    }
}

/// Whether the order of a criterion lets flaw `a` come before flaw `b`.
pub open spec fn may_come_first(t: TaskView, cost: ActionCost, p: PlanView, c: SelectionCriterion, a: SelectedFlaw, b: SelectedFlaw) -> bool {
    let m = as_refinements(flaw_children(t, cost, p, a).len());
    let n = as_refinements(flaw_children(t, cost, p, b).len());
    match c.order {
        OrderType::Lifo => (b is Threat ==> a is Threat) && !is_later(t, p, b, a),
        OrderType::Fifo => (b is Open ==> a is Open) && !is_later(t, p, a, b),
        OrderType::Lr => m <= n,
        OrderType::Mr => m >= n,
        OrderType::Lc | OrderType::Lw => estimate_of(t, cost, p, c, a) <= estimate_of(t, cost, p, c, b),
        OrderType::Mc | OrderType::Mw => estimate_of(t, cost, p, c, a) >= estimate_of(t, cost, p, c, b),
        _ => true,
    }
}

/// The entry of a threat among the candidates.
spec fn threat_entry(t: TaskView, p: PlanView, threats: Seq<Threat>, m: int) -> FlawCandidate {
    FlawCandidate {
        flaw: SelectedFlaw::Threat(threats[m]),
        is_threat: true,
        refinements: as_refinements(threat_count(t, p, threats[m])),
        recency: m as usize,
        has_new: false,
        has_reuse: false,
        estimate: 0,
    }
}

/// The entry of an open condition among the candidates.
spec fn open_entry(t: TaskView, cost: ActionCost, p: PlanView, c: SelectionCriterion, m: int) -> FlawCandidate {
    let open = p.opens[m];
    FlawCandidate {
        flaw: SelectedFlaw::Open(m as usize),
        is_threat: false,
        refinements: as_refinements(open_count(t, p, open)),
        recency: m as usize,
        has_new: t.derived(open.condition.variable as int) || achievers_of(t, open.condition).len() > 0,
        has_reuse: reusable(t, p, open),
        estimate: flaw_estimate(t, cost, p, c, open.condition),
    }
}

/// Whether an entry is that of one of the first `n` threats, or one of the first `k` open
/// conditions, that the criterion admits.
spec fn is_entry(t: TaskView, cost: ActionCost, p: PlanView, c: SelectionCriterion, threats: Seq<Threat>, n: nat, k: nat, x: FlawCandidate) -> bool {
    ||| exists|m: int|
        0 <= m < n && admits_threat(t, p, c, threats[m]) && as_refinements(threat_count(t, p, threats[m])) <= c.max_refinements && x
            == #[trigger] threat_entry(t, p, threats, m)
    ||| exists|m: int|
        0 <= m < k && admits_open(t, p, c, p.opens[m]) && as_refinements(open_count(t, p, p.opens[m])) <= c.max_refinements && x
            == #[trigger] open_entry(t, cost, p, c, m)
}

proof fn lemma_threat_entries(t: TaskView, cost: ActionCost, p: PlanView, c: SelectionCriterion, threats: Seq<Threat>, n: nat)
    requires
        n <= threats.len(),
    ensures
        forall|x: FlawCandidate| #[trigger]
            threat_candidates(t, p, c, threats, n).contains(x) <==> is_entry(t, cost, p, c, threats, n, 0, x),
    decreases n,
{
    if n > 0 {
        lemma_threat_entries(t, cost, p, c, threats, (n - 1) as nat);
        let before = threat_candidates(t, p, c, threats, (n - 1) as nat);
        let all = threat_candidates(t, p, c, threats, n);
        let y = threat_entry(t, p, threats, n - 1);
        assert forall|x: FlawCandidate| #[trigger] all.contains(x) <==> is_entry(t, cost, p, c, threats, n, 0, x) by {
            if all.contains(x) {
                let i = choose|i: int| 0 <= i < all.len() && all[i] == x;
                if i < before.len() {
                    assert(before[i] == x);
                    assert(before.contains(x));
                } else {
                    assert(x == y);
                }
            }
            if is_entry(t, cost, p, c, threats, n, 0, x) {
                let m = choose|m: int|
                    0 <= m < n && admits_threat(t, p, c, threats[m]) && as_refinements(threat_count(t, p, threats[m])) <= c.max_refinements && x
                        == #[trigger] threat_entry(t, p, threats, m);
                if m < n - 1 {
                    assert(before.contains(x));
                    let i = choose|i: int| 0 <= i < before.len() && before[i] == x;
                    assert(all[i] == x);
                } else {
                    assert(all[before.len() as int] == x);
                }
            }
        }
    }
}

proof fn lemma_open_entries(t: TaskView, cost: ActionCost, p: PlanView, c: SelectionCriterion, threats: Seq<Threat>, k: nat)
    requires
        k <= p.opens.len(),
    ensures
        forall|x: FlawCandidate| #[trigger]
            open_candidates(t, cost, p, c, k, threat_candidates(t, p, c, threats, threats.len())).contains(x) <==> is_entry(
                t,
                cost,
                p,
                c,
                threats,
                threats.len(),
                k,
                x,
            ),
    decreases k,
{
    let list = threat_candidates(t, p, c, threats, threats.len());
    if k == 0 {
        lemma_threat_entries(t, cost, p, c, threats, threats.len());
    } else {
        lemma_open_entries(t, cost, p, c, threats, (k - 1) as nat);
        let before = open_candidates(t, cost, p, c, (k - 1) as nat, list);
        let all = open_candidates(t, cost, p, c, k, list);
        let y = open_entry(t, cost, p, c, k - 1);
        assert forall|x: FlawCandidate| #[trigger] all.contains(x) <==> is_entry(t, cost, p, c, threats, threats.len(), k, x) by {
            if all.contains(x) {
                let i = choose|i: int| 0 <= i < all.len() && all[i] == x;
                if i < before.len() {
                    assert(before[i] == x);
                    assert(before.contains(x));
                } else {
                    assert(x == y);
                }
            }
            if before.contains(x) {
                let i = choose|i: int| 0 <= i < before.len() && before[i] == x;
                assert(all[i] == x);
            }
            if is_entry(t, cost, p, c, threats, threats.len(), k, x) && !before.contains(x) {
                assert(!is_entry(t, cost, p, c, threats, threats.len(), (k - 1) as nat, x));
                assert(all[before.len() as int] == x);
            }
        }
    }
}

/// A flaw that a criterion admits has an entry among its candidates.
proof fn lemma_has_entry(t: TaskView, layer: spec_fn(int) -> nat, cost: ActionCost, p: PlanView, c: SelectionCriterion, flaw: SelectedFlaw) -> (m: int)
    requires
        is_regular(t, layer),
        p.wf(t),
        p.links.len() <= usize::MAX,
        p.steps.len() < usize::MAX / 4,
        admits_flaw(t, cost, p, c, flaw),
    ensures
        match flaw {
            SelectedFlaw::Threat(threat) => 0 <= m < p.threats(t).len() && p.threats(t)[m] == threat && candidates_of(t, cost, p, c).contains(
                threat_entry(t, p, p.threats(t), m),
            ),
            SelectedFlaw::Open(at) => m == at && candidates_of(t, cost, p, c).contains(open_entry(t, cost, p, c, m)),
        },
{
    let threats = p.threats(t);
    plans_list_their_threats(t, layer, p);
    lemma_open_entries(t, cost, p, c, threats, p.opens.len());
    match flaw {
        SelectedFlaw::Threat(threat) => {
            assert(threats.contains(threat));
            threat_refinements_are_counted(t, p, threat);
            let m = choose|m: int| 0 <= m < threats.len() && threats[m] == threat;
            assert(is_entry(t, cost, p, c, threats, threats.len(), p.opens.len(), threat_entry(t, p, threats, m)));
            m
        },
        SelectedFlaw::Open(at) => {
            refinements_are_counted(t, cost, p, at as int);
            assert(is_entry(t, cost, p, c, threats, threats.len(), p.opens.len(), open_entry(t, cost, p, c, at as int)));
            at as int
        },
    }
}

/// The flaw that a list of criteria selects is one that a criterion admits, while those
/// before it admit none; and no flaw that the criterion admits comes before it in the
/// criterion's order: under least refinements none has fewer ways to be resolved, under
/// least cost or work none is estimated at less, and so on.
pub proof fn selection_follows_its_criteria(
    t: TaskView,
    layer: spec_fn(int) -> nat,
    cost: ActionCost,
    p: PlanView,
    tiers: Seq<SelectionCriterion>,
    flaw: SelectedFlaw,
) -> (k: int)
    requires
        is_regular(t, layer),
        p.wf(t),
        p.links.len() <= usize::MAX,
        p.opens.len() <= usize::MAX,
        p.threats(t).len() <= usize::MAX,
        p.steps.len() < usize::MAX / 4,
        selects(t, cost, p, tiers, flaw),
    ensures
        0 <= k < tiers.len(),
        admits_flaw(t, cost, p, tiers[k], flaw),
        forall|j: int, other: SelectedFlaw| 0 <= j < k ==> !#[trigger] admits_flaw(t, cost, p, #[trigger] tiers[j], other),
        forall|other: SelectedFlaw| #[trigger] admits_flaw(t, cost, p, tiers[k], other) ==> may_come_first(t, cost, p, tiers[k], flaw, other),
{
    let (k, i) = choose|k: int, i: int| #[trigger] selects_at(t, cost, p, tiers, k, i) && candidates_of(t, cost, p, tiers[k])[i].flaw == flaw;
    let c = tiers[k];
    let all = candidates_of(t, cost, p, c);
    let threats = p.threats(t);
    let x = all[i];
    plans_list_their_threats(t, layer, p);
    lemma_open_entries(t, cost, p, c, threats, p.opens.len());
    assert(all.contains(x));
    match flaw {
        SelectedFlaw::Threat(threat) => {
            let m = choose|m: int|
                0 <= m < threats.len() && admits_threat(t, p, c, threats[m]) && as_refinements(threat_count(t, p, threats[m])) <= c.max_refinements
                    && x == #[trigger] threat_entry(t, p, threats, m);
            assert(threats.contains(threats[m]));
            threat_refinements_are_counted(t, p, threat);
        },
        SelectedFlaw::Open(at) => {
            let m = choose|m: int|
                0 <= m < p.opens.len() && admits_open(t, p, c, p.opens[m]) && as_refinements(open_count(t, p, p.opens[m])) <= c.max_refinements && x
                    == #[trigger] open_entry(t, cost, p, c, m);
            refinements_are_counted(t, cost, p, at as int);
        },
    }
    assert(admits_flaw(t, cost, p, c, flaw));
    let mine = lemma_has_entry(t, layer, cost, p, c, flaw);
    assert forall|j: int, other: SelectedFlaw| 0 <= j < k implies !#[trigger] admits_flaw(t, cost, p, #[trigger] tiers[j], other) by {
        if admits_flaw(t, cost, p, tiers[j], other) {
            let m = lemma_has_entry(t, layer, cost, p, tiers[j], other);
            assert(candidates_of(t, cost, p, tiers[j]).len() == 0);
        }
    }
    assert forall|other: SelectedFlaw| #[trigger] admits_flaw(t, cost, p, c, other) implies may_come_first(t, cost, p, c, flaw, other) by {
        let m = lemma_has_entry(t, layer, cost, p, c, other);
        let y = match other {
            SelectedFlaw::Threat(_) => threat_entry(t, p, threats, m),
            SelectedFlaw::Open(_) => open_entry(t, cost, p, c, m),
        };
        assert(all.contains(y));
        let j = choose|j: int| 0 <= j < all.len() && all[j] == y;
        assert(!prefers(c.order, all[j], all[i]));
        match other {
            SelectedFlaw::Threat(threat) => threat_refinements_are_counted(t, p, threat),
            SelectedFlaw::Open(at) => refinements_are_counted(t, cost, p, at as int),
        }
        match (flaw, other) {
            (SelectedFlaw::Threat(a), SelectedFlaw::Threat(b)) => {
                let n = choose|n: int|
                    0 <= n < threats.len() && admits_threat(t, p, c, threats[n]) && as_refinements(threat_count(t, p, threats[n]))
                        <= c.max_refinements && x == #[trigger] threat_entry(t, p, threats, n);
                assert(threats[n] == a && threats[m] == b);
                if n < m {
                    assert(crate::fdr_plan::threat_less(threats[n], threats[m]));
                } else if m < n {
                    assert(crate::fdr_plan::threat_less(threats[m], threats[n]));
                }
            },
            (SelectedFlaw::Open(a), SelectedFlaw::Open(b)) => {
                let n = choose|n: int|
                    0 <= n < p.opens.len() && admits_open(t, p, c, p.opens[n]) && as_refinements(open_count(t, p, p.opens[n])) <= c.max_refinements
                        && x == #[trigger] open_entry(t, cost, p, c, n);
                assert(n == a && m == b);
            },
            _ => {},
        }
    }
    k
}

} // verus!
