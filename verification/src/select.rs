//! Flaw selection: which flaw of a plan is refined next.
use std::rc::Rc;

use vstd::prelude::*;

use crate::chain::{elements, Chain};
use crate::flaws::{open_views, unsafe_views, Flaw, FlawView, OpenCondition, OpenView, Unsafe, UnsafeView};
use crate::graph_model::GraphView;
use crate::graph_plan::{formula_value, plan_opens, value_at};
use crate::heuristics::{
    any_estimates, complete, suited, uncapped, FlawKind, FlawSelectionOrder, OrderType, SelectionCriterion,
};
use crate::hvalue::HeuristicValue;
use crate::plan::Plan;
use crate::plan_counts::{
    addable_count, demotions, is_cached, is_endangered, lemma_unsafe_count, open_count, promotions, reusable_count, separations, unsafe_count,
};
use crate::plan_model::PlanView;
use crate::planning_graph::PlanningGraph;
use crate::search::{ContextView, SearchContext};
use crate::typing::TypeContext;

verus! {

/// The flaw picked so far: by which criterion, at which rank, and the end of the
/// criteria that can still pick another.
pub struct Pick {
    pub flaw: Option<FlawView>,
    pub criterion: int,
    pub rank: int,
    pub end: int,
}

/// What a flaw is ranked by.
pub struct Merit {
    /// The number of plans that resolve it.
    pub count: int,
    /// The count above which there is none.
    pub most: int,
    /// Whether a new step achieves it.
    pub has_new: bool,
    /// Whether a step of the plan achieves it.
    pub has_reuse: bool,
    pub cost: int,
    pub work: int,
}

impl Pick {
    /// The flaw is picked by criterion `c`; none better can come from it if it is
    /// `last`.
    pub open spec fn takes(self, flaw: FlawView, c: int, rank: int, last: bool) -> Pick {
        Pick {
            flaw: Some(flaw),
            criterion: c,
            rank,
            end: if last {
                c
            } else {
                c + 1
            },
        }
    }

    /// The pick after a flaw that criterion `c` admits.
    pub open spec fn weighed(self, flaw: FlawView, c: int, order: OrderType, m: Merit) -> Pick {
        let first = c < self.criterion;
        match order {
            OrderType::Lifo => self.takes(flaw, c, self.rank, true),
            OrderType::Fifo => self.takes(flaw, c, self.rank, false),
            OrderType::Random => if c != self.criterion {
                self.takes(flaw, c, self.rank, false)
            } else {
                self
            },
            OrderType::Lr => if first || m.count < self.rank {
                self.takes(flaw, c, m.count, m.count == 0)
            } else {
                self
            },
            OrderType::Mr => if first || m.count > self.rank {
                self.takes(flaw, c, m.count, m.count == m.most)
            } else {
                self
            },
            OrderType::New => if first || m.has_new {
                self.takes(flaw, c, self.rank, m.has_new)
            } else {
                self
            },
            OrderType::Reuse => if first || m.has_reuse {
                self.takes(flaw, c, self.rank, m.has_reuse)
            } else {
                self
            },
            OrderType::Lc => if first || m.cost < self.rank {
                self.takes(flaw, c, m.cost, m.cost == 0)
            } else {
                self
            },
            OrderType::Mc => if first || m.cost > self.rank {
                self.takes(flaw, c, m.cost, false)
            } else {
                self
            },
            OrderType::Lw => if first || m.work < self.rank {
                self.takes(flaw, c, m.work, m.work == 0)
            } else {
                self
            },
            OrderType::Mw => if first || m.work > self.rank {
                self.takes(flaw, c, m.work, false)
            } else {
                self
            },
        }
    }
}

/// What a threat is ranked by: three plans at most resolve it.
pub open spec fn threat_merit(cv: ContextView, p: PlanView, u: UnsafeView) -> Merit {
    Merit { count: unsafe_count(cv, p, u) as int, most: 3, has_new: false, has_reuse: false, cost: 0, work: 0 }
}

/// Whether a criterion admits a threat.
pub open spec fn admits_threat(cv: ContextView, p: PlanView, u: UnsafeView, crit: SelectionCriterion) -> bool {
    &&& if separations(cv, p, u) > 0 {
        crit.separable
    } else {
        crit.non_separable
    }
    &&& unsafe_count(cv, p, u) <= crit.max_refinements
    &&& crit.order.ranks_threats()
}

/// The pick after a threat is weighed by the criteria from `c` on.
pub open spec fn threat_from(cv: ContextView, p: PlanView, tiers: Seq<SelectionCriterion>, u: UnsafeView, pick: Pick, c: int) -> Pick
    decreases tiers.len() - c,
{
    if c >= pick.end || c >= tiers.len() {
        pick
    } else {
        let next = if admits_threat(cv, p, u, tiers[c]) {
            pick.weighed(FlawView::Unsafe(u), c, tiers[c].order, threat_merit(cv, p, u))
        } else {
            pick
        };
        threat_from(cv, p, tiers, u, next, c + 1)
    }
}

/// The pick after the first `n` threats.
pub open spec fn threats_upto(cv: ContextView, p: PlanView, tiers: Seq<SelectionCriterion>, pick: Pick, n: nat) -> Pick
    decreases n,
{
    if n == 0 {
        pick
    } else {
        threat_from(cv, p, tiers, p.unsafes[n - 1], threats_upto(cv, p, tiers, pick, (n - 1) as nat), 0)
    }
}

/// What an open condition is ranked by under a criterion.
pub open spec fn open_merit(cv: ContextView, p: PlanView, g: GraphView, oc: OpenView, reuse: bool) -> Merit {
    let h = value_at(g, cv.dynamic, p.typing(cv), p, oc.condition, oc.step_id, reuse);
    Merit {
        count: open_count(cv, p, oc) as int,
        most: -1,
        has_new: oc.as_literal() is Some && addable_count(cv, p, oc) > 0,
        has_reuse: oc.as_literal() is Some && reusable_count(cv, p, oc) > 0,
        cost: h.add_cost as int,
        work: h.add_work as int,
    }
}

/// Whether a criterion is about local open conditions alone.
pub open spec fn only_local(crit: SelectionCriterion) -> bool {
    crit.local_open_cond && !crit.static_open_cond && !crit.unsafe_open_cond
}

/// Whether a criterion admits an open condition.
pub open spec fn admits_open(cv: ContextView, p: PlanView, oc: OpenView, local: bool, crit: SelectionCriterion) -> bool {
    &&& {
        ||| crit.open_cond
        ||| crit.local_open_cond && local
        ||| crit.static_open_cond && oc.has_static(cv.dynamic)
        ||| crit.unsafe_open_cond && is_endangered(cv, p, oc)
    }
    &&& open_count(cv, p, oc) <= crit.max_refinements
}

/// The pick after criterion `c` has weighed an open condition. One about local
/// conditions alone that ends the list is done at the first that is not local.
pub open spec fn open_step(
    cv: ContextView,
    p: PlanView,
    g: GraphView,
    tiers: Seq<SelectionCriterion>,
    oc: OpenView,
    local: bool,
    pick: Pick,
    c: int,
) -> Pick {
    let crit = tiers[c];
    if only_local(crit) && !local {
        if c + 1 == pick.end {
            Pick { end: c, ..pick }
        } else {
            pick
        }
    } else if admits_open(cv, p, oc, local, crit) {
        pick.weighed(FlawView::OpenCondition(oc), c, crit.order, open_merit(cv, p, g, oc, crit.reuse))
    } else {
        pick
    }
}

/// The pick after an open condition is weighed by the criteria from `c` on.
pub open spec fn open_from(
    cv: ContextView,
    p: PlanView,
    g: GraphView,
    tiers: Seq<SelectionCriterion>,
    oc: OpenView,
    local: bool,
    pick: Pick,
    c: int,
) -> Pick
    decreases tiers.len() - c,
{
    if c >= pick.end || c >= tiers.len() {
        pick
    } else {
        open_from(cv, p, g, tiers, oc, local, open_step(cv, p, g, tiers, oc, local, pick, c), c + 1)
    }
}

/// The step that the first of the open conditions belong to.
pub open spec fn local_step(opens: Seq<OpenView>, n: nat) -> usize
    decreases n,
{
    if n == 0 {
        0
    } else {
        let id = local_step(opens, (n - 1) as nat);
        if id == 0 {
            opens[n - 1].step_id
        } else {
            id
        }
    }
}

/// The pick after the first `n` open conditions.
pub open spec fn opens_upto(cv: ContextView, p: PlanView, g: GraphView, tiers: Seq<SelectionCriterion>, pick: Pick, n: nat) -> Pick
    decreases n,
{
    if n == 0 {
        pick
    } else {
        let oc = p.opens[n - 1];
        open_from(
            cv,
            p,
            g,
            tiers,
            oc,
            oc.step_id == local_step(p.opens, n),
            opens_upto(cv, p, g, tiers, pick, (n - 1) as nat),
            0,
        )
    }
}

/// The end of the criteria about open conditions among the first `n`.
pub open spec fn open_end(tiers: Seq<SelectionCriterion>, n: nat) -> int
    decreases n,
{
    if n == 0 {
        0
    } else if tiers[n - 1].opens() {
        n as int
    } else {
        open_end(tiers, (n - 1) as nat)
    }
}

/// The pick before any flaw.
pub open spec fn no_pick(tiers: Seq<SelectionCriterion>) -> Pick {
    Pick { flaw: None, criterion: tiers.len() as int, rank: 0, end: tiers.len() as int }
}

/// The flaw picked from a plan: the threats are weighed first, the open
/// conditions by the criteria that are left.
pub open spec fn picked(cv: ContextView, p: PlanView, g: GraphView, tiers: Seq<SelectionCriterion>) -> Pick {
    let t = threats_upto(cv, p, tiers, no_pick(tiers), p.unsafes.len());
    let end = open_end(tiers, tiers.len());
    let start = if end < t.end {
        Pick { end, ..t }
    } else {
        t
    };
    opens_upto(cv, p, g, tiers, start, p.opens.len())
}

/// Whether a flaw is one of the plan.
pub open spec fn is_flaw_of(p: PlanView, f: FlawView) -> bool {
    match f {
        FlawView::Unsafe(u) => p.unsafes.contains(u),
        FlawView::OpenCondition(o) => p.opens.contains(o),
    }
}

/// The picked flaw, if there is one, is a flaw of the plan.
spec fn from_plan(p: PlanView, pick: Pick) -> bool {
    pick.flaw matches Some(f) ==> is_flaw_of(p, f)
}

proof fn lemma_threat_from(cv: ContextView, p: PlanView, tiers: Seq<SelectionCriterion>, u: UnsafeView, pick: Pick, c: int)
    requires
        p.unsafes.contains(u),
        from_plan(p, pick),
        0 <= c,
    ensures
        from_plan(p, threat_from(cv, p, tiers, u, pick, c)),
        pick.flaw is Some ==> threat_from(cv, p, tiers, u, pick, c).flaw is Some,
        pick.flaw is None && pick.criterion == tiers.len() && (exists|k: int|
            c <= k < pick.end && k < tiers.len() && #[trigger] admits_threat(cv, p, u, tiers[k])) ==> threat_from(cv, p, tiers, u, pick, c).flaw is Some,
    decreases tiers.len() - c,
{
    if !(c >= pick.end || c >= tiers.len()) {
        let next = if admits_threat(cv, p, u, tiers[c]) {
            pick.weighed(FlawView::Unsafe(u), c, tiers[c].order, threat_merit(cv, p, u))
        } else {
            pick
        };
        assert(from_plan(p, next));
        lemma_threat_from(cv, p, tiers, u, next, c + 1);
        if pick.flaw is None && pick.criterion == tiers.len() && exists|k: int|
            c <= k < pick.end && k < tiers.len() && #[trigger] admits_threat(cv, p, u, tiers[k]) {
            let k = choose|k: int| c <= k < pick.end && k < tiers.len() && #[trigger] admits_threat(cv, p, u, tiers[k]);
            if !admits_threat(cv, p, u, tiers[c]) {
                assert(c + 1 <= k);
            }
        }
    }
}

proof fn lemma_threats(cv: ContextView, p: PlanView, tiers: Seq<SelectionCriterion>, pick: Pick, n: nat)
    requires
        n <= p.unsafes.len(),
        from_plan(p, pick),
        pick == no_pick(tiers),
    ensures
        from_plan(p, threats_upto(cv, p, tiers, pick, n)),
        n > 0 && complete(tiers) && suited(tiers) ==> threats_upto(cv, p, tiers, pick, n).flaw is Some,
        n == 0 ==> threats_upto(cv, p, tiers, pick, n) == pick,
    decreases n,
{
    if n > 0 {
        lemma_threats(cv, p, tiers, pick, (n - 1) as nat);
        let u = p.unsafes[n - 1];
        let before = threats_upto(cv, p, tiers, pick, (n - 1) as nat);
        lemma_threat_from(cv, p, tiers, u, before, 0);
        if n == 1 && complete(tiers) && suited(tiers) {
            lemma_unsafe_count(cv, p, u);
            let kind = if separations(cv, p, u) > 0 {
                FlawKind::Separable
            } else {
                FlawKind::NonSeparable
            };
            let k = choose|k: int| 0 <= k < tiers.len() && uncapped(#[trigger] tiers[k], kind);
            assert(tiers[k].threats());
            assert(admits_threat(cv, p, u, tiers[k]));
        }
    }
}

proof fn lemma_open_from(
    cv: ContextView,
    p: PlanView,
    g: GraphView,
    tiers: Seq<SelectionCriterion>,
    oc: OpenView,
    local: bool,
    pick: Pick,
    c: int,
)
    requires
        p.opens.contains(oc),
        from_plan(p, pick),
        0 <= c,
    ensures
        from_plan(p, open_from(cv, p, g, tiers, oc, local, pick, c)),
        pick.flaw is Some ==> open_from(cv, p, g, tiers, oc, local, pick, c).flaw is Some,
        local && pick.flaw is None && pick.criterion == tiers.len() && (exists|k: int|
            c <= k < pick.end && k < tiers.len() && #[trigger] admits_open(cv, p, oc, local, tiers[k])) ==> open_from(
            cv,
            p,
            g,
            tiers,
            oc,
            local,
            pick,
            c,
        ).flaw is Some,
    decreases tiers.len() - c,
{
    if !(c >= pick.end || c >= tiers.len()) {
        let next = open_step(cv, p, g, tiers, oc, local, pick, c);
        assert(from_plan(p, next));
        lemma_open_from(cv, p, g, tiers, oc, local, next, c + 1);
        if local && pick.flaw is None && pick.criterion == tiers.len() && exists|k: int|
            c <= k < pick.end && k < tiers.len() && #[trigger] admits_open(cv, p, oc, local, tiers[k]) {
            let k = choose|k: int| c <= k < pick.end && k < tiers.len() && #[trigger] admits_open(cv, p, oc, local, tiers[k]);
            if !admits_open(cv, p, oc, local, tiers[c]) {
                assert(c + 1 <= k);
            }
        }
    }
}

proof fn lemma_open_end(tiers: Seq<SelectionCriterion>, n: nat, k: int)
    requires
        0 <= k < n <= tiers.len(),
        tiers[k].opens(),
    ensures
        k < open_end(tiers, n) <= n,
    decreases n,
{
    if !tiers[n - 1].opens() {
        lemma_open_end(tiers, (n - 1) as nat, k);
    }
}

proof fn lemma_opens(cv: ContextView, p: PlanView, g: GraphView, tiers: Seq<SelectionCriterion>, pick: Pick, n: nat)
    requires
        n <= p.opens.len(),
        from_plan(p, pick),
    ensures
        from_plan(p, opens_upto(cv, p, g, tiers, pick, n)),
        pick.flaw is Some ==> opens_upto(cv, p, g, tiers, pick, n).flaw is Some,
        n > 0 && complete(tiers) && pick.criterion == tiers.len() && pick.end == open_end(tiers, tiers.len()) ==> opens_upto(
            cv,
            p,
            g,
            tiers,
            pick,
            n,
        ).flaw is Some,
    decreases n,
{
    if n > 0 {
        lemma_opens(cv, p, g, tiers, pick, (n - 1) as nat);
        let oc = p.opens[n - 1];
        let local = oc.step_id == local_step(p.opens, n);
        let before = opens_upto(cv, p, g, tiers, pick, (n - 1) as nat);
        lemma_open_from(cv, p, g, tiers, oc, local, before, 0);
        if n == 1 && complete(tiers) && pick.criterion == tiers.len() && pick.end == open_end(tiers, tiers.len()) && pick.flaw is None {
            assert(local_step(p.opens, 0) == 0);
            assert(local);
            let k = choose|k: int| 0 <= k < tiers.len() && uncapped(#[trigger] tiers[k], FlawKind::Open);
            lemma_open_end(tiers, tiers.len(), k);
            assert(admits_open(cv, p, oc, local, tiers[k]));
        }
    }
}

/// A complete order picks a flaw of every plan that has one, and only such a flaw
/// from any plan.
pub proof fn selection_finds_a_flaw(cv: ContextView, p: PlanView, g: GraphView, tiers: Seq<SelectionCriterion>)
    requires
        complete(tiers),
        suited(tiers),
    ensures
        !p.is_complete() ==> picked(cv, p, g, tiers).flaw is Some,
        picked(cv, p, g, tiers).flaw matches Some(f) ==> is_flaw_of(p, f),
{
    let t = threats_upto(cv, p, tiers, no_pick(tiers), p.unsafes.len());
    lemma_threats(cv, p, tiers, no_pick(tiers), p.unsafes.len());
    let end = open_end(tiers, tiers.len());
    let k = choose|k: int| 0 <= k < tiers.len() && uncapped(#[trigger] tiers[k], FlawKind::Open);
    lemma_open_end(tiers, tiers.len(), k);
    let start = if end < t.end {
        Pick { end, ..t }
    } else {
        t
    };
    lemma_opens(cv, p, g, tiers, start, p.opens.len());
}

/// The flaw selected so far.
struct FlawSelection {
    flaw: Option<Flaw>,
    /// The criterion that selected `flaw`: the number of criteria if none has.
    criterion: usize,
    /// Rank of the selected flaw (for ranking criteria).
    rank: u128,
    /// The end of the criteria that can still select.
    end: usize,
}

impl FlawSelection {
    spec fn is(&self, pick: Pick) -> bool {
        &&& match pick.flaw {
            Some(f) => self.flaw matches Some(x) && x@ == f,
            None => self.flaw is None,
        }
        &&& self.criterion == pick.criterion
        &&& self.rank == pick.rank
        &&& self.end == pick.end
    }

    /// Selects a flaw by criterion `c`.
    fn take(&mut self, flaw: Flaw, c: usize, rank: u128, last: bool, pick: Ghost<Pick>)
        requires
            c < usize::MAX,
        ensures
            final(self).is(pick@.takes(flaw@, c as int, rank as int, last)),
    {
        self.flaw = Some(flaw);
        self.criterion = c;
        self.rank = rank;
        self.end = if last {
            c
        } else {
            c + 1
        };
    }

    /// Weighs a flaw that criterion `c` admits. `value` is what the order ranks
    /// by, `best` that none is better, and `has` whether there is the achiever
    /// that it prefers.
    fn weigh(&mut self, flaw: Flaw, c: usize, order: OrderType, value: u128, best: bool, has: bool, pick: Ghost<Pick>, m: Ghost<Merit>)
        requires
            c < usize::MAX,
            old(self).is(pick@),
            is_value(order, m@, value, best, has),
        ensures
            final(self).is(pick@.weighed(flaw@, c as int, order, m@)),
    {
        let first = c < self.criterion;
        let rank = self.rank;
        match order {
            OrderType::Lifo => self.take(flaw, c, rank, true, pick),
            OrderType::Fifo => self.take(flaw, c, rank, false, pick),
            OrderType::Random => {
                if c != self.criterion {
                    self.take(flaw, c, rank, false, pick);
                }
            },
            OrderType::Lr | OrderType::Lc | OrderType::Lw => {
                if first || value < rank {
                    self.take(flaw, c, value, best, pick);
                }
            },
            OrderType::Mr | OrderType::Mc | OrderType::Mw => {
                if first || value > rank {
                    self.take(flaw, c, value, best, pick);
                }
            },
            OrderType::New | OrderType::Reuse => {
                if first || has {
                    self.take(flaw, c, rank, has, pick);
                }
            },
        }
    }
}

/// Whether the numbers are those of a merit that an order ranks by.
spec fn is_value(order: OrderType, m: Merit, value: u128, best: bool, has: bool) -> bool {
    match order {
        OrderType::Lifo | OrderType::Fifo | OrderType::Random => true,
        OrderType::Lr => value == m.count && best == (m.count == 0),
        OrderType::Mr => value == m.count && best == (m.count == m.most),
        OrderType::New => has == m.has_new,
        OrderType::Reuse => has == m.has_reuse,
        OrderType::Lc => value == m.cost && best == (m.cost == 0),
        OrderType::Mc => value == m.cost && !best,
        OrderType::Lw => value == m.work && best == (m.work == 0),
        OrderType::Mw => value == m.work && !best,
    }
}

/// Picking by a criterion does not move the end behind it.
proof fn lemma_end(pick: Pick, flaw: FlawView, c: int, order: OrderType, m: Merit)
    requires
        c < pick.end,
    ensures
        pick.weighed(flaw, c, order, m).end <= pick.end,
{
}

/// The threats of a plan.
fn plan_threats(plan: &Plan) -> (res: Vec<Unsafe>)
    ensures
        unsafe_views(res@) == plan@.unsafes,
{
    let mut res: Vec<Unsafe> = Vec::new();
    let mut cur: &Option<Rc<Chain<Unsafe>>> = &plan.unsafes;
    while cur.is_some()
        invariant
            unsafe_views(res@) + unsafe_views(elements(cur)) == unsafe_views(elements(&plan.unsafes)),
        decreases elements(cur).len(),
    {
        match cur {
            Some(node) => {
                let ghost before = unsafe_views(res@);
                let ghost rest = unsafe_views(elements(cur));
                let copy = node.head.clone();
                res.push(copy);
                cur = &node.tail;
                assert(before + rest =~= unsafe_views(res@) + unsafe_views(elements(cur)));
            },
            None => {},
        }
    }
    assert(unsafe_views(res@) + unsafe_views(elements(cur)) =~= unsafe_views(res@));
    res
}

/// The graph that estimates are read from.
pub open spec fn graph_or_none(pg: Option<&PlanningGraph>) -> GraphView {
    match pg {
        Some(g) => g@,
        None => GraphView { atoms: seq![], negs: seq![], init: seq![] },
    }
}

/// Whether there is a graph, in order.
pub open spec fn has_graph(pg: Option<&PlanningGraph>) -> bool {
    pg matches Some(g) && g.wf()
}

impl FlawSelectionOrder {
    /// Weighs a threat by each criterion.
    fn weigh_threat(tiers: &Vec<SelectionCriterion>, selection: &mut FlawSelection, plan: &Plan, ctx: &SearchContext, u: &Unsafe, pick: Ghost<Pick>)
        requires
            ctx.wf(),
            plan.wf(),
            old(selection).is(pick@),
            old(selection).end <= tiers@.len(),
        ensures
            final(selection).is(threat_from(ctx@, plan@, tiers@, u@, pick@, 0)),
            final(selection).end <= tiers@.len(),
    {
        let ghost cv = ctx@;
        let ghost p = plan@;
        let ghost goal = threat_from(cv, p, tiers@, u@, pick@, 0);
        let ghost m = threat_merit(cv, p, u@);
        proof {
            lemma_unsafe_count(cv, p, u@);
        }
        let mut refinements: i32 = -1;
        let mut separable: i32 = -1;
        let mut promotable: i32 = -1;
        let mut demotable: i32 = -1;
        let ghost mut cur = pick@;
        let mut c: usize = 0;
        while c < selection.end
            invariant
                ctx.wf(),
                plan.wf(),
                cv == ctx@,
                p == plan@,
                m == threat_merit(cv, p, u@),
                0 <= unsafe_count(cv, p, u@) <= 3,
                is_cached(refinements, unsafe_count(cv, p, u@)),
                is_cached(separable, separations(cv, p, u@)),
                is_cached(promotable, promotions(cv, p, u@)),
                is_cached(demotable, demotions(cv, p, u@)),
                selection.is(cur),
                selection.end <= tiers@.len(),
                goal == threat_from(cv, p, tiers@, u@, cur, c as int),
            decreases tiers@.len() - c,
        {
            let crit = tiers[c];
            let applies = if crit.non_separable == crit.separable {
                crit.separable
            } else {
                if separable < 0 {
                    separable = plan.separable(ctx, u);
                }
                if separable > 0 {
                    crit.separable
                } else {
                    crit.non_separable
                }
            };
            let within = applies && (crit.max_refinements >= 3 || plan.unsafe_refinements(
                ctx,
                &mut refinements,
                &mut separable,
                &mut promotable,
                &mut demotable,
                u,
                crit.max_refinements,
            ));
            let ghost before = cur;
            proof {
                if admits_threat(cv, p, u@, tiers@[c as int]) {
                    cur = before.weighed(FlawView::Unsafe(u@), c as int, crit.order, m);
                }
            }
            let ranked = match crit.order {
                OrderType::Lifo | OrderType::Fifo | OrderType::Random | OrderType::Lr | OrderType::Mr => true,
                _ => false,
            };
            if within && ranked {
                if crit.order == OrderType::Lr || crit.order == OrderType::Mr {
                    let _ = plan.unsafe_refinements(
                        ctx,
                        &mut refinements,
                        &mut separable,
                        &mut promotable,
                        &mut demotable,
                        u,
                        i32::MAX,
                    );
                }
                let value = if refinements >= 0 {
                    refinements as u128
                } else {
                    0
                };
                let best = if crit.order == OrderType::Mr {
                    value == 3
                } else {
                    value == 0
                };
                proof {
                    lemma_end(before, FlawView::Unsafe(u@), c as int, crit.order, m);
                }
                selection.weigh(Flaw::Unsafe(u.clone()), c, crit.order, value, best, false, Ghost(before), Ghost(m));
            }
            c = c + 1;
        }
    }

    /// Searches threats for a flaw to select.
    fn select_unsafe(tiers: &Vec<SelectionCriterion>, selection: &mut FlawSelection, plan: &Plan, ctx: &SearchContext)
        requires
            ctx.wf(),
            plan.wf(),
            old(selection).is(no_pick(tiers@)),
        ensures
            final(selection).is(threats_upto(ctx@, plan@, tiers@, no_pick(tiers@), plan@.unsafes.len())),
            final(selection).end <= tiers@.len(),
    {
        let threats = plan_threats(plan);
        let mut i: usize = 0;
        while i < threats.len()
            invariant
                ctx.wf(),
                plan.wf(),
                unsafe_views(threats@) == plan@.unsafes,
                i <= threats@.len(),
                selection.is(threats_upto(ctx@, plan@, tiers@, no_pick(tiers@), i as nat)),
                selection.end <= tiers@.len(),
            decreases threats@.len() - i,
        {
            assert(plan@.unsafes[i as int] == threats@[i as int]@);
            Self::weigh_threat(
                tiers,
                selection,
                plan,
                ctx,
                &threats[i],
                Ghost(threats_upto(ctx@, plan@, tiers@, no_pick(tiers@), i as nat)),
            );
            i = i + 1;
        }
    }

    /// The estimate of an open condition.
    fn estimate(plan: &Plan, ctx: &SearchContext, tctx: &TypeContext, pg: Option<&PlanningGraph>, oc: &OpenCondition, reuse: bool) -> (res: HeuristicValue)
        requires
            ctx.wf(),
            plan.wf(),
            tctx.wf(),
            tctx@ == plan@.typing(ctx@),
            has_graph(pg),
        ensures
            res == value_at(graph_or_none(pg), ctx@.dynamic, plan@.typing(ctx@), plan@, oc@.condition, oc@.step_id, reuse),
    {
        match pg {
            Some(graph) => formula_value(graph, &ctx.domain.predicates, tctx, plan, &oc.condition, oc.step_id, reuse).0,
            None => HeuristicValue::of_nothing(),
        }
    }

    /// Weighs an open condition by each criterion.
    #[verifier::rlimit(40)]
    fn weigh_open(
        tiers: &Vec<SelectionCriterion>,
        selection: &mut FlawSelection,
        plan: &Plan,
        ctx: &SearchContext,
        tctx: &TypeContext,
        pg: Option<&PlanningGraph>,
        oc: &OpenCondition,
        local: bool,
        pick: Ghost<Pick>,
    )
        requires
            ctx.wf(),
            plan.wf(),
            tctx.wf(),
            tctx@ == plan@.typing(ctx@),
            any_estimates(tiers@) ==> has_graph(pg),
            old(selection).is(pick@),
            old(selection).end <= tiers@.len(),
        ensures
            final(selection).is(open_from(ctx@, plan@, graph_or_none(pg), tiers@, oc@, local, pick@, 0)),
            final(selection).end <= tiers@.len(),
    {
        let ghost cv = ctx@;
        let ghost p = plan@;
        let ghost g = graph_or_none(pg);
        let ghost goal = open_from(cv, p, g, tiers@, oc@, local, pick@, 0);
        let mut refinements: i32 = -1;
        let mut addable: i32 = -1;
        let mut reusable: i32 = -1;
        let literal = oc.literal();
        let ghost mut cur = pick@;
        let mut c: usize = 0;
        while c < selection.end
            invariant
                ctx.wf(),
                plan.wf(),
                tctx.wf(),
                tctx@ == p.typing(cv),
                any_estimates(tiers@) ==> has_graph(pg),
                cv == ctx@,
                p == plan@,
                g == graph_or_none(pg),
                match oc@.as_literal() {
                    None => literal is None,
                    Some(l) => literal matches Some(r) && r@ == l,
                },
                0 <= open_count(cv, p, oc@),
                is_cached(refinements, open_count(cv, p, oc@)),
                oc@.as_literal() is Some ==> is_cached(addable, addable_count(cv, p, oc@)) && is_cached(reusable, reusable_count(cv, p, oc@)),
                selection.is(cur),
                selection.end <= tiers@.len(),
                goal == open_from(cv, p, g, tiers@, oc@, local, cur, c as int),
            decreases tiers@.len() - c,
        {
            let crit = tiers[c];
            let ghost before = cur;
            proof {
                cur = open_step(cv, p, g, tiers@, oc@, local, before, c as int);
            }
            if crit.local_open_cond && !local && !crit.static_open_cond && !crit.unsafe_open_cond {
                if c + 1 == selection.end {
                    selection.end = c;
                }
                c = c + 1;
                continue;
            }
            let applies = crit.open_cond || (crit.local_open_cond && local) || (crit.static_open_cond && oc.is_static(
                &ctx.domain.predicates,
            )) || (crit.unsafe_open_cond && plan.unsafe_open_condition(ctx, oc));
            let within = applies && (crit.max_refinements == i32::MAX || plan.open_cond_refinements(
                ctx,
                &mut refinements,
                &mut addable,
                &mut reusable,
                oc,
                crit.max_refinements,
            ));
            let ghost m = open_merit(cv, p, g, oc@, crit.reuse);
            if within {
                let value: u128 = match crit.order {
                    OrderType::Lr | OrderType::Mr => {
                        let _ = plan.open_cond_refinements(ctx, &mut refinements, &mut addable, &mut reusable, oc, i32::MAX);
                        refinements as u128
                    },
                    OrderType::Lc | OrderType::Mc => {
                        assert(tiers@[c as int].order.estimates());
                        Self::estimate(plan, ctx, tctx, pg, oc, crit.reuse).add_cost()
                    },
                    OrderType::Lw | OrderType::Mw => {
                        assert(tiers@[c as int].order.estimates());
                        Self::estimate(plan, ctx, tctx, pg, oc, crit.reuse).add_work() as u128
                    },
                    _ => 0,
                };
                let has = match (&literal, crit.order) {
                    (Some(l), OrderType::New) => {
                        if addable < 0 {
                            let _ = plan.addable_steps(ctx, &mut addable, l, oc, 0);
                        }
                        addable > 0
                    },
                    (Some(l), OrderType::Reuse) => {
                        if reusable < 0 {
                            let _ = plan.reusable_steps(ctx, &mut reusable, l, oc, 0);
                        }
                        reusable > 0
                    },
                    _ => false,
                };
                let most = crit.order == OrderType::Mr || crit.order == OrderType::Mc || crit.order == OrderType::Mw;
                proof {
                    lemma_end(before, FlawView::OpenCondition(oc@), c as int, crit.order, m);
                }
                selection.weigh(Flaw::OpenCondition(oc.clone()), c, crit.order, value, !most && value == 0, has, Ghost(before), Ghost(m));
            }
            c = c + 1;
        }
    }

    /// Searches open conditions for a flaw to select.
    fn select_open_cond(
        tiers: &Vec<SelectionCriterion>,
        selection: &mut FlawSelection,
        plan: &Plan,
        ctx: &SearchContext,
        pg: Option<&PlanningGraph>,
        pick: Ghost<Pick>,
    )
        requires
            ctx.wf(),
            plan.wf(),
            any_estimates(tiers@) ==> has_graph(pg),
            old(selection).is(pick@),
            old(selection).end <= tiers@.len(),
        ensures
            final(selection).is(opens_upto(ctx@, plan@, graph_or_none(pg), tiers@, pick@, plan@.opens.len())),
    {
        let opens = plan_opens(plan);
        let types = plan.types(ctx);
        let tctx = ctx.type_ctx(&types);
        let mut local_id: usize = 0;
        let mut i: usize = 0;
        while i < opens.len()
            invariant
                ctx.wf(),
                plan.wf(),
                tctx.wf(),
                tctx@ == plan@.typing(ctx@),
                any_estimates(tiers@) ==> has_graph(pg),
                open_views(opens@) == plan@.opens,
                i <= opens@.len(),
                local_id == local_step(plan@.opens, i as nat),
                selection.is(opens_upto(ctx@, plan@, graph_or_none(pg), tiers@, pick@, i as nat)),
                selection.end <= tiers@.len(),
            decreases opens@.len() - i,
        {
            let oc = &opens[i];
            assert(plan@.opens[i as int] == oc@);
            if local_id == 0 {
                local_id = oc.step_id;
            }
            let local = oc.step_id == local_id;
            Self::weigh_open(
                tiers,
                selection,
                plan,
                ctx,
                &tctx,
                pg,
                oc,
                local,
                Ghost(opens_upto(ctx@, plan@, graph_or_none(pg), tiers@, pick@, i as nat)),
            );
            i = i + 1;
        }
    }

    /// Selects the flaw of a plan to refine next: `None` only if it has none.
    pub fn select(&self, plan: &Plan, ctx: &SearchContext, pg: Option<&PlanningGraph>) -> (res: Option<Flaw>)
        requires
            ctx.wf(),
            plan.wf(),
            any_estimates(self.tiers()) ==> has_graph(pg),
        ensures
            match picked(ctx@, plan@, graph_or_none(pg), self.tiers()).flaw {
                Some(f) => res matches Some(x) && x@ == f && is_flaw_of(plan@, f),
                None => res is None,
            },
            res is None ==> plan@.is_complete(),
    {
        let tiers = self.criteria();
        proof {
            selection_finds_a_flaw(ctx@, plan@, graph_or_none(pg), tiers@);
        }
        let mut selection = FlawSelection { flaw: None, criterion: tiers.len(), rank: 0, end: tiers.len() };
        assert(selection.is(no_pick(tiers@)));
        Self::select_unsafe(tiers, &mut selection, plan, ctx);
        let ghost t = threats_upto(ctx@, plan@, tiers@, no_pick(tiers@), plan@.unsafes.len());
        let mut end: usize = tiers.len();
        while end > 0 && !(tiers[end - 1].open_cond || tiers[end - 1].local_open_cond || tiers[end - 1].static_open_cond
            || tiers[end - 1].unsafe_open_cond)
            invariant
                end <= tiers@.len(),
                open_end(tiers@, tiers@.len()) == open_end(tiers@, end as nat),
            decreases end,
        {
            end = end - 1;
        }
        assert(open_end(tiers@, end as nat) == end);
        if end < selection.end {
            selection.end = end;
        }
        let ghost start = if end < t.end {
            Pick { end: end as int, ..t }
        } else {
            t
        };
        assert(selection.is(start));
        Self::select_open_cond(tiers, &mut selection, plan, ctx, pg, Ghost(start));
        selection.flaw
    }
}

} // verus!
