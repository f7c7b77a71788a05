//! What flaw selection prefers: the first tier that admits a flaw decides, and in it no
//! flaw comes before the selected one.
use vstd::prelude::*;

use crate::flaws::{FlawView, OpenView};
use crate::graph_model::GraphView;
use crate::heuristics::{OrderType, SelectionCriterion};
use crate::plan::flaw_plans;
use crate::plan_model::PlanView;
use crate::search::ContextView;
use crate::select::{
    admits_open, admits_threat, local_step, no_pick, only_local, open_end, open_from, open_merit, open_step, opens_upto, picked, threat_from,
    threat_merit, threats_upto, Merit, Pick,
};

verus! {

/// The number of flaws of a plan.
pub open spec fn flaw_count(p: PlanView) -> nat {
    p.unsafes.len() + p.opens.len()
}

/// The flaws of a plan, the threats first, each list from its front.
pub open spec fn flaw_at(p: PlanView, y: int) -> FlawView {
    if y < p.unsafes.len() {
        FlawView::Unsafe(p.unsafes[y])
    } else {
        FlawView::OpenCondition(p.opens[y - p.unsafes.len()])
    }
}

/// Whether an open condition belongs to the step that the first of the list, but for those
/// of the initial step, belongs to.
pub open spec fn is_local(opens: Seq<OpenView>, i: int) -> bool {
    forall|j: int|
        0 <= j <= i && (#[trigger] opens[j]).step_id != 0 && (forall|k: int| 0 <= k < j ==> (#[trigger] opens[k]).step_id == 0)
            ==> opens[i].step_id == opens[j].step_id
}

/// Whether a tier admits a flaw of the plan.
pub open spec fn admits(cv: ContextView, p: PlanView, crit: SelectionCriterion, y: int) -> bool {
    if y < p.unsafes.len() {
        admits_threat(cv, p, p.unsafes[y], crit)
    } else {
        let i = y - p.unsafes.len();
        &&& admits_open(cv, p, p.opens[i], is_local(p.opens, i), crit)
        &&& only_local(crit) ==> is_local(p.opens, i)
    }
}

/// Whether a tier looks at a flaw of the plan in any case and admits it. A tier about local
/// conditions alone looks at those in front of the first that is not local.
pub open spec fn considers(cv: ContextView, p: PlanView, crit: SelectionCriterion, y: int) -> bool {
    &&& admits(cv, p, crit, y)
    &&& y >= p.unsafes.len() && only_local(crit) ==> forall|j: int| 0 <= j <= y - p.unsafes.len() ==> #[trigger] is_local(p.opens, j)
}

/// What a flaw of the plan is ranked by.
pub open spec fn merit_at(cv: ContextView, p: PlanView, g: GraphView, crit: SelectionCriterion, y: int) -> Merit {
    if y < p.unsafes.len() {
        threat_merit(cv, p, p.unsafes[y])
    } else {
        open_merit(cv, p, g, p.opens[y - p.unsafes.len()], crit.reuse)
    }
}

/// Whether one merit is better than another under an order.
pub open spec fn beats(order: OrderType, a: Merit, b: Merit) -> bool {
    match order {
        OrderType::Lifo | OrderType::Fifo | OrderType::Random => false,
        OrderType::Lr => a.count < b.count,
        OrderType::Mr => a.count > b.count,
        OrderType::New => a.has_new && !b.has_new,
        OrderType::Reuse => a.has_reuse && !b.has_reuse,
        OrderType::Lc => a.cost < b.cost,
        OrderType::Mc => a.cost > b.cost,
        OrderType::Lw => a.work < b.work,
        OrderType::Mw => a.work > b.work,
    }
}

/// Whether an order prefers one merit to another: it is better. With most refinements
/// first, a threat with as many refinements as a threat can have is not given up for more.
pub open spec fn prefers(order: OrderType, a: Merit, b: Merit) -> bool {
    beats(order, a, b) && !(order is Mr && b.count == b.most)
}

/// Whether the flaw at `y` comes before the flaw at `w` under an order: it is preferred,
/// or the other is not better and it is found earlier (with the oldest first, later).
pub open spec fn comes_first(order: OrderType, a: Merit, y: int, b: Merit, w: int) -> bool {
    prefers(order, a, b) || (!beats(order, b, a) && if order is Fifo {
        w < y
    } else {
        y < w
    })
}

/// Whether nothing that is found later can come before the merit.
spec fn is_last(order: OrderType, m: Merit) -> bool {
    match order {
        OrderType::Lifo => true,
        OrderType::Lr => m.count == 0,
        OrderType::Mr => m.count == m.most,
        OrderType::New => m.has_new,
        OrderType::Reuse => m.has_reuse,
        OrderType::Lc => m.cost == 0,
        OrderType::Lw => m.work == 0,
        _ => false,
    }
}

spec fn rank_of(order: OrderType, m: Merit) -> Option<int> {
    match order {
        OrderType::Lr | OrderType::Mr => Some(m.count),
        OrderType::Lc | OrderType::Mc => Some(m.cost),
        OrderType::Lw | OrderType::Mw => Some(m.work),
        _ => None,
    }
}

/// Whether tier `t` has met flaw `y` when flaw `x` is at tier `c`.
spec fn is_met(t: int, y: int, x: int, c: int) -> bool {
    0 <= y && (y < x || (y == x && t < c))
}

/// Whether some open condition among the first `n` flaws is not local.
spec fn is_broken(p: PlanView, crit: SelectionCriterion, n: int) -> bool {
    only_local(crit) && exists|j: int| 0 <= j < n - p.unsafes.len() && !#[trigger] is_local(p.opens, j)
}

/// The flaws of a plan as the tiers see them: tier first, then the number of the flaw.
struct Field {
    size: nat,
    orders: Seq<OrderType>,
    flaw: spec_fn(int) -> FlawView,
    admits: spec_fn(int, int) -> bool,
    considers: spec_fn(int, int) -> bool,
    merit: spec_fn(int, int) -> Merit,
    /// Whether the tier considers none of the flaws from a number on.
    is_done: spec_fn(int, int) -> bool,
}

/// What the functions of a field have in common.
spec fn is_field(fd: Field) -> bool {
    &&& forall|t: int, y: int| #[trigger] (fd.considers)(t, y) ==> (fd.admits)(t, y)
    &&& forall|t: int, y: int|
        0 <= (#[trigger] (fd.merit)(t, y)).count && 0 <= (fd.merit)(t, y).cost && 0 <= (fd.merit)(t, y).work
    &&& forall|t: int, n: int, y: int| #[trigger] (fd.is_done)(t, n) && n <= y < fd.size ==> !#[trigger] (fd.considers)(t, y)
    &&& forall|t: int, n: int, m: int| #[trigger] (fd.is_done)(t, n) && n <= m ==> #[trigger] (fd.is_done)(t, m)
}

/// What holds of a pick when flaw `x` is at tier `c`; the flaw at `w` is picked.
spec fn is_so_far(fd: Field, pick: Pick, w: int, x: int, c: int) -> bool {
    let k = pick.criterion;
    &&& pick.end <= fd.orders.len()
    &&& pick.flaw is None ==> k == fd.orders.len()
    &&& pick.flaw is Some ==> {
        &&& 0 <= k < fd.orders.len()
        &&& pick.end <= k + 1
        &&& is_last(fd.orders[k], (fd.merit)(k, w)) ==> pick.end <= k
        &&& is_met(k, w, x, c)
        &&& w < fd.size
        &&& pick.flaw == Some((fd.flaw)(w))
        &&& (fd.admits)(k, w)
        &&& rank_of(fd.orders[k], (fd.merit)(k, w)) matches Some(r) ==> pick.rank == r
        &&& forall|y: int|
            is_met(k, y, x, c) && y < fd.size && #[trigger] (fd.considers)(k, y) ==> !comes_first(
                fd.orders[k],
                (fd.merit)(k, y),
                y,
                (fd.merit)(k, w),
                w,
            )
    }
    &&& forall|t: int, y: int|
        0 <= t < k && t < fd.orders.len() && is_met(t, y, x, c) && y < fd.size ==> !#[trigger] (fd.considers)(t, y)
    &&& forall|t: int|
        0 <= t < fd.orders.len() && pick.end <= t ==> {
            ||| t > k
            ||| t == k && is_last(fd.orders[k], (fd.merit)(k, w))
            ||| #[trigger] (fd.is_done)(t, x)
        }
}

/// One flaw weighed at one tier.
proof fn lemma_weighed(fd: Field, pick: Pick, w: int, x: int, c: int) -> (v: int)
    requires
        is_field(fd),
        is_so_far(fd, pick, w, x, c),
        0 <= x < fd.size,
        0 <= c < fd.orders.len(),
        c < pick.end,
        (fd.admits)(c, x),
    ensures
        is_so_far(fd, pick.weighed((fd.flaw)(x), c, fd.orders[c], (fd.merit)(c, x)), v, x, c + 1),
        pick.weighed((fd.flaw)(x), c, fd.orders[c], (fd.merit)(c, x)).end <= pick.end,
{
    let order = fd.orders[c];
    let m = (fd.merit)(c, x);
    let next = pick.weighed((fd.flaw)(x), c, order, m);
    let first = c < pick.criterion;
    let b = (fd.merit)(c, w);
    let takes = first || order is Fifo || prefers(order, m, b);
    if !first {
        assert(c == pick.criterion);
        assert(!is_last(order, b));
    }
    if takes {
        assert(next.criterion == c && next.flaw == Some((fd.flaw)(x)));
        assert forall|y: int| is_met(c, y, x, c + 1) && y < fd.size && #[trigger] (fd.considers)(c, y) implies !comes_first(
            order,
            (fd.merit)(c, y),
            y,
            m,
            x,
        ) by {
            if y != x {
                assert(is_met(c, y, x, c));
                assert(!first);
                assert(!comes_first(order, (fd.merit)(c, y), y, b, w));
            }
        }
        x
    } else {
        assert(next == pick);
        assert forall|y: int| is_met(c, y, x, c + 1) && y < fd.size && #[trigger] (fd.considers)(c, y) implies !comes_first(
            order,
            (fd.merit)(c, y),
            y,
            b,
            w,
        ) by {
            if y != x {
                assert(is_met(c, y, x, c));
            }
        }
        w
    }
}

/// A flaw passed over by a tier that does not consider it.
proof fn lemma_passed(fd: Field, pick: Pick, w: int, x: int, c: int)
    requires
        is_so_far(fd, pick, w, x, c),
        !(fd.considers)(c, x),
    ensures
        is_so_far(fd, pick, w, x, c + 1),
{
    assert forall|t: int, y: int| is_met(t, y, x, c + 1) implies is_met(t, y, x, c) || (t == c && y == x) by {}
}

/// The tiers that are left do not matter for a flaw.
proof fn lemma_left(fd: Field, pick: Pick, w: int, x: int, c: int)
    requires
        is_field(fd),
        is_so_far(fd, pick, w, x, c),
        0 <= x < fd.size,
        0 <= c,
        c >= pick.end || c >= fd.orders.len(),
    ensures
        is_so_far(fd, pick, w, x + 1, 0),
{
    let k = pick.criterion;
    assert forall|t: int, y: int| 0 <= t < fd.orders.len() && is_met(t, y, x + 1, 0) implies is_met(t, y, x, c) || (t >= c && y == x) by {}
    assert forall|t: int, y: int| 0 <= t < k && t < fd.orders.len() && is_met(t, y, x + 1, 0) && y < fd.size implies !#[trigger] (
    fd.considers)(t, y) by {
        if !is_met(t, y, x, c) {
            assert((fd.is_done)(t, x));
        }
    }
    if pick.flaw is Some {
        assert forall|y: int| is_met(k, y, x + 1, 0) && y < fd.size && #[trigger] (fd.considers)(k, y) implies !comes_first(
            fd.orders[k],
            (fd.merit)(k, y),
            y,
            (fd.merit)(k, w),
            w,
        ) by {
            if !is_met(k, y, x, c) {
                assert((fd.is_done)(k, x) || is_last(fd.orders[k], (fd.merit)(k, w)));
            }
        }
    }
    assert forall|t: int| 0 <= t < fd.orders.len() && pick.end <= t implies {
        ||| t > k
        ||| t == k && is_last(fd.orders[k], (fd.merit)(k, w))
        ||| #[trigger] (fd.is_done)(t, x + 1)
    } by {
        if (fd.is_done)(t, x) {
            assert((fd.is_done)(t, x + 1));
        }
    }
}

proof fn lemma_local(opens: Seq<OpenView>, n: nat)
    requires
        n <= opens.len(),
    ensures
        local_step(opens, n) == 0 ==> forall|j: int| 0 <= j < n ==> (#[trigger] opens[j]).step_id == 0,
        local_step(opens, n) != 0 ==> exists|j: int|
            0 <= j < n && (#[trigger] opens[j]).step_id == local_step(opens, n) && forall|k: int| 0 <= k < j ==> (#[trigger] opens[k]).step_id == 0,
    decreases n,
{
    if n > 0 {
        lemma_local(opens, (n - 1) as nat);
    }
}

proof fn lemma_is_local(opens: Seq<OpenView>, i: int)
    requires
        0 <= i < opens.len(),
    ensures
        is_local(opens, i) == (opens[i].step_id == local_step(opens, (i + 1) as nat)),
{
    lemma_local(opens, (i + 1) as nat);
    let id = local_step(opens, (i + 1) as nat);
    if id != 0 {
        let j = choose|j: int|
            0 <= j < i + 1 && (#[trigger] opens[j]).step_id == id && forall|k: int| 0 <= k < j ==> (#[trigger] opens[k]).step_id == 0;
        assert(opens[j].step_id != 0);
        if opens[i].step_id == id {
            assert forall|a: int|
                0 <= a <= i && (#[trigger] opens[a]).step_id != 0 && (forall|k: int| 0 <= k < a ==> (#[trigger] opens[k]).step_id == 0) implies opens[i].step_id
                == opens[a].step_id by {
                if a < j {
                    assert(opens[a].step_id == 0);
                } else if j < a {
                    assert(opens[j].step_id == 0);
                }
            }
        }
    }
}

/// The field of a plan while the threats are weighed, or the open conditions.
spec fn field_of(cv: ContextView, p: PlanView, g: GraphView, tiers: Seq<SelectionCriterion>) -> Field {
    Field {
        size: flaw_count(p),
        orders: Seq::new(tiers.len(), |t: int| tiers[t].order),
        flaw: |y: int| flaw_at(p, y),
        admits: |t: int, y: int| admits(cv, p, tiers[t], y),
        considers: |t: int, y: int| considers(cv, p, tiers[t], y),
        merit: |t: int, y: int| merit_at(cv, p, g, tiers[t], y),
        is_done: |t: int, n: int| p.unsafes.len() <= n && (!tiers[t].opens() || is_broken(p, tiers[t], n + 1)),
    }
}

proof fn lemma_field(cv: ContextView, p: PlanView, g: GraphView, tiers: Seq<SelectionCriterion>)
    ensures
        is_field(field_of(cv, p, g, tiers)),
{
    let fd = field_of(cv, p, g, tiers);
    assert forall|t: int, y: int|
        0 <= (#[trigger] (fd.merit)(t, y)).count && 0 <= (fd.merit)(t, y).cost && 0 <= (fd.merit)(t, y).work by {
        lemma_counts(cv, p, g, tiers[t], y);
    }
    assert forall|t: int, n: int, y: int| #[trigger] (fd.is_done)(t, n) && n <= y < fd.size implies !#[trigger] (fd.considers)(t, y) by {
        if is_broken(p, tiers[t], n + 1) {
            let j = choose|j: int| 0 <= j < n + 1 - p.unsafes.len() && !#[trigger] is_local(p.opens, j);
            assert(!is_local(p.opens, j));
        }
    }
    assert forall|t: int, n: int, m: int| #[trigger] (fd.is_done)(t, n) && n <= m implies #[trigger] (fd.is_done)(t, m) by {
        if is_broken(p, tiers[t], n + 1) {
            let j = choose|j: int| 0 <= j < n + 1 - p.unsafes.len() && !#[trigger] is_local(p.opens, j);
            assert(0 <= j < m + 1 - p.unsafes.len() && !is_local(p.opens, j));
        }
    }
}

proof fn lemma_counts(cv: ContextView, p: PlanView, g: GraphView, crit: SelectionCriterion, y: int)
    ensures
        0 <= merit_at(cv, p, g, crit, y).count,
        0 <= merit_at(cv, p, g, crit, y).cost,
        0 <= merit_at(cv, p, g, crit, y).work,
{
    if y < p.unsafes.len() {
        crate::plan_counts::lemma_unsafe_count(cv, p, p.unsafes[y]);
    }
}

proof fn lemma_threat_weighed(cv: ContextView, p: PlanView, g: GraphView, tiers: Seq<SelectionCriterion>, pick: Pick, w: int, x: int, c: int) -> (v: int)
    requires
        0 <= x < p.unsafes.len(),
        0 <= c,
        is_so_far(field_of(cv, p, g, tiers), pick, w, x, c),
    ensures
        is_so_far(field_of(cv, p, g, tiers), threat_from(cv, p, tiers, p.unsafes[x], pick, c), v, x + 1, 0),
    decreases tiers.len() - c,
{
    let fd = field_of(cv, p, g, tiers);
    lemma_field(cv, p, g, tiers);
    if c >= pick.end || c >= tiers.len() {
        lemma_left(fd, pick, w, x, c);
        w
    } else {
        assert((fd.flaw)(x) == FlawView::Unsafe(p.unsafes[x]));
        assert((fd.merit)(c, x) == threat_merit(cv, p, p.unsafes[x]));
        if admits_threat(cv, p, p.unsafes[x], tiers[c]) {
            assert((fd.admits)(c, x));
            let v = lemma_weighed(fd, pick, w, x, c);
            let next = pick.weighed(FlawView::Unsafe(p.unsafes[x]), c, tiers[c].order, threat_merit(cv, p, p.unsafes[x]));
            lemma_threat_weighed(cv, p, g, tiers, next, v, x, c + 1)
        } else {
            assert(!(fd.considers)(c, x));
            lemma_passed(fd, pick, w, x, c);
            lemma_threat_weighed(cv, p, g, tiers, pick, w, x, c + 1)
        }
    }
}

proof fn lemma_threats_weighed(cv: ContextView, p: PlanView, g: GraphView, tiers: Seq<SelectionCriterion>, n: nat) -> (v: int)
    requires
        n <= p.unsafes.len(),
    ensures
        is_so_far(field_of(cv, p, g, tiers), threats_upto(cv, p, tiers, no_pick(tiers), n), v, n as int, 0),
    decreases n,
{
    if n == 0 {
        0
    } else {
        let w = lemma_threats_weighed(cv, p, g, tiers, (n - 1) as nat);
        lemma_threat_weighed(cv, p, g, tiers, threats_upto(cv, p, tiers, no_pick(tiers), (n - 1) as nat), w, n - 1, 0)
    }
}

proof fn lemma_open_weighed(cv: ContextView, p: PlanView, g: GraphView, tiers: Seq<SelectionCriterion>, pick: Pick, w: int, i: int, c: int) -> (v: int)
    requires
        0 <= i < p.opens.len(),
        0 <= c,
        is_so_far(field_of(cv, p, g, tiers), pick, w, p.unsafes.len() + i, c),
    ensures
        is_so_far(
            field_of(cv, p, g, tiers),
            open_from(cv, p, g, tiers, p.opens[i], p.opens[i].step_id == local_step(p.opens, (i + 1) as nat), pick, c),
            v,
            p.unsafes.len() + i + 1,
            0,
        ),
    decreases tiers.len() - c,
{
    let fd = field_of(cv, p, g, tiers);
    let x = p.unsafes.len() + i;
    let oc = p.opens[i];
    let local = oc.step_id == local_step(p.opens, (i + 1) as nat);
    lemma_field(cv, p, g, tiers);
    lemma_is_local(p.opens, i);
    if c >= pick.end || c >= tiers.len() {
        lemma_left(fd, pick, w, x, c);
        w
    } else {
        let next = open_step(cv, p, g, tiers, oc, local, pick, c);
        assert((fd.flaw)(x) == FlawView::OpenCondition(oc));
        assert((fd.merit)(c, x) == open_merit(cv, p, g, oc, tiers[c].reuse));
        if only_local(tiers[c]) && !local {
            assert(!(fd.considers)(c, x));
            lemma_passed(fd, pick, w, x, c);
            assert(is_broken(p, tiers[c], x + 1)) by {
                assert(!is_local(p.opens, i));
            }
            assert((fd.is_done)(c, x));
            assert(is_so_far(fd, next, w, x, c + 1)) by {
                if c + 1 == pick.end {
                    assert forall|t: int| 0 <= t < fd.orders.len() && next.end <= t implies {
                        ||| t > pick.criterion
                        ||| t == pick.criterion && is_last(fd.orders[pick.criterion], (fd.merit)(pick.criterion, w))
                        ||| #[trigger] (fd.is_done)(t, x)
                    } by {
                        if t != c {
                            assert(pick.end <= t);
                        }
                    }
                }
            }
            lemma_open_weighed(cv, p, g, tiers, next, w, i, c + 1)
        } else if admits_open(cv, p, oc, local, tiers[c]) {
            assert((fd.admits)(c, x));
            let v = lemma_weighed(fd, pick, w, x, c);
            lemma_open_weighed(cv, p, g, tiers, next, v, i, c + 1)
        } else {
            assert(!(fd.considers)(c, x));
            lemma_passed(fd, pick, w, x, c);
            lemma_open_weighed(cv, p, g, tiers, next, w, i, c + 1)
        }
    }
}

proof fn lemma_opens_weighed(cv: ContextView, p: PlanView, g: GraphView, tiers: Seq<SelectionCriterion>, pick: Pick, w: int, n: nat) -> (v: int)
    requires
        n <= p.opens.len(),
        is_so_far(field_of(cv, p, g, tiers), pick, w, p.unsafes.len() as int, 0),
    ensures
        is_so_far(field_of(cv, p, g, tiers), opens_upto(cv, p, g, tiers, pick, n), v, (p.unsafes.len() + n) as int, 0),
    decreases n,
{
    if n == 0 {
        w
    } else {
        let v = lemma_opens_weighed(cv, p, g, tiers, pick, w, (n - 1) as nat);
        lemma_open_weighed(cv, p, g, tiers, opens_upto(cv, p, g, tiers, pick, (n - 1) as nat), v, n - 1, 0)
    }
}

proof fn lemma_open_end(tiers: Seq<SelectionCriterion>, n: nat)
    requires
        n <= tiers.len(),
    ensures
        open_end(tiers, n) <= n,
        forall|t: int| open_end(tiers, n) <= t < n ==> !(#[trigger] tiers[t]).opens(),
    decreases n,
{
    if n > 0 && !tiers[n - 1].opens() {
        lemma_open_end(tiers, (n - 1) as nat);
    }
}

/// Flaw selection obeys its tiers. Where a flaw is selected, a tier admits it, no earlier
/// tier considers any flaw, and no flaw that the tier considers comes before it under the
/// tier's order: with least refinements first none has fewer refinements, with least cost
/// first none costs less, and so on, and among equals the one found first is selected.
/// Where none is selected, no tier considers any flaw.
pub proof fn selection_obeys_the_tiers(cv: ContextView, p: PlanView, g: GraphView, tiers: Seq<SelectionCriterion>)
    ensures
        match picked(cv, p, g, tiers).flaw {
            None => forall|t: int, y: int| 0 <= t < tiers.len() && 0 <= y < flaw_count(p) ==> !#[trigger] considers(cv, p, tiers[t], y),
            Some(f) => exists|k: int, w: int| #[trigger] is_best_at(cv, p, g, tiers, k, w) && f == flaw_at(p, w),
        },
{
    let fd = field_of(cv, p, g, tiers);
    let w = lemma_threats_weighed(cv, p, g, tiers, p.unsafes.len());
    let t = threats_upto(cv, p, tiers, no_pick(tiers), p.unsafes.len());
    let end = open_end(tiers, tiers.len());
    lemma_open_end(tiers, tiers.len());
    let start = if end < t.end {
        Pick { end, ..t }
    } else {
        t
    };
    assert(is_so_far(fd, start, w, p.unsafes.len() as int, 0)) by {
        if end < t.end {
            assert forall|a: int| 0 <= a < fd.orders.len() && start.end <= a implies {
                ||| a > t.criterion
                ||| a == t.criterion && is_last(fd.orders[t.criterion], (fd.merit)(t.criterion, w))
                ||| #[trigger] (fd.is_done)(a, p.unsafes.len() as int)
            } by {
                assert(!tiers[a].opens());
            }
        }
    }
    let v = lemma_opens_weighed(cv, p, g, tiers, start, w, p.opens.len());
    let pick = picked(cv, p, g, tiers);
    let n = flaw_count(p) as int;
    assert(is_so_far(fd, pick, v, n, 0));
    let k = pick.criterion;
    assert forall|a: int, y: int| 0 <= a < tiers.len() && a < k && 0 <= y < n implies !#[trigger] considers(cv, p, tiers[a], y) by {
        assert(is_met(a, y, n, 0));
        assert(!(fd.considers)(a, y));
    }
    if pick.flaw is Some {
        assert forall|y: int| 0 <= y < n && #[trigger] considers(cv, p, tiers[k], y) implies !comes_first(
            tiers[k].order,
            merit_at(cv, p, g, tiers[k], y),
            y,
            merit_at(cv, p, g, tiers[k], v),
            v,
        ) by {
            assert((fd.considers)(k, y));
            assert(is_met(k, y, n, 0));
        }
        assert((fd.admits)(k, v));
        assert((fd.flaw)(v) == flaw_at(p, v));
        assert(is_best_at(cv, p, g, tiers, k, v));
    }
}

/// Whether tier `k` is the first that considers a flaw, and none comes before the flaw at
/// `w` there.
pub open spec fn is_best_at(cv: ContextView, p: PlanView, g: GraphView, tiers: Seq<SelectionCriterion>, k: int, w: int) -> bool {
    &&& 0 <= k < tiers.len()
    &&& 0 <= w < flaw_count(p)
    &&& admits(cv, p, tiers[k], w)
    &&& forall|t: int, y: int| 0 <= t < k && 0 <= y < flaw_count(p) ==> !#[trigger] considers(cv, p, tiers[t], y)
    &&& forall|y: int|
        0 <= y < flaw_count(p) && #[trigger] considers(cv, p, tiers[k], y) ==> !comes_first(
            tiers[k].order,
            merit_at(cv, p, g, tiers[k], y),
            y,
            merit_at(cv, p, g, tiers[k], w),
            w,
        )
}

/// Under a single tier that ranks by least refinements, the selected flaw is one that the
/// tier admits, and no flaw that it admits has fewer children.
pub proof fn least_refinements_come_first(cv: ContextView, p: PlanView, g: GraphView, crit: SelectionCriterion, y: int)
    requires
        crit.order is Lr,
        !only_local(crit),
        0 <= y < flaw_count(p),
        admits(cv, p, crit, y),
    ensures
        picked(cv, p, g, seq![crit]).flaw matches Some(f) && {
            &&& exists|w: int| 0 <= w < flaw_count(p) && #[trigger] flaw_at(p, w) == f && admits(cv, p, crit, w)
            &&& flaw_plans(cv, p, f).len() <= flaw_plans(cv, p, flaw_at(p, y)).len() || flaw_plans(cv, p, flaw_at(p, y)).len() >= i32::MAX
        },
{
    let tiers = seq![crit];
    selection_obeys_the_tiers(cv, p, g, tiers);
    assert(considers(cv, p, tiers[0], y));
    let f = picked(cv, p, g, tiers).flaw->0;
    let (k, w) = choose|k: int, w: int| #[trigger] is_best_at(cv, p, g, tiers, k, w) && f == flaw_at(p, w);
    assert(is_best_at(cv, p, g, tiers, k, w) && f == flaw_at(p, w));
    assert(!comes_first(crit.order, merit_at(cv, p, g, crit, y), y, merit_at(cv, p, g, crit, w), w));
    assert(flaw_at(p, w) == f);
    if y < p.unsafes.len() {
        crate::plan_counts::lemma_unsafe_count(cv, p, p.unsafes[y]);
    }
    if w < p.unsafes.len() {
        crate::plan_counts::lemma_unsafe_count(cv, p, p.unsafes[w]);
    }
}

} // verus!
