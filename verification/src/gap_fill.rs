//! Delete-relaxed reachability over numbered facts, and the relaxed plan steps
//! that fill the gaps between given steps.
use vstd::prelude::*;

use crate::relaxed_plan::{all_needed, half_served, is_chosen, is_relaxed_plan, is_served, lemma_longer, needs, note, wanted, Means};
use crate::text::copy_vec;

verus! {

/// A delete-relaxed ground action effect: produce `add` when `pre` all hold.
#[derive(Debug)]
pub struct RAction {
    pub pre: Vec<usize>,
    pub add: usize,
}

pub struct RActionView {
    pub pre: Seq<usize>,
    pub add: usize,
}

impl View for RAction {
    type V = RActionView;

    open spec fn view(&self) -> RActionView {
        RActionView { pre: self.pre@, add: self.add }
    }
}

/// The mathematical forms of a list of relaxed actions.
pub open spec fn relaxed_views(acts: Seq<RAction>) -> Seq<RActionView> {
    Seq::new(acts.len(), |i: int| acts[i]@)
}

/// A committed plan step resolved to ground facts for non-relaxed application.
#[derive(Debug)]
pub struct ResolvedStep {
    pub pre: Vec<usize>,
    pub add: Vec<usize>,
    pub del: Vec<usize>,
}

pub struct ResolvedView {
    pub pre: Seq<usize>,
    pub add: Seq<usize>,
    pub del: Seq<usize>,
}

impl View for ResolvedStep {
    type V = ResolvedView;

    open spec fn view(&self) -> ResolvedView {
        ResolvedView { pre: self.pre@, add: self.add@, del: self.del@ }
    }
}

/// Saturated relaxed reachability from some state: the reached fact set and, for
/// each reached fact, the index of a relaxed action achieving it (none for facts
/// already true in the seed state).
#[derive(Debug)]
pub struct Reach {
    pub reached: Vec<bool>,
    pub achiever: Vec<Option<usize>>,
}

#[verifier::ext_equal]
pub struct ReachView {
    pub reached: Seq<bool>,
    pub achiever: Seq<Option<usize>>,
}

impl View for Reach {
    type V = ReachView;

    open spec fn view(&self) -> ReachView {
        ReachView { reached: self.reached@, achiever: self.achiever@ }
    }
}

/// Whether the facts are below `n`.
pub open spec fn below(facts: Seq<usize>, n: nat) -> bool {
    forall|i: int| 0 <= i < facts.len() ==> #[trigger] facts[i] < n
}

/// Whether the actions speak of facts below `n`.
pub open spec fn acts_below(acts: Seq<RActionView>, n: nat) -> bool {
    forall|i: int| 0 <= i < acts.len() ==> (#[trigger] acts[i]).add < n && below(acts[i].pre, n)
}

/// Whether all facts of a list are set.
pub open spec fn all_set(flags: Seq<bool>, facts: Seq<usize>) -> bool {
    forall|i: int| 0 <= i < facts.len() ==> flags[#[trigger] facts[i] as int]
}

/// What is reached before any action: the facts of the state.
pub open spec fn seed(state: Seq<bool>, n: nat) -> ReachView {
    ReachView {
        reached: Seq::new(n, |i: int| i < state.len() && state[i]),
        achiever: Seq::new(n, |i: int| None),
    }
}

impl ReachView {
    /// What is reached with action `a` too.
    pub open spec fn with_act(self, acts: Seq<RActionView>, a: int) -> ReachView {
        let add = acts[a].add as int;
        if self.reached[add] || !all_set(self.reached, acts[a].pre) {
            self
        } else {
            ReachView { reached: self.reached.update(add, true), achiever: self.achiever.update(add, Some(a as usize)) }
        }
    }

    /// What is reached with the first `k` actions, each tried once.
    pub open spec fn with_acts(self, acts: Seq<RActionView>, k: nat) -> ReachView
        decreases k,
    {
        if k == 0 {
            self
        } else {
            self.with_acts(acts, (k - 1) as nat).with_act(acts, k - 1)
        }
    }

    /// What is reached after `r` rounds.
    pub open spec fn rounds(self, acts: Seq<RActionView>, r: nat) -> ReachView
        decreases r,
    {
        if r == 0 {
            self
        } else {
            self.rounds(acts, (r - 1) as nat).with_acts(acts, acts.len())
        }
    }
}

/// Whether `reach` is what the actions reach from a state: rounds over the actions
/// until one changes nothing.
pub open spec fn is_saturated(state: Seq<bool>, acts: Seq<RActionView>, n: nat, reach: ReachView) -> bool {
    exists|r: nat| reach == #[trigger] seed(state, n).rounds(acts, r) && reach.with_acts(acts, acts.len()) == reach
}

/// Whether a set of facts holds the state and whatever the actions give from it.
pub open spec fn is_closed(state: Seq<bool>, acts: Seq<RActionView>, flags: Seq<bool>) -> bool {
    &&& forall|i: int| 0 <= i < state.len() && i < flags.len() && state[i] ==> #[trigger] flags[i]
    &&& forall|a: int| 0 <= a < acts.len() && all_set(flags, (#[trigger] acts[a]).pre) ==> flags[acts[a].add as int]
}

/// What an order of actions has reached is among every closed set.
proof fn lemma_within(r: ReachView, acts: Seq<RActionView>, k: nat, flags: Seq<bool>, n: nat)
    requires
        k <= acts.len(),
        acts_below(acts, n),
        r.reached.len() == n,
        flags.len() == n,
        forall|i: int| 0 <= i < n && r.reached[i] ==> #[trigger] flags[i],
        forall|a: int| 0 <= a < acts.len() && all_set(flags, (#[trigger] acts[a]).pre) ==> flags[acts[a].add as int],
    ensures
        r.with_acts(acts, k).reached.len() == n,
        forall|i: int| 0 <= i < n && r.with_acts(acts, k).reached[i] ==> #[trigger] flags[i],
    decreases k,
{
    if k > 0 {
        lemma_within(r, acts, (k - 1) as nat, flags, n);
        let before = r.with_acts(acts, (k - 1) as nat);
        let a = acts[k - 1];
        if !before.reached[a.add as int] && all_set(before.reached, a.pre) {
            assert(all_set(flags, a.pre)) by {
                assert forall|i: int| 0 <= i < a.pre.len() implies flags[#[trigger] a.pre[i] as int] by {
                    assert(before.reached[a.pre[i] as int]);
                    assert(flags[a.pre[i] as int]);
                }
            }
        }
    }
}

/// The number of facts that are not reached.
spec fn open_flags(flags: Seq<bool>) -> nat
    decreases flags.len(),
{
    if flags.len() == 0 {
        0
    } else {
        open_flags(flags.drop_last()) + if flags.last() {
            0nat
        } else {
            1nat
        }
    }
}

proof fn lemma_open_flags(flags: Seq<bool>, i: int)
    requires
        0 <= i < flags.len(),
        !flags[i],
    ensures
        open_flags(flags.update(i, true)) + 1 == open_flags(flags),
    decreases flags.len(),
{
    if i == flags.len() - 1 {
        assert(flags.update(i, true).drop_last() =~= flags.drop_last());
    } else {
        assert(flags.update(i, true).drop_last() =~= flags.drop_last().update(i, true));
        lemma_open_flags(flags.drop_last(), i);
    }
}

/// Saturation reaches exactly the least closed set: it is closed, and among every
/// closed set.
pub proof fn saturation_is_least(state: Seq<bool>, acts: Seq<RActionView>, n: nat, reach: ReachView, flags: Seq<bool>)
    requires
        acts_below(acts, n),
        state.len() <= n,
        is_saturated(state, acts, n, reach),
        flags.len() == n,
        is_closed(state, acts, flags),
    ensures
        reach.reached.len() == n,
        is_closed(state, acts, reach.reached),
        forall|i: int| 0 <= i < n && reach.reached[i] ==> #[trigger] flags[i],
{
    let start = seed(state, n);
    let r = choose|r: nat| reach == #[trigger] start.rounds(acts, r) && reach.with_acts(acts, acts.len()) == reach;
    lemma_rounds_within(start, acts, r, flags, n);
    lemma_rounds_keep(start, acts, r, n);
    lemma_steady(reach, acts, acts.len(), n);
}

proof fn lemma_rounds_within(start: ReachView, acts: Seq<RActionView>, r: nat, flags: Seq<bool>, n: nat)
    requires
        acts_below(acts, n),
        start.reached.len() == n,
        flags.len() == n,
        forall|i: int| 0 <= i < n && start.reached[i] ==> #[trigger] flags[i],
        forall|a: int| 0 <= a < acts.len() && all_set(flags, (#[trigger] acts[a]).pre) ==> flags[acts[a].add as int],
    ensures
        start.rounds(acts, r).reached.len() == n,
        forall|i: int| 0 <= i < n && start.rounds(acts, r).reached[i] ==> #[trigger] flags[i],
    decreases r,
{
    if r > 0 {
        lemma_rounds_within(start, acts, (r - 1) as nat, flags, n);
        lemma_within(start.rounds(acts, (r - 1) as nat), acts, acts.len(), flags, n);
    }
}

proof fn lemma_acts_keep(r: ReachView, acts: Seq<RActionView>, k: nat, n: nat)
    requires
        k <= acts.len(),
        acts_below(acts, n),
        r.reached.len() == n,
        r.achiever.len() == n,
    ensures
        r.with_acts(acts, k).reached.len() == n,
        r.with_acts(acts, k).achiever.len() == n,
        forall|i: int| 0 <= i < n && r.reached[i] ==> #[trigger] r.with_acts(acts, k).reached[i],
    decreases k,
{
    if k > 0 {
        lemma_acts_keep(r, acts, (k - 1) as nat, n);
    }
}

proof fn lemma_rounds_keep(start: ReachView, acts: Seq<RActionView>, r: nat, n: nat)
    requires
        acts_below(acts, n),
        start.reached.len() == n,
        start.achiever.len() == n,
    ensures
        start.rounds(acts, r).reached.len() == n,
        start.rounds(acts, r).achiever.len() == n,
        forall|i: int| 0 <= i < n && start.reached[i] ==> #[trigger] start.rounds(acts, r).reached[i],
    decreases r,
{
    if r > 0 {
        lemma_rounds_keep(start, acts, (r - 1) as nat, n);
        lemma_acts_keep(start.rounds(acts, (r - 1) as nat), acts, acts.len(), n);
    }
}

/// Where a round of `k` actions changes nothing, no action of them does.
proof fn lemma_steady(r: ReachView, acts: Seq<RActionView>, k: nat, n: nat)
    requires
        k <= acts.len(),
        acts_below(acts, n),
        r.reached.len() == n,
        r.achiever.len() == n,
        r.with_acts(acts, k) == r,
    ensures
        forall|a: int| 0 <= a < k && all_set(r.reached, (#[trigger] acts[a]).pre) ==> r.reached[acts[a].add as int],
    decreases k,
{
    if k > 0 {
        let before = r.with_acts(acts, (k - 1) as nat);
        lemma_acts_keep(r, acts, (k - 1) as nat, n);
        let a = acts[k - 1];
        assert forall|i: int| 0 <= i < n implies before.reached[i] == r.reached[i] by {
            if before.reached[i] && !r.reached[i] {
                assert(before.with_act(acts, k - 1).reached[i]);
            }
        }
        assert(before.reached =~= r.reached);
        if !before.reached[a.add as int] && all_set(before.reached, a.pre) {
            assert(r.with_acts(acts, k).reached[a.add as int]);
        }
        assert(before.with_act(acts, k - 1) == before);
        lemma_steady(r, acts, (k - 1) as nat, n);
    }
}

/// Whether all facts of a list are set.
fn all_hold(flags: &Vec<bool>, facts: &Vec<usize>) -> (res: bool)
    requires
        below(facts@, flags@.len()),
    ensures
        res == all_set(flags@, facts@),
{
    let mut i: usize = 0;
    while i < facts.len()
        invariant
            below(facts@, flags@.len()),
            i <= facts@.len(),
            forall|k: int| 0 <= k < i ==> flags@[#[trigger] facts@[k] as int],
        decreases facts@.len() - i,
    {
        assert(facts@[i as int] < flags@.len());
        if !flags[facts[i]] {
            assert(!flags@[facts@[i as int] as int]);
            return false;
        }
        i = i + 1;
    }
    true
}

/// Saturated relaxed reachability from `state` over `relaxed`, recording the
/// first achiever of each newly reached fact. Facts true in `state` have no
/// achiever.
pub fn saturate(state: &Vec<bool>, relaxed: &Vec<RAction>, nfacts: usize) -> (res: Reach)
    requires
        state@.len() <= nfacts,
        acts_below(relaxed_views(relaxed@), nfacts as nat),
    ensures
        res@.reached.len() == nfacts,
        res@.achiever.len() == nfacts,
        is_saturated(state@, relaxed_views(relaxed@), nfacts as nat, res@),
{
    let ghost acts = relaxed_views(relaxed@);
    let ghost n = nfacts as nat;
    let mut reach = Reach { reached: Vec::new(), achiever: Vec::new() };
    let mut i: usize = 0;
    while i < nfacts
        invariant
            state@.len() <= nfacts,
            i <= nfacts,
            reach.reached@.len() == i,
            reach.achiever@.len() == i,
            forall|k: int| 0 <= k < i ==> #[trigger] reach.reached@[k] == (k < state@.len() && state@[k]),
            forall|k: int| 0 <= k < i ==> (#[trigger] reach.achiever@[k]) is None,
        decreases nfacts - i,
    {
        reach.reached.push(i < state.len() && state[i]);
        reach.achiever.push(None);
        i = i + 1;
    }
    let ghost start = seed(state@, n);
    assert(reach@ =~= start);
    let ghost mut r: nat = 0;
    loop
        invariant
            nfacts == n,
            acts == relaxed_views(relaxed@),
            acts_below(acts, n),
            reach@.reached.len() == n,
            reach@.achiever.len() == n,
            reach@ == start.rounds(acts, r),
        ensures
            reach@.reached.len() == n,
            reach@.achiever.len() == n,
            reach@ == start.rounds(acts, r),
            reach@.with_acts(acts, acts.len()) == reach@,
        decreases open_flags(reach@.reached),
    {
        let ghost before = reach@;
        let mut changed = false;
        let mut a: usize = 0;
        while a < relaxed.len()
            invariant
                nfacts == n,
                acts == relaxed_views(relaxed@),
                acts_below(acts, n),
                a <= relaxed@.len(),
                reach@.reached.len() == n,
                reach@.achiever.len() == n,
                reach@ == before.with_acts(acts, a as nat),
                !changed ==> reach@ == before,
                changed ==> open_flags(reach@.reached) < open_flags(before.reached),
            decreases relaxed@.len() - a,
        {
            let action = &relaxed[a];
            assert(acts[a as int] == action@);
            if !reach.reached[action.add] && all_hold(&reach.reached, &action.pre) {
                proof {
                    lemma_open_flags(reach.reached@, action.add as int);
                }
                reach.reached.set(action.add, true);
                reach.achiever.set(action.add, Some(a));
                changed = true;
            }
            a = a + 1;
        }
        proof {
            r = r + 1;
        }
        if !changed {
            proof {
                r = (r - 1) as nat;
            }
            break;
        }
    }
    proof {
        assert(reach@ == start.rounds(acts, r) && reach@.with_acts(acts, acts.len()) == reach@);
    }
    reach
}

/// How a relaxed plan gets the facts: those of the state are free, the others
/// come by their achievers.
pub open spec fn gap_means(reach: ReachView, state: Seq<bool>, acts: Seq<RActionView>) -> spec_fn(usize) -> Means<usize> {
    |f: usize|
        if state[f as int] {
            Means::Free
        } else {
            match reach.achiever[f as int] {
                Some(a) => Means::By(a as int, acts[a as int].pre),
                None => Means::Nothing,
            }
        }
}

/// Whether a list holds the facts of the state among the facts of a relaxed plan,
/// each once.
pub open spec fn are_base(state: Seq<bool>, list: Seq<usize>, base: Seq<usize>) -> bool {
    &&& base.no_duplicates()
    &&& forall|f: usize| #[trigger] base.contains(f) <==> list.contains(f) && state[f as int]
}

/// What extraction finds: the number of actions of a relaxed plan for the goals and
/// the facts of the state that it rests on.
pub open spec fn is_extraction(
    reach: ReachView,
    state: Seq<bool>,
    acts: Seq<RActionView>,
    goals: Seq<usize>,
    count: nat,
    base: Seq<usize>,
) -> bool {
    let means = gap_means(reach, state, acts);
    exists|list: Seq<usize>, ops: Seq<usize>| #[trigger]
        is_relaxed_plan(goals, means, list, ops) && count == ops.len() && are_base(state, list, base)
}

/// Whether a needed fact cannot be had.
pub open spec fn is_dead_end(reach: ReachView, state: Seq<bool>, acts: Seq<RActionView>, goals: Seq<usize>) -> bool {
    let means = gap_means(reach, state, acts);
    exists|list: Seq<usize>| #[trigger] all_needed(goals, means, list) && list.len() > 0 && means(list.last()) is Nothing
}

/// Whether the achievers are actions.
pub open spec fn achievers_in(reach: ReachView, acts: Seq<RActionView>) -> bool {
    forall|i: int| 0 <= i < reach.achiever.len() ==> (#[trigger] reach.achiever[i] matches Some(a) ==> a < acts.len())
}

proof fn lemma_acts_in(r: ReachView, acts: Seq<RActionView>, k: nat)
    requires
        k <= acts.len() <= usize::MAX,
        r.reached.len() == r.achiever.len(),
        acts_below(acts, r.achiever.len()),
        achievers_in(r, acts),
    ensures
        achievers_in(r.with_acts(acts, k), acts),
    decreases k,
{
    if k > 0 {
        lemma_acts_in(r, acts, (k - 1) as nat);
        lemma_acts_keep(r, acts, (k - 1) as nat, r.achiever.len());
    }
}

proof fn lemma_rounds_in(start: ReachView, acts: Seq<RActionView>, r: nat)
    requires
        acts.len() <= usize::MAX,
        start.reached.len() == start.achiever.len(),
        acts_below(acts, start.achiever.len()),
        achievers_in(start, acts),
    ensures
        achievers_in(start.rounds(acts, r), acts),
    decreases r,
{
    if r > 0 {
        lemma_rounds_keep(start, acts, (r - 1) as nat, start.achiever.len());
        lemma_rounds_in(start, acts, (r - 1) as nat);
        lemma_acts_in(start.rounds(acts, (r - 1) as nat), acts, acts.len());
    }
}

/// What saturation records are actions.
pub proof fn lemma_saturated_in(state: Seq<bool>, acts: Seq<RActionView>, n: nat, reach: ReachView)
    requires
        acts.len() <= usize::MAX,
        acts_below(acts, n),
        is_saturated(state, acts, n, reach),
    ensures
        achievers_in(reach, acts),
{
    let r = choose|r: nat| reach == #[trigger] seed(state, n).rounds(acts, r) && reach.with_acts(acts, acts.len()) == reach;
    lemma_rounds_in(seed(state, n), acts, r);
}

/// Greedy FF relaxed-plan extraction in one fixpoint. Returns the number of
/// distinct relaxed actions chosen and the seed-state facts the plan bottoms out
/// on, each once. `None` if a goal is unreachable (no achiever and not in the
/// seed state).
pub fn extract(reach: &Reach, state: &Vec<bool>, goals: &Vec<usize>, relaxed: &Vec<RAction>) -> (res: Option<(usize, Vec<usize>)>)
    requires
        reach@.achiever.len() == state@.len(),
        below(goals@, state@.len()),
        acts_below(relaxed_views(relaxed@), state@.len()),
        achievers_in(reach@, relaxed_views(relaxed@)),
    ensures
        match res {
            Some((count, base)) => is_extraction(reach@, state@, relaxed_views(relaxed@), goals@, count as nat, base@) && below(
                base@,
                state@.len(),
            ),
            None => is_dead_end(reach@, state@, relaxed_views(relaxed@), goals@),
        },
{
    let ghost acts = relaxed_views(relaxed@);
    let ghost n = state@.len();
    let ghost means = gap_means(reach@, state@, acts);
    let ghost target = goals@;
    let mut queue = copy_vec(goals);
    let mut done: Vec<bool> = Vec::new();
    while done.len() < state.len()
        invariant
            done@.len() <= state@.len(),
            forall|k: int| 0 <= k < done@.len() ==> !#[trigger] done@[k],
        decreases state@.len() - done@.len(),
    {
        done.push(false);
    }
    let mut ops: Vec<usize> = Vec::new();
    let mut base: Vec<usize> = Vec::new();
    let ghost mut list: Seq<usize> = seq![];
    proof {
        assert forall|k: int| 0 <= k < queue@.len() implies wanted(target, means, list, #[trigger] queue@[k]) by {
            assert(target[k] == queue@[k]);
        }
        assert forall|k: int| 0 <= k < target.len() implies list.contains(#[trigger] target[k]) || queue@.contains(target[k]) by {
            assert(queue@[k] == target[k]);
        }
    }
    while queue.len() > 0
        invariant
            n == state@.len(),
            acts == relaxed_views(relaxed@),
            means == gap_means(reach@, state@, acts),
            target == goals@,
            reach@.achiever.len() == n,
            acts_below(acts, n),
            achievers_in(reach@, acts),
            done@.len() == n,
            below(queue@, n),
            below(base@, n),
            forall|k: int| 0 <= k < queue@.len() ==> wanted(target, means, list, #[trigger] queue@[k]),
            forall|k: int| 0 <= k < target.len() ==> list.contains(#[trigger] target[k]) || queue@.contains(target[k]),
            all_needed(target, means, list),
            forall|k: int| 0 <= k < list.len() ==> half_served(means, list, queue@, ops@, #[trigger] list[k]),
            forall|f: usize| f < n ==> (#[trigger] done@[f as int] == list.contains(f)),
            forall|k: int| 0 <= k < list.len() ==> #[trigger] list[k] < n,
            ops@.no_duplicates(),
            forall|k: int| 0 <= k < ops@.len() ==> is_chosen(means, list, #[trigger] ops@[k]),
            are_base(state@, list, base@),
        decreases open_flags(done@), queue@.len(),
    {
        let ghost before = queue@;
        let ghost ops_before = ops@;
        let ghost base_before = base@;
        let g = queue.pop().unwrap();
        proof {
            assert(g == before[before.len() - 1]);
            assert(wanted(target, means, list, before[before.len() - 1]));
            assert forall|f: usize| before.contains(f) implies f == g || queue@.contains(f) by {
                let k = choose|k: int| 0 <= k < before.len() && before[k] == f;
                if k < before.len() - 1 {
                    assert(queue@[k] == f);
                }
            }
            assert forall|k: int| 0 <= k < queue@.len() implies #[trigger] queue@[k] < n && wanted(target, means, list, queue@[k]) by {
                assert(queue@[k] == before[k]);
            }
        }
        if done[g] {
            proof {
                assert(list.contains(g));
                assert forall|k: int| 0 <= k < list.len() implies half_served(means, list, queue@, ops@, #[trigger] list[k]) by {
                    assert(half_served(means, list, before, ops@, list[k]));
                }
            }
            continue;
        }
        let ghost more = list.push(g);
        proof {
            lemma_longer(target, means, list, g);
            lemma_open_flags(done@, g as int);
            assert(more.last() == g);
            assert forall|f: usize| more.contains(f) implies list.contains(f) || f == g by {
                let k = choose|k: int| 0 <= k < more.len() && more[k] == f;
                if k < list.len() {
                    assert(list[k] == f);
                }
            }
        }
        let ghost done_before = done@;
        done.set(g, true);
        proof {
            assert forall|f: usize| f < n implies (#[trigger] done@[f as int] == more.contains(f)) by {
                if f != g {
                    assert(done@[f as int] == done_before[f as int]);
                }
            }
            assert forall|k: int| 0 <= k < queue@.len() implies wanted(target, means, more, #[trigger] queue@[k]) by {
                assert(wanted(target, means, list, queue@[k]));
            }
        }
        if state[g] {
            proof {
                if base_before.contains(g) {
                    assert(list.contains(g));
                }
            }
            base.push(g);
            proof {
                assert(base@[base_before.len() as int] == g);
                assert forall|f: usize| #[trigger] base@.contains(f) <==> more.contains(f) && state@[f as int] by {
                    if base@.contains(f) && f != g {
                        let k = choose|k: int| 0 <= k < base@.len() && base@[k] == f;
                        assert(base_before[k] == f);
                        assert(base_before.contains(f));
                    }
                    if more.contains(f) && state@[f as int] && f != g {
                        assert(base_before.contains(f));
                        let k = choose|k: int| 0 <= k < base_before.len() && base_before[k] == f;
                        assert(base@[k] == f);
                    }
                }
                assert forall|k: int| 0 <= k < more.len() implies half_served(means, more, queue@, ops@, #[trigger] more[k]) by {
                    if k < list.len() {
                        assert(half_served(means, list, before, ops@, list[k]));
                    }
                }
                assert forall|k: int| 0 <= k < ops@.len() implies is_chosen(means, more, #[trigger] ops@[k]) by {
                    assert(is_chosen(means, list, ops@[k]));
                }
                list = more;
            }
            continue;
        }
        match reach.achiever[g] {
            None => {
                assert(means(more.last()) is Nothing);
                return None;
            },
            Some(a) => {
                assert(reach@.achiever[g as int] == Some(a));
                assert(acts[a as int] == relaxed@[a as int]@);
                let ghost body = acts[a as int].pre;
                assert(means(g) == Means::By(a as int, body));
                note(&mut ops, a);
                let ghost rest = queue@;
                let mut k: usize = 0;
                while k < relaxed[a].pre.len()
                    invariant
                        a < relaxed@.len(),
                        body == relaxed@[a as int].pre@,
                        below(body, n),
                        below(rest, n),
                        k <= body.len(),
                        queue@ == rest + body.take(k as int),
                    decreases body.len() - k,
                {
                    assert(body[k as int] < n);
                    queue.push(relaxed[a].pre[k]);
                    assert(rest + body.take(k + 1) =~= (rest + body.take(k as int)).push(body[k as int]));
                    k = k + 1;
                }
                proof {
                    assert(body.take(k as int) =~= body);
                    let w = queue@;
                    assert forall|f: usize| rest.contains(f) implies w.contains(f) by {
                        let j = choose|j: int| 0 <= j < rest.len() && rest[j] == f;
                        assert(w[j] == f);
                    }
                    assert forall|j: int| 0 <= j < w.len() implies #[trigger] w[j] < n && wanted(target, means, more, w[j]) by {
                        if j < rest.len() {
                            assert(w[j] == rest[j]);
                            assert(wanted(target, means, list, rest[j]));
                        } else {
                            assert(w[j] == body[j - rest.len()]);
                            assert(body.contains(w[j]));
                            assert(more[list.len() as int] == g);
                            assert(needs(means, more, list.len() as int, w[j]));
                        }
                    }
                    assert forall|j: int| 0 <= j < target.len() implies more.contains(#[trigger] target[j]) || w.contains(target[j]) by {
                        if !list.contains(target[j]) {
                            assert(before.contains(target[j]));
                        }
                    }
                    assert forall|j: int| 0 <= j < more.len() implies half_served(means, more, w, ops@, #[trigger] more[j]) by {
                        if j < list.len() {
                            assert(half_served(means, list, before, ops_before, list[j]));
                            assert(more[j] == list[j]);
                            match means(more[j]) {
                                Means::By(o, needed) => {
                                    let m = choose|m: int| 0 <= m < ops_before.len() && #[trigger] ops_before[m] == o;
                                    assert(ops@[m] == o);
                                    assert forall|x: int| 0 <= x < needed.len() implies more.contains(#[trigger] needed[x]) || w.contains(needed[x]) by {
                                        if !list.contains(needed[x]) {
                                            assert(before.contains(needed[x]));
                                        }
                                    }
                                },
                                _ => {},
                            }
                        } else {
                            assert forall|x: int| 0 <= x < body.len() implies w.contains(#[trigger] body[x]) by {
                                assert(w[rest.len() + x] == body[x]);
                            }
                            let m = choose|m: int| 0 <= m < ops@.len() && ops@[m] == a;
                            assert(ops@[m] == a as int);
                        }
                    }
                    assert forall|m: int| 0 <= m < ops@.len() implies is_chosen(means, more, #[trigger] ops@[m]) by {
                        if m < ops_before.len() {
                            assert(is_chosen(means, list, ops_before[m]));
                        } else {
                            assert(more[list.len() as int] == g);
                        }
                    }
                    assert forall|f: usize| #[trigger] base@.contains(f) <==> more.contains(f) && state@[f as int] by {
                        if base@.contains(f) {
                            assert(list.contains(f));
                        }
                    }
                    list = more;
                }
            },
        }
    }
    proof {
        assert(is_relaxed_plan(target, means, list, ops@)) by {
            assert forall|k: int| 0 <= k < list.len() implies is_served(means, list, ops@, #[trigger] list[k]) by {
                assert(half_served(means, list, queue@, ops@, list[k]));
            }
        }
    }
    Some((ops.len(), base))
}

/// Whether each reached fact is of the state or has an achiever whose conditions
/// are reached.
spec fn is_supported(state: Seq<bool>, acts: Seq<RActionView>, r: ReachView) -> bool {
    forall|f: int|
        0 <= f < r.reached.len() && #[trigger] r.reached[f] ==> (f < state.len() && state[f]) || (r.achiever[f] matches Some(a) && a < acts.len()
            && all_set(r.reached, acts[a as int].pre))
}

proof fn lemma_acts_support(state: Seq<bool>, r: ReachView, acts: Seq<RActionView>, k: nat, n: nat)
    requires
        k <= acts.len() <= usize::MAX,
        acts_below(acts, n),
        r.reached.len() == n,
        r.achiever.len() == n,
        is_supported(state, acts, r),
    ensures
        is_supported(state, acts, r.with_acts(acts, k)),
    decreases k,
{
    if k > 0 {
        lemma_acts_support(state, r, acts, (k - 1) as nat, n);
        lemma_acts_keep(r, acts, (k - 1) as nat, n);
        let before = r.with_acts(acts, (k - 1) as nat);
        let after = r.with_acts(acts, k);
        assert forall|f: int| 0 <= f < after.reached.len() && #[trigger] after.reached[f] implies (f < state.len() && state[f]) || (
        after.achiever[f] matches Some(a) && a < acts.len() && all_set(after.reached, acts[a as int].pre)) by {
            if before.reached[f] {
                if !(f < state.len() && state[f]) {
                    let a = before.achiever[f]->0;
                    assert(all_set(before.reached, acts[a as int].pre));
                    assert forall|i: int| 0 <= i < acts[a as int].pre.len() implies after.reached[#[trigger] acts[a as int].pre[i] as int] by {
                        assert(before.reached[acts[a as int].pre[i] as int]);
                    }
                }
            } else {
                assert(f == acts[k - 1].add);
                assert forall|i: int| 0 <= i < acts[k - 1].pre.len() implies after.reached[#[trigger] acts[k - 1].pre[i] as int] by {
                    assert(before.reached[acts[k - 1].pre[i] as int]);
                }
            }
        }
    }
}

proof fn lemma_rounds_support(state: Seq<bool>, acts: Seq<RActionView>, r: nat, n: nat)
    requires
        acts.len() <= usize::MAX,
        acts_below(acts, n),
    ensures
        is_supported(state, acts, seed(state, n).rounds(acts, r)),
    decreases r,
{
    if r > 0 {
        lemma_rounds_support(state, acts, (r - 1) as nat, n);
        lemma_rounds_keep(seed(state, n), acts, (r - 1) as nat, n);
        lemma_acts_support(state, seed(state, n).rounds(acts, (r - 1) as nat), acts, acts.len(), n);
    }
}

/// Goals that are reached are no dead end.
proof fn lemma_no_dead_end(state: Seq<bool>, acts: Seq<RActionView>, n: nat, reach: ReachView, goals: Seq<usize>)
    requires
        acts.len() <= usize::MAX,
        state.len() == n,
        acts_below(acts, n),
        is_saturated(state, acts, n, reach),
        below(goals, n),
        all_set(reach.reached, goals),
    ensures
        !is_dead_end(reach, state, acts, goals),
{
    let r = choose|r: nat| reach == #[trigger] seed(state, n).rounds(acts, r) && reach.with_acts(acts, acts.len()) == reach;
    lemma_rounds_support(state, acts, r, n);
    lemma_rounds_keep(seed(state, n), acts, r, n);
    let means = gap_means(reach, state, acts);
    if is_dead_end(reach, state, acts, goals) {
        let list = choose|list: Seq<usize>| #[trigger]
            all_needed(goals, means, list) && list.len() > 0 && means(list.last()) is Nothing;
        lemma_needed_reached(state, acts, n, reach, goals, list, list.len() - 1);
        let f = list.last() as int;
        assert(reach.reached[f]);
    }
}

proof fn lemma_needed_reached(state: Seq<bool>, acts: Seq<RActionView>, n: nat, reach: ReachView, goals: Seq<usize>, list: Seq<usize>, i: int)
    requires
        state.len() == n,
        reach.reached.len() == n,
        reach.achiever.len() == n,
        acts_below(acts, n),
        is_supported(state, acts, reach),
        below(goals, n),
        all_set(reach.reached, goals),
        all_needed(goals, gap_means(reach, state, acts), list),
        0 <= i < list.len(),
    ensures
        list[i] < n,
        reach.reached[list[i] as int],
    decreases i,
{
    let means = gap_means(reach, state, acts);
    assert(crate::relaxed_plan::is_needed(goals, means, list, i));
    if goals.contains(list[i]) {
        let k = choose|k: int| 0 <= k < goals.len() && goals[k] == list[i];
        assert(reach.reached[goals[k] as int]);
    } else {
        let j = choose|j: int| 0 <= j < i && #[trigger] needs(means, list, j, list[i]);
        lemma_needed_reached(state, acts, n, reach, goals, list, j);
        let f = list[j] as int;
        assert(reach.reached[f]);
        let a = reach.achiever[f]->0;
        let body = acts[a as int].pre;
        let k = choose|k: int| 0 <= k < body.len() && body[k] == list[i];
        assert(below(body, n));
        assert(reach.reached[body[k] as int]);
    }
}

/// What the actions reach from a state.
pub open spec fn saturation(state: Seq<bool>, acts: Seq<RActionView>, n: nat) -> ReachView {
    choose|r: ReachView| is_saturated(state, acts, n, r)
}

/// There is only one such.
pub proof fn saturation_is_unique(state: Seq<bool>, acts: Seq<RActionView>, n: nat, r: ReachView)
    requires
        is_saturated(state, acts, n, r),
    ensures
        r == saturation(state, acts, n),
{
    let s = saturation(state, acts, n);
    let start = seed(state, n);
    let i = choose|i: nat| r == #[trigger] start.rounds(acts, i) && r.with_acts(acts, acts.len()) == r;
    let j = choose|j: nat| s == #[trigger] start.rounds(acts, j) && s.with_acts(acts, acts.len()) == s;
    if i <= j {
        lemma_round_stays(start, acts, i, j);
    } else {
        lemma_round_stays(start, acts, j, i);
    }
}

proof fn lemma_round_stays(start: ReachView, acts: Seq<RActionView>, i: nat, j: nat)
    requires
        i <= j,
        start.rounds(acts, i).with_acts(acts, acts.len()) == start.rounds(acts, i),
    ensures
        start.rounds(acts, j) == start.rounds(acts, i),
    decreases j,
{
    if i < j {
        lemma_round_stays(start, acts, i, (j - 1) as nat);
    }
}

/// A set of facts after a step, applied without relaxation.
pub open spec fn applied(flags: Seq<bool>, step: ResolvedView) -> Seq<bool> {
    Seq::new(flags.len(), |f: int| step.add.contains(f as usize) || (flags[f] && !step.del.contains(f as usize)))
}

/// The state after the first `i` steps, each applied in what is reached before it.
pub open spec fn state_after(init: Seq<bool>, acts: Seq<RActionView>, steps: Seq<ResolvedView>, i: nat) -> Seq<bool>
    decreases i,
{
    if i == 0 {
        init
    } else {
        applied(reach_after(init, acts, steps, (i - 1) as nat).reached, steps[i - 1])
    }
}

/// What is reached after the first `i` steps.
pub open spec fn reach_after(init: Seq<bool>, acts: Seq<RActionView>, steps: Seq<ResolvedView>, i: nat) -> ReachView
    decreases i,
{
    if i == 0 {
        saturation(init, acts, init.len())
    } else {
        saturation(applied(reach_after(init, acts, steps, (i - 1) as nat).reached, steps[i - 1]), acts, init.len())
    }
}

/// Whether the steps can be taken in order and the goal be reached behind them.
pub open spec fn is_feasible(init: Seq<bool>, acts: Seq<RActionView>, steps: Seq<ResolvedView>, goal: Seq<usize>) -> bool {
    &&& forall|i: int|
        0 <= i < steps.len() ==> all_set(reach_after(init, acts, steps, i as nat).reached, (#[trigger] steps[i]).pre)
    &&& all_set(reach_after(init, acts, steps, steps.len()).reached, goal)
}

/// What has to hold before a step: the facts that its additions do not give, and
/// its own conditions.
pub open spec fn goals_before(base: Seq<usize>, step: ResolvedView) -> Seq<usize> {
    base.filter(|f: usize| !step.add.contains(f)) + step.pre
}

/// Whether `total` is the number of relaxed actions that fill the gaps from the
/// first step to behind step `i`, where the goals are to hold.
pub open spec fn is_gap_total(init: Seq<bool>, acts: Seq<RActionView>, steps: Seq<ResolvedView>, i: nat, goals: Seq<usize>, total: nat) -> bool
    decreases i,
{
    exists|count: nat, base: Seq<usize>, rest: nat|
        {
            &&& #[trigger] is_extraction(
                reach_after(init, acts, steps, i),
                state_after(init, acts, steps, i),
                acts,
                goals,
                count,
                base,
            )
            &&& total == count + rest
            &&& #[trigger] is_rest(rest)
            &&& if i == 0 {
                rest == 0
            } else {
                is_gap_total(init, acts, steps, (i - 1) as nat, goals_before(base, steps[i - 1]), rest)
            }
        }
}

/// A number of actions of earlier gaps.
pub open spec fn is_rest(rest: nat) -> bool {
    true
}

/// Whether the steps speak of facts below `n`.
pub open spec fn steps_below(steps: Seq<ResolvedView>, n: nat) -> bool {
    forall|i: int|
        0 <= i < steps.len() ==> below((#[trigger] steps[i]).pre, n) && below(steps[i].add, n) && below(steps[i].del, n)
}

/// The mathematical forms of a list of steps.
pub open spec fn resolved_views(steps: Seq<&ResolvedStep>) -> Seq<ResolvedView> {
    Seq::new(steps.len(), |i: int| steps[i]@)
}

fn holds_fact(facts: &Vec<usize>, f: usize) -> (res: bool)
    ensures
        res == facts@.contains(f),
{
    let mut i: usize = 0;
    while i < facts.len()
        invariant
            i <= facts@.len(),
            forall|k: int| 0 <= k < i ==> facts@[k] != f,
        decreases facts@.len() - i,
    {
        if facts[i] == f {
            return true;
        }
        i = i + 1;
    }
    false
}

/// Applies a step without relaxation.
fn apply_step(flags: &Vec<bool>, step: &ResolvedStep) -> (res: Vec<bool>)
    ensures
        res@ == applied(flags@, step@),
{
    let mut res: Vec<bool> = Vec::new();
    let mut f: usize = 0;
    while f < flags.len()
        invariant
            f <= flags@.len(),
            res@.len() == f,
            forall|k: int| 0 <= k < f ==> #[trigger] res@[k] == applied(flags@, step@)[k],
        decreases flags@.len() - f,
    {
        res.push(holds_fact(&step.add, f) || (flags[f] && !holds_fact(&step.del, f)));
        f = f + 1;
    }
    assert(res@ =~= applied(flags@, step@));
    res
}

/// What has to hold before a step.
fn earlier_goals(base: &Vec<usize>, step: &ResolvedStep) -> (res: Vec<usize>)
    ensures
        res@ == goals_before(base@, step@),
{
    let ghost keep = |f: usize| !step@.add.contains(f);
    let mut res: Vec<usize> = Vec::new();
    let mut i: usize = 0;
    assert(base@.take(0).filter(keep) =~= seq![]);
    while i < base.len()
        invariant
            keep == (|f: usize| !step@.add.contains(f)),
            i <= base@.len(),
            res@ == base@.take(i as int).filter(keep),
        decreases base@.len() - i,
    {
        proof {
            let longer = base@.take(i + 1);
            assert(longer.drop_last() =~= base@.take(i as int));
            assert(longer.last() == base@[i as int]);
            reveal(Seq::filter);
        }
        if !holds_fact(&step.add, base[i]) {
            res.push(base[i]);
        }
        i = i + 1;
    }
    assert(base@.take(i as int) =~= base@);
    let ghost kept = res@;
    let mut k: usize = 0;
    assert(kept + step.pre@.take(0) =~= kept);
    while k < step.pre.len()
        invariant
            k <= step.pre@.len(),
            res@ == kept + step.pre@.take(k as int),
        decreases step.pre@.len() - k,
    {
        res.push(step.pre[k]);
        assert(kept + step.pre@.take(k + 1) =~= (kept + step.pre@.take(k as int)).push(step.pre@[k as int]));
        k = k + 1;
    }
    assert(step.pre@.take(k as int) =~= step.pre@);
    res
}

proof fn lemma_filter_in(s: Seq<usize>, p: spec_fn(usize) -> bool, x: usize)
    requires
        s.filter(p).contains(x),
    ensures
        s.contains(x),
        p(x),
    decreases s.len(),
{
    reveal(Seq::filter);
    if s.len() > 0 {
        let front = s.drop_last();
        let kept = front.filter(p);
        if p(s.last()) {
            let k = choose|k: int| 0 <= k < s.filter(p).len() && s.filter(p)[k] == x;
            if k < kept.len() {
                assert(kept[k] == x);
                assert(kept.contains(x));
                lemma_filter_in(front, p, x);
                let j = choose|j: int| 0 <= j < front.len() && front[j] == x;
                assert(s[j] == x);
            } else {
                assert(s[s.len() - 1] == x);
            }
        } else {
            lemma_filter_in(front, p, x);
            let j = choose|j: int| 0 <= j < front.len() && front[j] == x;
            assert(s[j] == x);
        }
    }
}

/// What has to hold before a step is reached there.
proof fn lemma_goals_before(flags: Seq<bool>, step: ResolvedView, list: Seq<usize>, base: Seq<usize>)
    requires
        below(step.pre, flags.len()),
        below(base, flags.len()),
        all_set(flags, step.pre),
        are_base(applied(flags, step), list, base),
    ensures
        below(goals_before(base, step), flags.len()),
        all_set(flags, goals_before(base, step)),
{
    let keep = |f: usize| !step.add.contains(f);
    let kept = base.filter(keep);
    let all = goals_before(base, step);
    assert forall|i: int| 0 <= i < all.len() implies #[trigger] all[i] < flags.len() && flags[all[i] as int] by {
        if i < kept.len() {
            assert(all[i] == kept[i]);
            assert(kept.contains(kept[i]));
            lemma_filter_in(base, keep, kept[i]);
            let j = choose|j: int| 0 <= j < base.len() && base[j] == kept[i];
            assert(base[j] < flags.len());
            assert(applied(flags, step)[kept[i] as int]);
        } else {
            assert(all[i] == step.pre[i - kept.len()]);
        }
    }
}

/// Estimates one linearization: the total relaxed plan steps to fill the gaps
/// between the non-relaxed steps. `None` if infeasible (some step's precondition
/// or the goal is unreachable in the relevant fixpoint).
#[verifier::rlimit(60)]
pub fn estimate_linearization(
    init: &Vec<bool>,
    init_reach: &Reach,
    steps: &Vec<&ResolvedStep>,
    goal: &Vec<usize>,
    relaxed: &Vec<RAction>,
) -> (res: Option<u128>)
    requires
        is_saturated(init@, relaxed_views(relaxed@), init@.len(), init_reach@),
        acts_below(relaxed_views(relaxed@), init@.len()),
        steps_below(resolved_views(steps@), init@.len()),
        below(goal@, init@.len()),
    ensures
        match res {
            Some(total) => is_feasible(init@, relaxed_views(relaxed@), resolved_views(steps@), goal@) && is_gap_total(
                init@,
                relaxed_views(relaxed@),
                resolved_views(steps@),
                steps@.len(),
                goal@,
                total as nat,
            ),
            None => !is_feasible(init@, relaxed_views(relaxed@), resolved_views(steps@), goal@),
        },
{
    let ghost acts = relaxed_views(relaxed@);
    let ghost n = init@.len();
    let ghost sv = resolved_views(steps@);
    let nfacts = init.len();
    let count_of_steps = steps.len();
    let mut states: Vec<Vec<bool>> = Vec::new();
    let mut reaches: Vec<Reach> = Vec::new();
    states.push(copy_vec(init));
    reaches.push(Reach { reached: copy_vec(&init_reach.reached), achiever: copy_vec(&init_reach.achiever) });
    proof {
        saturation_is_unique(init@, acts, n, init_reach@);
        assert(reaches@[0]@ =~= init_reach@);
        let r = choose|r: nat| init_reach@ == #[trigger] seed(init@, n).rounds(acts, r) && init_reach@.with_acts(acts, acts.len()) == init_reach@;
        lemma_rounds_keep(seed(init@, n), acts, r, n);
    }
    let mut i: usize = 0;
    while i < steps.len()
        invariant
            nfacts == n,
            n == init@.len(),
            acts == relaxed_views(relaxed@),
            sv == resolved_views(steps@),
            acts_below(acts, n),
            steps_below(sv, n),
            i <= steps@.len(),
            states@.len() == i + 1,
            reaches@.len() == i + 1,
            forall|k: int|
                0 <= k <= i ==> (#[trigger] reaches@[k])@ == reach_after(init@, acts, sv, k as nat) && reaches@[k]@.reached.len() == n
                    && reaches@[k]@.achiever.len() == n,
            forall|k: int| 0 <= k <= i ==> (#[trigger] states@[k])@ == state_after(init@, acts, sv, k as nat) && states@[k]@.len() == n,
            forall|k: int| 0 <= k <= i ==> is_saturated(states@[k]@, acts, n, (#[trigger] reaches@[k])@),
            forall|k: int| 0 <= k < i ==> all_set(reaches@[k]@.reached, (#[trigger] sv[k]).pre),
        decreases steps@.len() - i,
    {
        let step = steps[i];
        assert(sv[i as int] == step@);
        assert(reaches@[i as int]@ == reach_after(init@, acts, sv, i as nat));
        if !all_hold(&reaches[i].reached, &step.pre) {
            assert(!all_set(reach_after(init@, acts, sv, i as nat).reached, sv[i as int].pre));
            return None;
        }
        let s = apply_step(&reaches[i].reached, step);
        let r = saturate(&s, relaxed, nfacts);
        proof {
            saturation_is_unique(s@, acts, n, r@);
        }
        states.push(s);
        reaches.push(r);
        i = i + 1;
    }
    assert(reaches@[i as int]@ == reach_after(init@, acts, sv, i as nat));
    if !all_hold(&reaches[count_of_steps].reached, goal) {
        return None;
    }
    proof {
        assert forall|k: int| 0 <= k < sv.len() implies all_set(reach_after(init@, acts, sv, k as nat).reached, (#[trigger] sv[k]).pre) by {
            assert(reaches@[k]@ == reach_after(init@, acts, sv, k as nat));
        }
    }
    Some(fill_gaps(&states, &reaches, steps, goal, relaxed, count_of_steps, Ghost(init@)))
}

/// The number of relaxed actions that fill the gaps up to behind step `i`.
fn fill_gaps(
    states: &Vec<Vec<bool>>,
    reaches: &Vec<Reach>,
    steps: &Vec<&ResolvedStep>,
    goals: &Vec<usize>,
    relaxed: &Vec<RAction>,
    i: usize,
    init: Ghost<Seq<bool>>,
) -> (res: u128)
    requires
        acts_below(relaxed_views(relaxed@), init@.len()),
        steps_below(resolved_views(steps@), init@.len()),
        i <= steps@.len(),
        states@.len() == steps@.len() + 1,
        reaches@.len() == steps@.len() + 1,
        forall|k: int|
            0 <= k <= i ==> (#[trigger] reaches@[k])@ == reach_after(init@, relaxed_views(relaxed@), resolved_views(steps@), k as nat)
                && reaches@[k]@.reached.len() == init@.len() && reaches@[k]@.achiever.len() == init@.len(),
        forall|k: int|
            0 <= k <= i ==> (#[trigger] states@[k])@ == state_after(init@, relaxed_views(relaxed@), resolved_views(steps@), k as nat)
                && states@[k]@.len() == init@.len(),
        forall|k: int| 0 <= k <= i ==> is_saturated(states@[k]@, relaxed_views(relaxed@), init@.len(), (#[trigger] reaches@[k])@),
        forall|k: int|
            0 <= k < i ==> all_set(
                reach_after(init@, relaxed_views(relaxed@), resolved_views(steps@), k as nat).reached,
                (#[trigger] resolved_views(steps@)[k]).pre,
            ),
        below(goals@, init@.len()),
        all_set(reaches@[i as int]@.reached, goals@),
    ensures
        is_gap_total(init@, relaxed_views(relaxed@), resolved_views(steps@), i as nat, goals@, res as nat),
        res <= (i + 1) * usize::MAX,
    decreases i,
{
    let ghost acts = relaxed_views(relaxed@);
    let ghost n = init@.len();
    let ghost sv = resolved_views(steps@);
    assert(reaches@[i as int]@ == reach_after(init@, acts, sv, i as nat));
    assert(states@[i as int]@ == state_after(init@, acts, sv, i as nat));
    proof {
        assert(relaxed.len() == acts.len());
        lemma_saturated_in(states@[i as int]@, acts, n, reaches@[i as int]@);
        lemma_no_dead_end(states@[i as int]@, acts, n, reaches@[i as int]@, goals@);
    }
    match extract(&reaches[i], &states[i], goals, relaxed) {
        None => 0,
        Some((count, base)) => {
            assert(is_extraction(reaches@[i as int]@, states@[i as int]@, acts, goals@, count as nat, base@));
            if i == 0 {
                assert(is_rest(0));
                return count as u128;
            }
            let before: usize = i - 1;
            let step = steps[before];
            let next = earlier_goals(&base, step);
            proof {
                assert(sv[i - 1] == step@);
                assert(reaches@[before as int]@ == reach_after(init@, acts, sv, before as nat));
                let means = gap_means(reaches@[i as int]@, states@[i as int]@, acts);
                let (list, ops) = choose|list: Seq<usize>, ops: Seq<usize>| #[trigger]
                    is_relaxed_plan(goals@, means, list, ops) && count == ops.len() && are_base(states@[i as int]@, list, base@);
                assert(states@[i as int]@ == applied(reaches@[before as int]@.reached, step@));
                lemma_goals_before(reaches@[before as int]@.reached, step@, list, base@);
            }
            let rest = fill_gaps(states, reaches, steps, &next, relaxed, before, init);
            proof {
                assert(is_rest(rest as nat));
                assert((before + 1) * usize::MAX + usize::MAX == (i + 1) * usize::MAX) by (nonlinear_arith)
                    requires
                        before + 1 == i,
                ;
                assert((i + 1) * usize::MAX <= (usize::MAX + 1) * usize::MAX) by (nonlinear_arith)
                    requires
                        i <= usize::MAX,
                ;
                assert((usize::MAX + 1) * usize::MAX <= u128::MAX) by (nonlinear_arith)
                    requires
                        0 <= usize::MAX <= 0xffff_ffff_ffff_ffff,
                ;
            }
            count as u128 + rest
        },
    }
}

} // verus!
