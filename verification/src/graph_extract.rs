//! Relaxed plans for the open conditions of a partial plan.

use vstd::prelude::*;

use crate::atom_table::{lemma_place, AtomTable};
use crate::bindings::{ground_matches, is_ground, Bindings};
use crate::formula::{forms, same_atom, Atom, AtomView, Formula, FormulaView};
use crate::flaws::{open_views, FormulaTime, OpenView};
use crate::graph_model::{atom_matches, resolved_atom, GraphView, Reading};
use crate::graph_plan::{plan_opens, plan_steps};
use crate::hvalue::{cost_sum, HeuristicValue, NO_COST};
use crate::plan::Plan;
use crate::plan_model::PlanView;
use crate::relaxed_plan::{all_needed, half_served, is_chosen, is_relaxed_plan, is_served, lemma_longer, needs, note, wanted, Means};
use crate::planning_graph::{atoms_of, resolve_atom, PlanningGraph};
use crate::step::{step_views, StepActionView};
use crate::terms::Term;
use crate::typing::TypeContext;

verus! {

/// The positive atoms of a list of formulas.
pub open spec fn positive_among(fs: Seq<FormulaView>, n: nat) -> Seq<AtomView>
    decreases fs, n,
{
    if n == 0 || n > fs.len() {
        seq![]
    } else {
        positive_among(fs, (n - 1) as nat) + positive_atoms(fs[n - 1])
    }
}

/// The positive (atomic) conjuncts of a formula.
pub open spec fn positive_atoms(f: FormulaView) -> Seq<AtomView>
    decreases f, 0nat,
{
    match f {
        FormulaView::Atom(a) => seq![a],
        FormulaView::Conjunction(cs) => positive_among(cs, cs.len()),
        _ => seq![],
    }
}

/// Whether an action adds an atom.
pub open spec fn adds(s: StepActionView, a: AtomView) -> bool {
    exists|k: int| 0 <= k < s.effects.len() && !(#[trigger] s.effects[k]).literal.negative && s.effects[k].literal.atom == a
}

/// The costs of the first `n` atoms and `cost`; none if one is out of reach.
pub open spec fn body_cost(g: GraphView, cost: u128, atoms: Seq<AtomView>, n: nat) -> Option<u128>
    decreases n,
{
    if n == 0 {
        Some(cost)
    } else {
        match body_cost(g, cost, atoms, (n - 1) as nat) {
            None => None,
            Some(c) => {
                let v = g.atom(atoms[n - 1]).add_cost;
                if v == NO_COST {
                    None
                } else {
                    Some(cost_sum(c, v))
                }
            },
        }
    }
}

/// What an action costs with what it needs.
pub open spec fn support_cost(g: GraphView, s: StepActionView) -> Option<u128> {
    let pre = positive_atoms(s.precondition);
    body_cost(g, s.cost as u128, pre, pre.len())
}

/// Whether a cost is below that of the best so far.
pub open spec fn cheaper(best: Option<(int, u128)>, c: u128) -> bool {
    match best {
        None => true,
        Some((_, b)) => c < b,
    }
}

/// The first of the cheapest among the first `n` actions that add an atom, with
/// its cost.
pub open spec fn cheapest(g: GraphView, steps: Seq<StepActionView>, a: AtomView, n: nat) -> Option<(int, u128)>
    decreases n,
{
    if n == 0 {
        None
    } else {
        let best = cheapest(g, steps, a, (n - 1) as nat);
        let s = steps[n - 1];
        match support_cost(g, s) {
            Some(c) => if adds(s, a) && cheaper(best, c) {
                Some((n - 1, c))
            } else {
                best
            },
            None => best,
        }
    }
}

/// Whether a real step of the plan adds an atom.
pub open spec fn step_adds(p: PlanView, a: AtomView) -> bool {
    exists|i: int| 0 <= i < p.steps.len() && !(#[trigger] p.steps[i]).action.is_synthetic() && adds(p.steps[i].action, a)
}

/// How a relaxed plan gets the atoms: free are those of no cost and, on reuse,
/// those that a step adds.
pub open spec fn means_of(g: GraphView, steps: Seq<StepActionView>, p: PlanView, reuse: bool) -> spec_fn(AtomView) -> Means<AtomView> {
    |a: AtomView|
        if g.atom(a).is_zero() || (reuse && step_adds(p, a)) {
            Means::Free
        } else {
            match cheapest(g, steps, a, steps.len()) {
                None => Means::Nothing,
                Some((i, _)) => Means::By(i, positive_atoms(steps[i].precondition)),
            }
        }
}

/// The cost of the first `n` actions of a list.
pub open spec fn actions_cost(steps: Seq<StepActionView>, ops: Seq<usize>, n: nat) -> u128
    decreases n,
{
    if n == 0 {
        0
    } else {
        cost_sum(actions_cost(steps, ops, (n - 1) as nat), steps[ops[n - 1] as int].cost as u128)
    }
}

/// The first of the cheapest among the first `n` reachable atoms that match a
/// lifted one.
pub open spec fn best_match(g: GraphView, r: Reading, a: AtomView, id: usize, n: nat) -> Option<int>
    decreases n,
{
    if n == 0 {
        None
    } else {
        let best = best_match(g, r, a, id, (n - 1) as nat);
        let c = g.atoms[n - 1].0;
        if atom_matches(r, a, id, c) && (best is None || g.atom(c).add_cost < g.atom(g.atoms[best->0].0).add_cost) {
            Some(n - 1)
        } else {
            best
        }
    }
}

/// The ground atom that stands for an atomic open condition.
pub open spec fn goal_of_open(g: GraphView, r: Reading, oc: OpenView) -> Option<AtomView> {
    match oc.condition {
        FormulaView::Atom(a) => {
            let whole = resolved_atom(r.classes, a, oc.step_id);
            if whole.ground() {
                Some(whole)
            } else {
                match best_match(g, r, a, oc.step_id, g.atoms.len()) {
                    Some(i) => Some(g.atoms[i].0),
                    None => None,
                }
            }
        },
        _ => None,
    }
}

/// The ground atoms that stand for the first `n` open conditions.
pub open spec fn goals_of(g: GraphView, r: Reading, opens: Seq<OpenView>, n: nat) -> Seq<AtomView>
    decreases n,
{
    if n == 0 {
        seq![]
    } else {
        let rest = goals_of(g, r, opens, (n - 1) as nat);
        match goal_of_open(g, r, opens[n - 1]) {
            Some(a) => rest.push(a),
            None => rest,
        }
    }
}

/// The mathematical forms of a list of atoms.
pub open spec fn atom_views(atoms: Seq<Atom>) -> Seq<AtomView> {
    Seq::new(atoms.len(), |i: int| atoms[i]@)
}

/// Collects the positive (atomic) conjuncts of a precondition formula as ground
/// atoms. Negative literals and (in)equalities are dropped (relaxed away).
fn positive_precondition_atoms(f: &Formula, out: &mut Vec<Atom>)
    ensures
        atom_views(final(out)@) == atom_views(old(out)@) + positive_atoms(f@),
    decreases f,
{
    let ghost before = atom_views(out@);
    match f {
        Formula::Atom(a) => {
            let copy = a.clone();
            out.push(copy);
            assert(atom_views(out@) =~= before + seq![a@]);
        },
        Formula::Conjunction(cs) => {
            let ghost all = forms(cs@);
            let mut i: usize = 0;
            assert(before + seq![] =~= before);
            while i < cs.len()
                invariant
                    *f == Formula::Conjunction(*cs),
                    decreases_to!(f => cs@),
                    all == forms(cs@),
                    i <= cs@.len(),
                    atom_views(out@) == before + positive_among(all, i as nat),
                decreases cs@.len() - i,
            {
                let ghost found = positive_among(all, i as nat);
                positive_precondition_atoms(&cs[i], out);
                proof {
                    assert(all[i as int] == cs@[i as int]@);
                    assert((before + found) + positive_atoms(all[i as int]) =~= before + (found + positive_atoms(all[i as int])));
                }
                i = i + 1;
            }
        },
        _ => {
            assert(before + seq![] =~= before);
        },
    }
}

/// Whether an action adds an atom.
pub(crate) fn action_adds(s: &crate::step::StepAction, a: &Atom) -> (res: bool)
    ensures
        res == adds(s@, a@),
{
    let mut k: usize = 0;
    while k < s.effects.len()
        invariant
            k <= s.effects@.len(),
            forall|m: int| 0 <= m < k ==> !(!(#[trigger] s@.effects[m]).literal.negative && s@.effects[m].literal.atom == a@),
        decreases s.effects@.len() - k,
    {
        assert(s@.effects[k as int] == s.effects@[k as int]@);
        if !s.effects[k].literal.negative() && same_atom(s.effects[k].literal.atom(), a) {
            return true;
        }
        k = k + 1;
    }
    false
}

proof fn lemma_cheapest(g: GraphView, steps: Seq<StepActionView>, a: AtomView, n: nat)
    ensures
        cheapest(g, steps, a, n) matches Some((i, _)) ==> 0 <= i < n,
    decreases n,
{
    if n > 0 {
        lemma_cheapest(g, steps, a, (n - 1) as nat);
    }
}

proof fn lemma_best_match(g: GraphView, r: Reading, a: AtomView, id: usize, n: nat)
    ensures
        best_match(g, r, a, id, n) matches Some(i) ==> 0 <= i < n,
    decreases n,
{
    if n > 0 {
        lemma_best_match(g, r, a, id, (n - 1) as nat);
    }
}

impl PlanningGraph {
    /// Resolves a (possibly lifted) atomic open condition to the cheapest ground
    /// goal atom under the planning graph. Returns `None` for non-atomic
    /// conditions (negations / (in)equalities / disjunctions are treated as free).
    fn goal_atom(&self, condition: &Formula, step_id: usize, ctx: &TypeContext, bindings: &Bindings) -> (res: Option<Atom>)
        requires
            self.wf(),
            ctx.wf(),
        ensures
            match goal_of_open(self@, Reading { typing: ctx@, classes: bindings@ }, OpenView { step_id, condition: condition@, when: FormulaTime::AtStart }) {
                Some(a) => res matches Some(r) && r@ == a,
                None => res is None,
            },
    {
        let ghost r = Reading { typing: ctx@, classes: bindings@ };
        match condition {
            Formula::Atom(a) => {
                let whole = resolve_atom(bindings, a, step_id);
                if is_ground(&whole) {
                    return Some(whole);
                }
                let pattern = bindings.resolve_pattern(ctx, &a.terms, step_id);
                let mut best: Option<usize> = None;
                let mut i: usize = 0;
                while i < self.num_atoms()
                    invariant
                        self.wf(),
                        ctx.wf(),
                        pattern.wf(),
                        r == (Reading { typing: ctx@, classes: bindings@ }),
                        forall|ground: Seq<Term>| #[trigger]
                            pattern.accepts(ctx@, ground) == ground_matches(ctx@, bindings@, a.terms@, step_id, ground),
                        i <= self@.atoms.len(),
                        match best_match(self@, r, a@, step_id, i as nat) {
                            Some(k) => best matches Some(b) && b == k && b < i,
                            None => best is None,
                        },
                    decreases self@.atoms.len() - i,
                {
                    let c = self.atom_at(i);
                    if c.predicate == a.predicate && pattern.matches(ctx, &c.terms) {
                        let better = match best {
                            None => true,
                            Some(b) => self.ground_atom_value(c).add_cost() < self.ground_atom_value(self.atom_at(b)).add_cost(),
                        };
                        if better {
                            best = Some(i);
                        }
                    }
                    i = i + 1;
                }
                match best {
                    Some(b) => Some(self.atom_at(b).clone()),
                    None => None,
                }
            },
            _ => None,
        }
    }

    /// What an action costs with its positive preconditions.
    fn achiever_cost(&self, i: usize) -> (res: Option<u128>)
        requires
            self.wf(),
            i < self.steps().len(),
        ensures
            res == support_cost(self@, self.steps()[i as int]),
    {
        let action = self.action(i);
        let mut pre: Vec<Atom> = Vec::new();
        assert(atom_views(pre@) =~= seq![]);
        positive_precondition_atoms(&action.precondition, &mut pre);
        let ghost atoms = positive_atoms(self.steps()[i as int].precondition);
        assert(atom_views(pre@) =~= atoms);
        let mut cost: u128 = action.cost as u128;
        let ghost start = cost;
        let mut k: usize = 0;
        while k < pre.len()
            invariant
                self.wf(),
                i < self.steps().len(),
                atoms == positive_atoms(self.steps()[i as int].precondition),
                start == self.steps()[i as int].cost as u128,
                atom_views(pre@) == atoms,
                k <= pre@.len(),
                body_cost(self@, start, atoms, k as nat) == Some(cost),
            decreases pre@.len() - k,
        {
            assert(atoms[k as int] == pre@[k as int]@);
            let v = self.ground_atom_value(&pre[k]);
            let c = v.add_cost();
            if c == NO_COST {
                proof {
                    lemma_no_body(self@, start, atoms, (k + 1) as nat, atoms.len());
                }
                return None;
            }
            cost = if c < NO_COST - cost {
                cost + c
            } else {
                NO_COST
            };
            k = k + 1;
        }
        Some(cost)
    }

    /// The cheapest achiever of a ground goal atom: the `(action index, positive
    /// precondition atoms)` minimising the additive cost of the action's
    /// preconditions. `None` if no reachable achiever exists.
    fn cheapest_achiever(&self, a: &Atom) -> (res: Option<(usize, Vec<Atom>)>)
        requires
            self.wf(),
        ensures
            match cheapest(self@, self.steps(), a@, self.steps().len()) {
                Some((i, _)) => res matches Some((k, pre)) && k == i && k < self.steps().len() && atom_views(pre@) == positive_atoms(
                    self.steps()[i].precondition,
                ),
                None => res is None,
            },
    {
        let ghost steps = self.steps();
        let mut best: Option<(usize, u128)> = None;
        let mut i: usize = 0;
        while i < self.num_actions()
            invariant
                self.wf(),
                steps == self.steps(),
                i <= steps.len(),
                match cheapest(self@, steps, a@, i as nat) {
                    Some((k, c)) => best matches Some((b, d)) && b == k && c == d && b < i,
                    None => best is None,
                },
            decreases steps.len() - i,
        {
            if action_adds(self.action(i), a) {
                match self.achiever_cost(i) {
                    Some(c) => {
                        let better = match best {
                            None => true,
                            Some((_, b)) => c < b,
                        };
                        if better {
                            best = Some((i, c));
                        }
                    },
                    None => {},
                }
            }
            i = i + 1;
        }
        match best {
            None => None,
            Some((k, _)) => {
                let mut pre: Vec<Atom> = Vec::new();
                assert(atom_views(pre@) =~= seq![]);
                positive_precondition_atoms(&self.action(k).precondition, &mut pre);
                assert(atom_views(pre@) =~= positive_atoms(steps[k as int].precondition));
                Some((k, pre))
            },
        }
    }

    /// Whether some existing non-synthetic plan step has a positive effect that
    /// produces the ground atom (RePOP-style reuse).
    fn reusable_by_step(&self, plan: &Plan, a: &Atom) -> (res: bool)
        ensures
            res == step_adds(plan@, a@),
    {
        let steps = plan_steps(plan);
        let ghost p = plan@;
        let mut i: usize = 0;
        while i < steps.len()
            invariant
                p == plan@,
                step_views(steps@) == p.steps,
                i <= steps@.len(),
                forall|k: int| 0 <= k < i ==> !(!(#[trigger] p.steps[k]).action.is_synthetic() && adds(p.steps[k].action, a@)),
            decreases steps@.len() - i,
        {
            assert(p.steps[i as int] == steps@[i as int]@);
            if !steps[i].action.synthetic() && action_adds(&steps[i].action, a) {
                return true;
            }
            i = i + 1;
        }
        false
    }

    /// The ground atoms that stand for the open conditions of a plan.
    fn open_goals(&self, ctx: &TypeContext, plan: &Plan) -> (res: Vec<Atom>)
        requires
            self.wf(),
            ctx.wf(),
        ensures
            atom_views(res@) == goals_of(self@, Reading { typing: ctx@, classes: plan@.classes }, plan@.opens, plan@.opens.len()),
    {
        let ghost r = Reading { typing: ctx@, classes: plan@.classes };
        let opens = plan_opens(plan);
        let mut res: Vec<Atom> = Vec::new();
        let mut i: usize = 0;
        assert(atom_views(res@) =~= seq![]);
        while i < opens.len()
            invariant
                self.wf(),
                ctx.wf(),
                r == (Reading { typing: ctx@, classes: plan@.classes }),
                open_views(opens@) == plan@.opens,
                i <= opens@.len(),
                atom_views(res@) == goals_of(self@, r, plan@.opens, i as nat),
            decreases opens@.len() - i,
        {
            let ghost before = atom_views(res@);
            assert(plan@.opens[i as int] == opens@[i as int]@);
            match self.goal_atom(&opens[i].condition, opens[i].step_id, ctx, &plan.bindings) {
                Some(a) => {
                    let ghost av = a@;
                    res.push(a);
                    assert(atom_views(res@) =~= before.push(av));
                },
                None => {},
            }
            i = i + 1;
        }
        res
    }

    /// The cost of a list of actions.
    fn cost_of_actions(&self, ops: &Vec<usize>) -> (res: u128)
        requires
            forall|k: int| 0 <= k < ops@.len() ==> #[trigger] ops@[k] < self.steps().len(),
        ensures
            res == actions_cost(self.steps(), ops@, ops@.len()),
    {
        let mut sum: u128 = 0;
        let mut i: usize = 0;
        while i < ops.len()
            invariant
                forall|k: int| 0 <= k < ops@.len() ==> #[trigger] ops@[k] < self.steps().len(),
                i <= ops@.len(),
                sum == actions_cost(self.steps(), ops@, i as nat),
            decreases ops@.len() - i,
        {
            assert(ops@[i as int] < self.steps().len());
            let c = self.action(ops[i]).cost as u128;
            sum = if c < NO_COST - sum {
                sum + c
            } else {
                NO_COST
            };
            i = i + 1;
        }
        sum
    }

    /// Extracts a delete-relaxed plan achieving the partial plan's open
    /// conditions and returns the cost of the actions in it: the Relax / RePOP
    /// heuristic (after Nguyen & Kambhampati 2001, adapting FF to partial plans).
    /// Returns `None` if some open condition is unreachable in the relaxed graph
    /// (a dead end).
    ///
    /// Greedy extraction over the additive cost graph: each subgoal is supported
    /// with its cheapest achiever, and regressed on that action's (positive)
    /// preconditions. Goals already true in the initial state, or, when `reuse` is
    /// set, already established by an existing plan step, are free and add no
    /// action. Negative subgoals are treated as free (a relaxation; the classical
    /// benchmark goals are positive).
    pub fn relaxed_plan_size(&self, ctx: &TypeContext, plan: &Plan, reuse: bool) -> (res: Option<u128>)
        requires
            self.wf(),
            ctx.wf(),
        ensures
            ({
                let goals = goals_of(self@, Reading { typing: ctx@, classes: plan@.classes }, plan@.opens, plan@.opens.len());
                let means = means_of(self@, self.steps(), plan@, reuse);
                match res {
                    Some(h) => exists|list: Seq<AtomView>, ops: Seq<usize>| #[trigger]
                        is_relaxed_plan(goals, means, list, ops) && h == actions_cost(self.steps(), ops, ops.len()),
                    None => exists|list: Seq<AtomView>| #[trigger]
                        all_needed(goals, means, list) && list.len() > 0 && means(list.last()) is Nothing,
                }
            }),
    {
        let ghost steps = self.steps();
        let ghost means = means_of(self@, steps, plan@, reuse);
        let mut waiting = self.open_goals(ctx, plan);
        let ghost goals = atom_views(waiting@);
        let mut achieved = AtomTable::new();
        let mut ops: Vec<usize> = Vec::new();
        proof {
            assert(atoms_of(achieved@) =~= seq![]);
            assert forall|k: int| 0 <= k < waiting@.len() implies wanted(goals, means, atoms_of(achieved@), (#[trigger] waiting@[k])@) by {
                assert(goals[k] == waiting@[k]@);
            }
        }
        while waiting.len() > 0
            invariant
                self.wf(),
                steps == self.steps(),
                means == means_of(self@, steps, plan@, reuse),
                goals == goals_of(self@, Reading { typing: ctx@, classes: plan@.classes }, plan@.opens, plan@.opens.len()),
                achieved.wf(),
                forall|k: int| 0 <= k < waiting@.len() ==> wanted(goals, means, atoms_of(achieved@), (#[trigger] waiting@[k])@),
                forall|k: int|
                    0 <= k < goals.len() ==> atoms_of(achieved@).contains(#[trigger] goals[k]) || atom_views(waiting@).contains(goals[k]),
                all_needed(goals, means, atoms_of(achieved@)),
                forall|k: int|
                    0 <= k < achieved@.len() ==> half_served(
                        means,
                        atoms_of(achieved@),
                        atom_views(waiting@),
                        ops@,
                        #[trigger] atoms_of(achieved@)[k],
                    ),
                ops@.no_duplicates(),
                forall|k: int| 0 <= k < ops@.len() ==> is_chosen(means, atoms_of(achieved@), #[trigger] ops@[k]) && ops@[k] < steps.len(),
            decreases usize::MAX - achieved@.len(), waiting@.len(),
        {
            let ghost before = waiting@;
            let ghost list = atoms_of(achieved@);
            let ghost ops_before = ops@;
            let a = waiting.pop().unwrap();
            proof {
                assert(a == before[before.len() - 1]);
                assert(wanted(goals, means, list, before[before.len() - 1]@));
                assert forall|b: AtomView| atom_views(before).contains(b) implies b == a@ || atom_views(waiting@).contains(b) by {
                    let k = choose|k: int| 0 <= k < before.len() && atom_views(before)[k] == b;
                    if k < before.len() - 1 {
                        assert(atom_views(waiting@)[k] == b);
                    }
                }
                lemma_place(achieved@, a@);
                achieved.lemma_wf();
            }
            match achieved.find(&a) {
                Some(at) => {
                    proof {
                        assert(list[at as int] == a@);
                        assert forall|k: int| 0 <= k < achieved@.len() implies half_served(
                            means,
                            list,
                            atom_views(waiting@),
                            ops@,
                            #[trigger] list[k],
                        ) by {
                            assert(half_served(means, list, atom_views(before), ops@, list[k]));
                        }
                        assert forall|k: int| 0 <= k < waiting@.len() implies wanted(goals, means, list, (#[trigger] waiting@[k])@) by {
                            assert(waiting@[k] == before[k]);
                        }
                    }
                    continue;
                },
                None => {},
            }
            let ghost more = list.push(a@);
            proof {
                lemma_longer(goals, means, list, a@);
                assert(more.last() == a@);
            }
            achieved.set(&a, HeuristicValue::of_zero());
            proof {
                achieved.lemma_wf();
                assert(atoms_of(achieved@) =~= more);
            }
            if self.ground_atom_value(&a).zero() || (reuse && self.reusable_by_step(plan, &a)) {
                proof {
                    assert(means(a@) is Free);
                    assert forall|k: int| 0 <= k < achieved@.len() implies half_served(
                        means,
                        more,
                        atom_views(waiting@),
                        ops@,
                        #[trigger] more[k],
                    ) by {
                        if k < list.len() {
                            assert(half_served(means, list, atom_views(before), ops@, list[k]));
                        }
                    }
                    assert forall|k: int| 0 <= k < waiting@.len() implies wanted(goals, means, more, (#[trigger] waiting@[k])@) by {
                        assert(waiting@[k] == before[k]);
                        assert(wanted(goals, means, list, before[k]@));
                    }
                }
                continue;
            }
            let (op, pre) = match self.cheapest_achiever(&a) {
                Some(found) => found,
                None => {
                    assert(means(more.last()) is Nothing);
                    return None;
                },
            };
            let ghost body = positive_atoms(steps[op as int].precondition);
            assert(means(a@) == Means::By(op as int, body));
            note(&mut ops, op);
            let ghost rest = waiting@;
            let mut k: usize = 0;
            while k < pre.len()
                invariant
                    k <= pre@.len(),
                    rest.len() <= waiting@.len(),
                    atom_views(waiting@) == atom_views(rest) + atom_views(pre@).take(k as int),
                decreases pre@.len() - k,
            {
                let ghost shown = atom_views(waiting@);
                waiting.push(pre[k].clone());
                proof {
                    assert(atom_views(waiting@) =~= shown.push(pre@[k as int]@));
                    assert(atom_views(rest) + atom_views(pre@).take(k + 1) =~= (atom_views(rest) + atom_views(pre@).take(k as int)).push(
                        pre@[k as int]@,
                    ));
                }
                k = k + 1;
            }
            proof {
                assert(atom_views(pre@).take(k as int) =~= body);
                let w = atom_views(waiting@);
                assert forall|b: AtomView| atom_views(rest).contains(b) implies w.contains(b) by {
                    let j = choose|j: int| 0 <= j < rest.len() && atom_views(rest)[j] == b;
                    assert(w[j] == b);
                }
                assert forall|j: int| 0 <= j < waiting@.len() implies wanted(goals, means, more, (#[trigger] waiting@[j])@) by {
                    assert(w[j] == waiting@[j]@);
                    if j < rest.len() {
                        assert(w[j] == atom_views(rest)[j]);
                        assert(rest[j] == before[j]);
                        assert(wanted(goals, means, list, before[j]@));
                    } else {
                        assert(w[j] == body[j - rest.len()]);
                        assert(body.contains(w[j]));
                        assert(more[list.len() as int] == a@);
                        assert(needs(means, more, list.len() as int, w[j]));
                    }
                }
                assert forall|j: int| 0 <= j < goals.len() implies more.contains(#[trigger] goals[j]) || w.contains(goals[j]) by {
                    if !list.contains(goals[j]) {
                        assert(atom_views(before).contains(goals[j]));
                    }
                }
                assert forall|j: int| 0 <= j < achieved@.len() implies half_served(means, more, w, ops@, #[trigger] more[j]) by {
                    if j < list.len() {
                        assert(half_served(means, list, atom_views(before), ops_before, list[j]));
                        assert(more[j] == list[j]);
                        match means(more[j]) {
                            Means::By(o, needed) => {
                                let m = choose|m: int| 0 <= m < ops_before.len() && #[trigger] ops_before[m] == o;
                                assert(ops@[m] == o);
                                assert forall|x: int| 0 <= x < needed.len() implies more.contains(#[trigger] needed[x]) || w.contains(needed[x]) by {
                                    if !list.contains(needed[x]) {
                                        assert(atom_views(before).contains(needed[x]));
                                    }
                                }
                            },
                            _ => {},
                        }
                    } else {
                        assert forall|x: int| 0 <= x < body.len() implies w.contains(#[trigger] body[x]) by {
                            assert(w[rest.len() + x] == body[x]);
                        }
                        let m = choose|m: int| 0 <= m < ops@.len() && ops@[m] == op;
                        assert(ops@[m] == op as int);
                    }
                }
                assert forall|m: int| 0 <= m < ops@.len() implies is_chosen(means, more, #[trigger] ops@[m]) && ops@[m] < steps.len() by {
                    if m < ops_before.len() {
                        assert(is_chosen(means, list, ops_before[m]));
                    } else {
                        assert(more[list.len() as int] == a@);
                    }
                }
            }
        }
        proof {
            let list = atoms_of(achieved@);
            assert(is_relaxed_plan(goals, means, list, ops@)) by {
                assert forall|k: int| 0 <= k < list.len() implies is_served(means, list, ops@, #[trigger] list[k]) by {
                    assert(half_served(means, list, atom_views(waiting@), ops@, list[k]));
                }
            }
        }
        Some(self.cost_of_actions(&ops))
    }
}

proof fn lemma_no_body(g: GraphView, cost: u128, atoms: Seq<AtomView>, n: nat, m: nat)
    requires
        n <= m,
        body_cost(g, cost, atoms, n) is None,
    ensures
        body_cost(g, cost, atoms, m) is None,
    decreases m,
{
    if n < m {
        lemma_no_body(g, cost, atoms, n, (m - 1) as nat);
    }
}

} // verus!
