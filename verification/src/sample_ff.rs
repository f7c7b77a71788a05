//! The Sample-FF heuristic for partial-order causal-link plans (Bercher, Geier,
//! Richter & Biundo, 2013: "On Delete Relaxation in Partial-Order Causal-Link
//! Planning"). Unlike the Relax heuristic, which delete-relaxes the *whole*
//! partial plan, ignoring the plan steps' negative effects and quantities,
//! Sample-FF keeps the committed plan steps non-relaxed and uses delete
//! relaxation only to fill the gaps between them.
//!
//! A constant number of linearizations of the committed steps is sampled. Each is
//! estimated by the number of relaxed plan steps that fill its gaps, and the least
//! estimate counts. If none of them is feasible the plan need not be dead
//! (sampling is not exhaustive), so the number of open conditions takes its place.

use vstd::prelude::*;

use crate::atom_table::{lemma_place, AtomTable};
use crate::bindings::is_ground;
use crate::fdr_rank::{ranks_of_estimate, total_rank};
use crate::formula::{forms, Atom, AtomView, Formula, FormulaView};
use crate::gap_fill::{
    acts_below, below, estimate_linearization, is_feasible, is_gap_total, is_saturated, relaxed_views, resolved_views, saturate, steps_below,
    RAction, RActionView, Reach, ResolvedStep, ResolvedView,
};
use crate::graph_extract::{action_adds, adds};
use crate::graph_plan::plan_steps;
use crate::hvalue::HeuristicValue;
use crate::linearize::{all_drawn, is_strict, is_table, sample_linearization, seed_of, Rng};
use crate::orderings::{comes_before, lemma_pairs};
use crate::plan::{counted, Plan, Step, StepAction};
use crate::plan_model::PlanView;
use crate::planning_graph::atoms_of;
use crate::search::SearchContext;
use crate::step::{step_views, StepActionView, StepView};
use crate::terms::Term;
use crate::text::copy_vec;

verus! {

/// Default number of sampled linearizations (the best-performing `K`).
pub const DEFAULT_SAMPLES: usize = 10;

/// Whether an equality or inequality of two terms can be violated by their objects.
pub open spec fn violated(left: Term, right: Term, equal: bool) -> bool {
    left is Object && right is Object && (left == right) != equal
}

/// The positive ground atoms of the first `n` of a list of formulas.
pub open spec fn static_among(fs: Seq<FormulaView>, n: nat) -> Option<Seq<AtomView>>
    decreases fs, n,
{
    if n == 0 || n > fs.len() {
        Some(seq![])
    } else {
        match (static_among(fs, (n - 1) as nat), static_atoms(fs[n - 1])) {
            (Some(a), Some(b)) => Some(a + b),
            _ => None,
        }
    }
}

/// The positive ground atoms of a precondition or goal conjunction. Negative
/// literals and satisfied (in)equalities are dropped (relaxation); a violated
/// ground (in)equality makes the whole formula statically false.
pub open spec fn static_atoms(f: FormulaView) -> Option<Seq<AtomView>>
    decreases f, 0nat,
{
    match f {
        FormulaView::False => None,
        FormulaView::Atom(a) => Some(
            if a.ground() {
                seq![a]
            } else {
                seq![]
            },
        ),
        FormulaView::Equality(left, _, right, _) => if violated(left, right, true) {
            None
        } else {
            Some(seq![])
        },
        FormulaView::Inequality(left, _, right, _) => if violated(left, right, false) {
            None
        } else {
            Some(seq![])
        },
        FormulaView::Conjunction(cs) => static_among(cs, cs.len()),
        _ => Some(seq![]),
    }
}

/// A relaxed action by its atoms: what it needs and what it gives.
pub struct NamedAction {
    pub pre: Seq<AtomView>,
    pub add: AtomView,
}

/// The relaxed actions of the first `n` effects of an action that needs `base`:
/// one for each positive effect, with the atoms of its condition.
pub open spec fn relaxed_effects(a: StepActionView, base: Seq<AtomView>, n: nat) -> Seq<NamedAction>
    decreases n,
{
    if n == 0 {
        seq![]
    } else {
        let rest = relaxed_effects(a, base, (n - 1) as nat);
        let e = a.effects[n - 1];
        match static_atoms(e.condition) {
            Some(cond) => if !e.literal.negative && e.parameters.len() == 0 && e.literal.atom.ground() {
                rest.push(NamedAction { pre: base + cond, add: e.literal.atom })
            } else {
                rest
            },
            None => rest,
        }
    }
}

/// The relaxed actions of the first `n` actions.
pub open spec fn relaxed_actions(actions: Seq<StepActionView>, n: nat) -> Seq<NamedAction>
    decreases n,
{
    if n == 0 {
        seq![]
    } else {
        let rest = relaxed_actions(actions, (n - 1) as nat);
        let a = actions[n - 1];
        match static_atoms(a.precondition) {
            Some(base) => rest + relaxed_effects(a, base, a.effects.len()),
            None => rest,
        }
    }
}

/// The atoms that numbers stand for.
pub open spec fn named(facts: Seq<AtomView>, ids: Seq<usize>) -> Seq<AtomView> {
    Seq::new(ids.len(), |i: int| facts[ids[i] as int])
}

/// Relaxed actions by their atoms.
pub open spec fn named_actions(facts: Seq<AtomView>, acts: Seq<RActionView>) -> Seq<NamedAction> {
    Seq::new(acts.len(), |i: int| NamedAction { pre: named(facts, acts[i].pre), add: facts[acts[i].add as int] })
}

/// Whether `more` begins with `facts`.
pub open spec fn extends(facts: Seq<AtomView>, more: Seq<AtomView>) -> bool {
    facts.len() <= more.len() && more.take(facts.len() as int) == facts
}

proof fn lemma_named(facts: Seq<AtomView>, more: Seq<AtomView>, ids: Seq<usize>)
    requires
        extends(facts, more),
        below(ids, facts.len()),
    ensures
        named(more, ids) == named(facts, ids),
        below(ids, more.len()),
{
    assert forall|i: int| 0 <= i < ids.len() implies more[#[trigger] ids[i] as int] == facts[ids[i] as int] by {
        assert(more.take(facts.len() as int)[ids[i] as int] == more[ids[i] as int]);
    }
    assert(named(more, ids) =~= named(facts, ids));
}

proof fn lemma_named_actions(facts: Seq<AtomView>, more: Seq<AtomView>, acts: Seq<RActionView>)
    requires
        extends(facts, more),
        acts_below(acts, facts.len()),
    ensures
        named_actions(more, acts) == named_actions(facts, acts),
        acts_below(acts, more.len()),
{
    assert forall|i: int| 0 <= i < acts.len() implies named_actions(more, acts)[i] == #[trigger] named_actions(facts, acts)[i] && acts[i].add
        < more.len() && below(acts[i].pre, more.len()) by {
        assert(acts[i].add < facts.len());
        lemma_named(facts, more, acts[i].pre);
        assert(more.take(facts.len() as int)[acts[i].add as int] == more[acts[i].add as int]);
    }
    assert(named_actions(more, acts) =~= named_actions(facts, acts));
    assert forall|i: int| 0 <= i < acts.len() implies (#[trigger] acts[i]).add < more.len() && below(acts[i].pre, more.len()) by {
        assert(named_actions(facts, acts)[i] == named_actions(more, acts)[i]);
    }
}

proof fn lemma_extends(a: Seq<AtomView>, b: Seq<AtomView>, c: Seq<AtomView>)
    requires
        extends(a, b),
        extends(b, c),
    ensures
        extends(a, c),
{
    assert(c.take(a.len() as int) =~= c.take(b.len() as int).take(a.len() as int));
}

/// Collects the positive ground atoms of a formula; `false` if it is statically
/// false.
fn positive_atoms(f: &Formula, out: &mut Vec<Atom>) -> (res: bool)
    ensures
        match static_atoms(f@) {
            Some(atoms) => res && views(final(out)@) == views(old(out)@) + atoms,
            None => !res,
        },
    decreases f,
{
    let ghost before = views(out@);
    match f {
        Formula::False => false,
        Formula::Atom(a) => {
            if is_ground(a) {
                let copy = a.clone();
                out.push(copy);
                assert(views(out@) =~= before + seq![a@]);
            } else {
                assert(before + seq![] =~= before);
            }
            true
        },
        Formula::Equality { left, left_id: _, right, right_id: _ } => {
            assert(before + seq![] =~= before);
            match (*left, *right) {
                (Term::Object(a), Term::Object(b)) => a == b,
                _ => true,
            }
        },
        Formula::Inequality { left, left_id: _, right, right_id: _ } => {
            assert(before + seq![] =~= before);
            match (*left, *right) {
                (Term::Object(a), Term::Object(b)) => a != b,
                _ => true,
            }
        },
        Formula::Conjunction(cs) => {
            let ghost all = forms(cs@);
            let mut i: usize = 0;
            assert(before + seq![] =~= before);
            while i < cs.len()
                invariant
                    *f == Formula::Conjunction(*cs),
                    decreases_to!(f => cs@),
                    all == forms(cs@),
                    i <= cs@.len(),
                    static_among(all, i as nat) is Some,
                    views(out@) == before + static_among(all, i as nat)->0,
                decreases cs@.len() - i,
            {
                let ghost found = static_among(all, i as nat)->0;
                assert(all[i as int] == cs@[i as int]@);
                if !positive_atoms(&cs[i], out) {
                    proof {
                        lemma_false_stays(all, (i + 1) as nat, all.len());
                    }
                    return false;
                }
                proof {
                    let more = static_atoms(all[i as int])->0;
                    assert((before + found) + more =~= before + (found + more));
                }
                i = i + 1;
            }
            true
        },
        _ => {
            assert(before + seq![] =~= before);
            true
        },
    }
}

proof fn lemma_false_stays(fs: Seq<FormulaView>, n: nat, m: nat)
    requires
        n <= m <= fs.len(),
        static_among(fs, n) is None,
    ensures
        static_among(fs, m) is None,
    decreases m,
{
    if n < m {
        lemma_false_stays(fs, n, (m - 1) as nat);
    }
}

/// The mathematical forms of a list of atoms.
pub open spec fn views(atoms: Seq<Atom>) -> Seq<AtomView> {
    Seq::new(atoms.len(), |i: int| atoms[i]@)
}

/// Ground facts by number, and which of them hold at first.
struct Facts {
    table: AtomTable,
    init: Vec<bool>,
}

impl Facts {
    spec fn list(&self) -> Seq<AtomView> {
        atoms_of(self.table@)
    }

    spec fn wf(&self) -> bool {
        self.table.wf() && self.init@.len() == self.table@.len()
    }

    /// The number of an atom; a new one, which holds at first or not.
    fn intern(&mut self, a: &Atom, holds: bool) -> (res: usize)
        requires
            old(self).wf(),
        ensures
            final(self).wf(),
            extends(old(self).list(), final(self).list()),
            res < final(self).list().len(),
            final(self).list()[res as int] == a@,
            forall|i: int| 0 <= i < old(self).init@.len() ==> #[trigger] final(self).init@[i] == old(self).init@[i],
            forall|i: int| old(self).init@.len() <= i < final(self).init@.len() ==> #[trigger] final(self).init@[i] == holds && final(self).list()[i] == a@,
    {
        let ghost before = self.list();
        proof {
            lemma_place(self.table@, a@);
        }
        match self.table.find(a) {
            Some(i) => {
                assert(self.list().take(before.len() as int) =~= before);
                i
            },
            None => {
                let n = self.table.len();
                self.table.set(a, HeuristicValue::of_zero());
                self.init.push(holds);
                assert(self.list() =~= before.push(a@));
                assert(self.list().take(before.len() as int) =~= before);
                n
            },
        }
    }
}

/// Whether each fact that has been numbered since holds at first iff the init
/// action adds it.
spec fn holds_as(init: StepActionView, facts: Seq<AtomView>, flags: Seq<bool>) -> bool {
    forall|i: int| 0 <= i < flags.len() ==> (#[trigger] flags[i] == adds(init, facts[i]))
}

/// Numbers a list of atoms.
fn intern_all(facts: &mut Facts, atoms: &Vec<Atom>, init: &StepAction, ids: &mut Vec<usize>)
    requires
        old(facts).wf(),
        holds_as(init@, old(facts).list(), old(facts).init@),
        below(old(ids)@, old(facts).list().len()),
    ensures
        final(facts).wf(),
        holds_as(init@, final(facts).list(), final(facts).init@),
        extends(old(facts).list(), final(facts).list()),
        below(final(ids)@, final(facts).list().len()),
        named(final(facts).list(), final(ids)@) == named(old(facts).list(), old(ids)@) + views(atoms@),
{
    let ghost start = facts.list();
    let ghost names = named(start, ids@);
    let mut i: usize = 0;
    assert(start.take(start.len() as int) =~= start);
    assert(names + views(atoms@).take(0) =~= names);
    while i < atoms.len()
        invariant
            facts.wf(),
            holds_as(init@, facts.list(), facts.init@),
            extends(start, facts.list()),
            below(ids@, facts.list().len()),
            i <= atoms@.len(),
            named(facts.list(), ids@) == names + views(atoms@).take(i as int),
        decreases atoms@.len() - i,
    {
        let ghost mid = facts.list();
        let ghost flags = facts.init@;
        let ghost old_ids = ids@;
        let holds = action_adds(init, &atoms[i]);
        let id = facts.intern(&atoms[i], holds);
        ids.push(id);
        proof {
            lemma_extends(start, mid, facts.list());
            lemma_named(mid, facts.list(), old_ids);
            assert forall|k: int| 0 <= k < ids@.len() implies #[trigger] ids@[k] < facts.list().len() by {
                if k < old_ids.len() {
                    assert(ids@[k] == old_ids[k]);
                }
            }
            assert(named(facts.list(), ids@) =~= named(facts.list(), old_ids).push(atoms@[i as int]@));
            assert(names + views(atoms@).take(i + 1) =~= (names + views(atoms@).take(i as int)).push(atoms@[i as int]@));
            assert forall|k: int| 0 <= k < facts.init@.len() implies (#[trigger] facts.init@[k] == adds(init@, facts.list()[k])) by {
                if k < flags.len() {
                    assert(facts.list().take(mid.len() as int)[k] == facts.list()[k]);
                    assert(flags[k] == adds(init@, mid[k]));
                }
            }
        }
        i = i + 1;
    }
    assert(views(atoms@).take(i as int) =~= views(atoms@));
}

/// The problem-constant Sample-FF model: the interned ground facts, the initial
/// state and goal, the delete-relaxed ground action set used to fill gaps, and a
/// cached saturated reachability from the initial state.
pub struct SampleFfModel {
    facts: Facts,
    /// Positive goal facts.
    goal: Vec<usize>,
    /// Delete-relaxed ground actions (gap fillers).
    relaxed: Vec<RAction>,
    /// Saturated reachability from the initial state.
    init_reach: Reach,
}

impl SampleFfModel {
    /// The numbered facts.
    pub closed spec fn facts(&self) -> Seq<AtomView> {
        self.facts.list()
    }

    /// Which facts hold at first.
    pub closed spec fn init(&self) -> Seq<bool> {
        self.facts.init@
    }

    pub closed spec fn goal(&self) -> Seq<usize> {
        self.goal@
    }

    pub closed spec fn relaxed(&self) -> Seq<RActionView> {
        relaxed_views(self.relaxed@)
    }

    pub closed spec fn wf(&self) -> bool {
        &&& self.facts.wf()
        &&& below(self.goal(), self.facts().len())
        &&& acts_below(self.relaxed(), self.facts().len())
        &&& is_saturated(self.init(), self.relaxed(), self.facts().len(), self.init_reach@)
    }

    /// Builds the model from the problem's ground actions. Uses the naive ground
    /// action set; reachability pruning falls out of the relaxed fixpoint anyway.
    pub fn build(ctx: &SearchContext) -> (res: SampleFfModel)
        ensures
            res.wf(),
            res.init().len() == res.facts().len(),
            named_actions(res.facts(), res.relaxed()) == relaxed_actions(ctx@.actions, ctx@.actions.len()),
            match static_atoms(ctx@.goal.precondition) {
                Some(atoms) => named(res.facts(), res.goal()) == atoms,
                None => res.goal().len() == 0,
            },
            forall|i: int| 0 <= i < res.init().len() ==> (#[trigger] res.init()[i] == adds(ctx@.init, res.facts()[i])),
    {
        let init = &ctx.init_action;
        let mut facts = Facts { table: AtomTable::new(), init: Vec::new() };
        let mut relaxed: Vec<RAction> = Vec::new();
        let ghost views_of = ctx@.actions;
        let mut i: usize = 0;
        assert(named_actions(facts.list(), relaxed_views(relaxed@)) =~= seq![]);
        while i < ctx.actions.len()
            invariant
                views_of == ctx@.actions,
                init@ == ctx@.init,
                facts.wf(),
                holds_as(init@, facts.list(), facts.init@),
                acts_below(relaxed_views(relaxed@), facts.list().len()),
                i <= ctx.actions@.len(),
                named_actions(facts.list(), relaxed_views(relaxed@)) == relaxed_actions(views_of, i as nat),
            decreases ctx.actions@.len() - i,
        {
            assert(views_of[i as int] == ctx.actions@[i as int]@);
            add_relaxed(&mut facts, &mut relaxed, &ctx.actions[i], init);
            i = i + 1;
        }
        let mut goal: Vec<usize> = Vec::new();
        let mut atoms: Vec<Atom> = Vec::new();
        assert(views(atoms@) =~= seq![]);
        let ghost before = facts.list();
        assert(before.take(before.len() as int) =~= before);
        if positive_atoms(&ctx.goal_action.precondition, &mut atoms) {
            assert(named(before, goal@) =~= seq![]);
            intern_all(&mut facts, &atoms, init, &mut goal);
            assert(named(facts.list(), goal@) =~= static_atoms(ctx@.goal.precondition)->0);
        }
        proof {
            lemma_named_actions(before, facts.list(), relaxed_views(relaxed@));
        }
        let init_reach = saturate(&facts.init, &relaxed, facts.init.len());
        SampleFfModel { facts, goal, relaxed, init_reach }
    }
}

/// Adds the relaxed actions of an action.
fn add_relaxed(facts: &mut Facts, relaxed: &mut Vec<RAction>, a: &StepAction, init: &StepAction)
    requires
        old(facts).wf(),
        holds_as(init@, old(facts).list(), old(facts).init@),
        acts_below(relaxed_views(old(relaxed)@), old(facts).list().len()),
    ensures
        final(facts).wf(),
        holds_as(init@, final(facts).list(), final(facts).init@),
        extends(old(facts).list(), final(facts).list()),
        acts_below(relaxed_views(final(relaxed)@), final(facts).list().len()),
        named_actions(final(facts).list(), relaxed_views(final(relaxed)@)) == (match static_atoms(a@.precondition) {
            Some(base) => named_actions(old(facts).list(), relaxed_views(old(relaxed)@)) + relaxed_effects(a@, base, a@.effects.len()),
            None => named_actions(old(facts).list(), relaxed_views(old(relaxed)@)),
        }),
{
    let ghost start = facts.list();
    let ghost first = named_actions(start, relaxed_views(relaxed@));
    assert(start.take(start.len() as int) =~= start);
    let mut base_atoms: Vec<Atom> = Vec::new();
    assert(views(base_atoms@) =~= seq![]);
    if !positive_atoms(&a.precondition, &mut base_atoms) {
        return;
    }
    let ghost base = static_atoms(a@.precondition)->0;
    assert(views(base_atoms@) =~= base);
    let mut base_ids: Vec<usize> = Vec::new();
    assert(named(start, base_ids@) =~= seq![]);
    intern_all(facts, &base_atoms, init, &mut base_ids);
    assert(named(facts.list(), base_ids@) =~= base);
    proof {
        lemma_named_actions(start, facts.list(), relaxed_views(relaxed@));
    }
    let mut k: usize = 0;
    assert(first + seq![] =~= first);
    while k < a.effects.len()
        invariant
            facts.wf(),
            holds_as(init@, facts.list(), facts.init@),
            extends(start, facts.list()),
            acts_below(relaxed_views(relaxed@), facts.list().len()),
            below(base_ids@, facts.list().len()),
            named(facts.list(), base_ids@) == base,
            k <= a.effects@.len(),
            named_actions(facts.list(), relaxed_views(relaxed@)) == first + relaxed_effects(a@, base, k as nat),
        decreases a.effects@.len() - k,
    {
        let e = &a.effects[k];
        assert(a@.effects[k as int] == e@);
        let mut cond: Vec<Atom> = Vec::new();
        assert(views(cond@) =~= seq![]);
        let admitted = positive_atoms(&e.condition, &mut cond);
        if admitted && !e.literal.negative() && e.parameters.len() == 0 && is_ground(e.literal.atom()) {
            let ghost mid = facts.list();
            let ghost made = relaxed_views(relaxed@);
            let ghost cond_atoms = static_atoms(e@.condition)->0;
            assert(views(cond@) =~= cond_atoms);
            let mut pre = copy_vec(&base_ids);
            intern_all(facts, &cond, init, &mut pre);
            let ghost later = facts.list();
            let ghost flags = facts.init@;
            let holds = action_adds(init, e.literal.atom());
            let add = facts.intern(e.literal.atom(), holds);
            proof {
                lemma_extends(mid, later, facts.list());
                lemma_extends(start, mid, facts.list());
                lemma_named(later, facts.list(), pre@);
                lemma_named(mid, facts.list(), base_ids@);
                lemma_named_actions(mid, facts.list(), made);
                assert forall|j: int| 0 <= j < facts.init@.len() implies (#[trigger] facts.init@[j] == adds(init@, facts.list()[j])) by {
                    if j < flags.len() {
                        assert(facts.list().take(later.len() as int)[j] == facts.list()[j]);
                        assert(flags[j] == adds(init@, later[j]));
                    }
                }
            }
            let act = RAction { pre, add };
            let ghost av = act@;
            let ghost one = NamedAction { pre: base + cond_atoms, add: e@.literal.atom };
            relaxed.push(act);
            proof {
                let acts = relaxed_views(relaxed@);
                assert(acts =~= made.push(av));
                assert forall|j: int| 0 <= j < acts.len() implies (#[trigger] acts[j]).add < facts.list().len() && below(acts[j].pre, facts.list().len()) by {
                    if j < made.len() {
                        assert(acts[j] == made[j]);
                    }
                }
                assert(named_actions(facts.list(), acts) =~= named_actions(facts.list(), made).push(one));
                let so_far = relaxed_effects(a@, base, k as nat);
                assert((first + so_far).push(one) =~= first + so_far.push(one));
            }
        }
        k = k + 1;
    }
}

/// The atoms that the first `n` effects of a step add or delete.
pub open spec fn changed_atoms(a: StepActionView, negative: bool, n: nat) -> Seq<AtomView>
    decreases n,
{
    if n == 0 {
        seq![]
    } else {
        let rest = changed_atoms(a, negative, (n - 1) as nat);
        let e = a.effects[n - 1];
        if e.parameters.len() == 0 && static_atoms(e.condition) is Some && e.literal.atom.ground() && e.literal.negative == negative {
            rest.push(e.literal.atom)
        } else {
            rest
        }
    }
}

/// Whether a resolved step is that of an action.
pub open spec fn is_resolved(facts: Seq<AtomView>, a: StepActionView, s: ResolvedView) -> bool {
    &&& below(s.pre, facts.len()) && below(s.add, facts.len()) && below(s.del, facts.len())
    &&& named(facts, s.pre) == (match static_atoms(a.precondition) {
        Some(atoms) => atoms,
        None => seq![],
    })
    &&& named(facts, s.add) == changed_atoms(a, false, a.effects.len())
    &&& named(facts, s.del) == changed_atoms(a, true, a.effects.len())
}

proof fn lemma_still_resolved(facts: Seq<AtomView>, more: Seq<AtomView>, a: StepActionView, s: ResolvedView)
    requires
        extends(facts, more),
        is_resolved(facts, a, s),
    ensures
        is_resolved(more, a, s),
{
    lemma_named(facts, more, s.pre);
    lemma_named(facts, more, s.add);
    lemma_named(facts, more, s.del);
}

/// Whether `flags` are those of the model, false for the facts numbered since.
pub open spec fn extends_flags(flags: Seq<bool>, more: Seq<bool>) -> bool {
    &&& flags.len() <= more.len()
    &&& forall|i: int| 0 <= i < flags.len() ==> #[trigger] more[i] == flags[i]
    &&& forall|i: int| flags.len() <= i < more.len() ==> !#[trigger] more[i]
}

/// Numbers an atom that the model does not know as one that does not hold.
fn intern_new(facts: &mut Facts, a: &Atom, ids: &mut Vec<usize>, first: Ghost<Seq<bool>>)
    requires
        old(facts).wf(),
        below(old(ids)@, old(facts).list().len()),
        extends_flags(first@, old(facts).init@),
    ensures
        final(facts).wf(),
        extends_flags(first@, final(facts).init@),
        extends(old(facts).list(), final(facts).list()),
        below(final(ids)@, final(facts).list().len()),
        named(final(facts).list(), final(ids)@) == named(old(facts).list(), old(ids)@).push(a@),
{
    let ghost start = facts.list();
    let ghost old_ids = ids@;
    let ghost flags = facts.init@;
    let id = facts.intern(a, false);
    ids.push(id);
    proof {
        lemma_named(start, facts.list(), old_ids);
        assert(named(facts.list(), ids@) =~= named(facts.list(), old_ids).push(a@));
        assert forall|k: int| 0 <= k < ids@.len() implies #[trigger] ids@[k] < facts.list().len() by {
            if k < old_ids.len() {
                assert(ids@[k] == old_ids[k]);
            }
        }
        assert forall|i: int| 0 <= i < first@.len() implies #[trigger] facts.init@[i] == first@[i] by {
            assert(facts.init@[i] == flags[i]);
        }
        assert forall|i: int| first@.len() <= i < facts.init@.len() implies !#[trigger] facts.init@[i] by {
            if i < flags.len() {
                assert(facts.init@[i] == flags[i]);
            }
        }
    }
}

/// Resolves a ground committed step into ground fact ids: positive preconditions,
/// and the add/delete sets with statically-evaluated conditional effects applied.
/// Numbers any not-yet-seen facts.
fn resolve_step(action: &StepAction, facts: &mut Facts, first: Ghost<Seq<bool>>) -> (res: ResolvedStep)
    requires
        old(facts).wf(),
        extends_flags(first@, old(facts).init@),
    ensures
        final(facts).wf(),
        extends_flags(first@, final(facts).init@),
        extends(old(facts).list(), final(facts).list()),
        is_resolved(final(facts).list(), action@, res@),
{
    let ghost start = facts.list();
    assert(start.take(start.len() as int) =~= start);
    let mut pre: Vec<usize> = Vec::new();
    let mut atoms: Vec<Atom> = Vec::new();
    assert(views(atoms@) =~= seq![]);
    let ghost wanted = match static_atoms(action@.precondition) {
        Some(atoms) => atoms,
        None => seq![],
    };
    assert(named(start, pre@) =~= seq![]);
    if positive_atoms(&action.precondition, &mut atoms) {
        assert(views(atoms@) =~= wanted);
        let mut i: usize = 0;
        while i < atoms.len()
            invariant
                facts.wf(),
                extends_flags(first@, facts.init@),
                extends(start, facts.list()),
                below(pre@, facts.list().len()),
                views(atoms@) == wanted,
                i <= atoms@.len(),
                named(facts.list(), pre@) == wanted.take(i as int),
            decreases atoms@.len() - i,
        {
            let ghost mid = facts.list();
            intern_new(facts, &atoms[i], &mut pre, first);
            proof {
                lemma_extends(start, mid, facts.list());
                assert(wanted.take(i + 1) =~= wanted.take(i as int).push(atoms@[i as int]@));
            }
            i = i + 1;
        }
        assert(wanted.take(i as int) =~= wanted);
    }
    let mut add: Vec<usize> = Vec::new();
    let mut del: Vec<usize> = Vec::new();
    let mut k: usize = 0;
    assert(named(facts.list(), add@) =~= seq![]);
    assert(named(facts.list(), del@) =~= seq![]);
    while k < action.effects.len()
        invariant
            facts.wf(),
            extends_flags(first@, facts.init@),
            extends(start, facts.list()),
            below(pre@, facts.list().len()),
            named(facts.list(), pre@) == wanted,
            below(add@, facts.list().len()),
            below(del@, facts.list().len()),
            k <= action.effects@.len(),
            named(facts.list(), add@) == changed_atoms(action@, false, k as nat),
            named(facts.list(), del@) == changed_atoms(action@, true, k as nat),
        decreases action.effects@.len() - k,
    {
        let e = &action.effects[k];
        assert(action@.effects[k as int] == e@);
        let mut cond: Vec<Atom> = Vec::new();
        let admitted = positive_atoms(&e.condition, &mut cond);
        if admitted && e.parameters.len() == 0 && is_ground(e.literal.atom()) {
            let ghost mid = facts.list();
            if e.literal.negative() {
                intern_new(facts, e.literal.atom(), &mut del, first);
                proof {
                    lemma_named(mid, facts.list(), add@);
                }
            } else {
                intern_new(facts, e.literal.atom(), &mut add, first);
                proof {
                    lemma_named(mid, facts.list(), del@);
                }
            }
            proof {
                lemma_extends(start, mid, facts.list());
                lemma_named(mid, facts.list(), pre@);
            }
        }
        k = k + 1;
    }
    ResolvedStep { pre, add, del }
}

/// The steps of a plan that are not synthetic, among the first `n`.
pub open spec fn real_steps(steps: Seq<StepView>, n: nat) -> Seq<StepView>
    decreases n,
{
    if n == 0 {
        seq![]
    } else {
        let rest = real_steps(steps, (n - 1) as nat);
        if steps[n - 1].action.is_synthetic() {
            rest
        } else {
            rest.push(steps[n - 1])
        }
    }
}

/// Whether one step comes before another, by their positions in a list.
pub open spec fn step_before(order: Set<(int, int)>, steps: Seq<StepView>) -> spec_fn(int, int) -> bool {
    |a: int, b: int| comes_before(order, steps[a].id as int, steps[b].id as int)
}

/// The steps in the order of a linearization.
pub open spec fn in_order(steps: Seq<ResolvedView>, lin: Seq<usize>) -> Seq<ResolvedView> {
    Seq::new(lin.len(), |i: int| steps[lin[i] as int])
}

/// What the samples are made of: the facts with those of the steps, which of them
/// hold at first, and the steps.
pub struct SampleBase {
    pub facts: Seq<AtomView>,
    pub init: Seq<bool>,
    pub steps: Seq<ResolvedView>,
}

/// Whether this is what the samples for a plan are made of.
pub open spec fn is_sample_base(model: &SampleFfModel, p: PlanView, b: SampleBase) -> bool {
    let own = real_steps(p.steps, p.steps.len());
    &&& extends(model.facts(), b.facts)
    &&& b.init.len() == b.facts.len()
    &&& extends_flags(model.init(), b.init)
    &&& b.steps.len() == own.len()
    &&& forall|i: int| 0 <= i < own.len() ==> is_resolved(b.facts, own[i].action, #[trigger] b.steps[i])
}

/// Whether `h` is the least estimate of the linearizations: none if none is
/// feasible.
pub open spec fn is_least_estimate(model: &SampleFfModel, b: SampleBase, lins: Seq<Seq<usize>>, h: Option<u128>) -> bool {
    match h {
        None => forall|i: int|
            0 <= i < lins.len() ==> !is_feasible(b.init, model.relaxed(), in_order(b.steps, #[trigger] lins[i]), model.goal()),
        Some(v) => {
            &&& exists|i: int| 0 <= i < lins.len() && #[trigger] is_estimate(model, b, lins[i], v)
            &&& forall|i: int|
                0 <= i < lins.len() && is_feasible(b.init, model.relaxed(), in_order(b.steps, #[trigger] lins[i]), model.goal())
                    ==> exists|w: u128| v <= w && #[trigger] is_estimate(model, b, lins[i], w)
        },
    }
}

/// Whether a linearization is feasible and `v` the number of relaxed actions that
/// fill its gaps.
pub open spec fn is_estimate(model: &SampleFfModel, b: SampleBase, lin: Seq<usize>, v: u128) -> bool {
    let steps = in_order(b.steps, lin);
    is_feasible(b.init, model.relaxed(), steps, model.goal()) && is_gap_total(
        b.init,
        model.relaxed(),
        steps,
        steps.len(),
        model.goal(),
        v as nat,
    )
}

/// The linearizations of the steps of a plan that are sampled: `k` of them, drawn one
/// after the other by a generator that the numbers of steps and open conditions and the
/// serial number of the plan seed, or the empty one where the plan has no steps.
pub open spec fn samples(p: PlanView, id: usize, k: nat) -> Seq<Seq<usize>> {
    let own = real_steps(p.steps, p.steps.len());
    let rounds = if own.len() == 0 {
        1
    } else {
        k
    };
    all_drawn(step_before(p.order, own), own.len(), seed_of(p.num_steps as usize, counted(p.opens.len()), id), rounds).0
}

/// What Sample-FF says of a plan with the serial number `id`: the least estimate of the
/// linearizations that are sampled, or the number of its open conditions if none of them
/// is feasible.
pub open spec fn is_sample_ff(model: &SampleFfModel, p: PlanView, id: usize, k: nat, h: u128) -> bool {
    exists|b: SampleBase, least: Option<u128>|
        {
            &&& is_sample_base(model, p, b)
            &&& #[trigger] is_least_estimate(model, b, samples(p, id, k), least)
            &&& h == (match least {
                Some(v) => v,
                None => counted(p.opens.len()) as u128,
            })
        }
}

proof fn lemma_order_strict(plan: &Plan, own: Seq<StepView>)
    requires
        plan.wf(),
    ensures
        is_strict(step_before(plan@.order, own), own.len()),
{
    lemma_pairs(&plan.orderings);
    let before = step_before(plan@.order, own);
    let order = plan@.order;
    assert forall|a: int, b: int, c: int|
        0 <= a < own.len() && 0 <= b < own.len() && 0 <= c < own.len() && #[trigger] before(a, b) && #[trigger] before(
            b,
            c,
        ) implies before(a, c) by {
        let (x, y, z) = (own[a].id as int, own[b].id as int, own[c].id as int);
        assert(comes_before(order, x, y) && comes_before(order, y, z));
        if x != 0 && z != crate::plan::GOAL_ID {
            assert(order.contains((y, z)) || y == 0);
            if y == 0 {
                assert(order.contains((x, y)));
                assert(plan.orderings.is_step(y));
            } else {
                if y == crate::plan::GOAL_ID {
                    assert(order.contains((y, z)));
                    assert(plan.orderings.is_step(y));
                }
                assert(order.contains((x, y)) && order.contains((y, z)));
                assert(order.contains((x, z)));
                assert(plan.orderings.is_step(x));
            }
        }
        if x == z {
            if order.contains((x, y)) && order.contains((y, z)) {
                assert(order.contains((x, z)));
            }
            if x == 0 {
                assert(order.contains((y, z)));
                assert(plan.orderings.is_step(z));
            }
            if z == crate::plan::GOAL_ID {
                assert(order.contains((x, y)));
                assert(plan.orderings.is_step(x));
            }
        }
    }
}

/// Which of the steps come before which.
fn order_table(plan: &Plan, steps: &Vec<Step>) -> (res: Vec<Vec<bool>>)
    requires
        plan.wf(),
    ensures
        res@.len() == steps@.len(),
        is_table(res@, step_before(plan@.order, step_views(steps@))),
{
    let ghost before = step_before(plan@.order, step_views(steps@));
    let mut res: Vec<Vec<bool>> = Vec::new();
    let mut a: usize = 0;
    while a < steps.len()
        invariant
            plan.wf(),
            before == step_before(plan@.order, step_views(steps@)),
            a <= steps@.len(),
            res@.len() == a,
            forall|i: int| 0 <= i < a ==> (#[trigger] res@[i])@.len() == steps@.len(),
            forall|i: int, j: int| 0 <= i < a && 0 <= j < steps@.len() ==> (#[trigger] res@[i]@[j] == before(i, j)),
        decreases steps@.len() - a,
    {
        let mut row: Vec<bool> = Vec::new();
        let mut b: usize = 0;
        while b < steps.len()
            invariant
                plan.wf(),
                before == step_before(plan@.order, step_views(steps@)),
                a < steps@.len(),
                b <= steps@.len(),
                row@.len() == b,
                forall|j: int| 0 <= j < b ==> (#[trigger] row@[j] == before(a as int, j)),
            decreases steps@.len() - b,
        {
            let x = steps[a].id;
            let y = steps[b].id;
            row.push(x != y && !plan.orderings.may_order(y, x));
            b = b + 1;
        }
        res.push(row);
        a = a + 1;
    }
    res
}

/// The committed steps of a plan, without the synthetic ones.
fn committed_steps(plan: &Plan) -> (res: Vec<Step>)
    ensures
        step_views(res@) == real_steps(plan@.steps, plan@.steps.len()),
{
    let steps = plan_steps(plan);
    let mut res: Vec<Step> = Vec::new();
    let mut i: usize = 0;
    assert(step_views(res@) =~= seq![]);
    while i < steps.len()
        invariant
            step_views(steps@) == plan@.steps,
            i <= steps@.len(),
            step_views(res@) == real_steps(plan@.steps, i as nat),
        decreases steps@.len() - i,
    {
        assert(plan@.steps[i as int] == steps@[i as int]@);
        let ghost before = step_views(res@);
        if !steps[i].action.synthetic() {
            res.push(steps[i].clone());
            assert(step_views(res@) =~= before.push(steps@[i as int]@));
        }
        i = i + 1;
    }
    res
}

/// Sample-FF of a plan of ground steps.
#[verifier::rlimit(40)]
pub fn sample_ff(plan: &Plan, model: &SampleFfModel, k: usize) -> (res: u128)
    requires
        plan.wf(),
        model.wf(),
    ensures
        is_sample_ff(model, plan@, plan.id, k as nat, res),
{
    let committed = committed_steps(plan);
    let ghost own = real_steps(plan@.steps, plan@.steps.len());
    let mut facts = Facts { table: model.facts.table.copy(), init: copy_vec(&model.facts.init) };
    let ghost first = facts.init@;
    let ghost known = model.facts();
    assert(facts.list() =~= known);
    assert(known.take(known.len() as int) =~= known);
    let mut resolved: Vec<ResolvedStep> = Vec::new();
    let mut i: usize = 0;
    while i < committed.len()
        invariant
            step_views(committed@) == own,
            facts.wf(),
            extends_flags(first, facts.init@),
            extends(known, facts.list()),
            i <= committed@.len(),
            resolved@.len() == i,
            forall|j: int| 0 <= j < i ==> is_resolved(facts.list(), own[j].action, (#[trigger] resolved@[j])@),
        decreases committed@.len() - i,
    {
        let ghost mid = facts.list();
        let ghost done = resolved@;
        let s = resolve_step(&committed[i].action, &mut facts, Ghost(first));
        assert(own[i as int] == committed@[i as int]@);
        resolved.push(s);
        proof {
            lemma_extends(known, mid, facts.list());
            assert forall|j: int| 0 <= j < i + 1 implies is_resolved(facts.list(), own[j].action, (#[trigger] resolved@[j])@) by {
                if j < i {
                    assert(is_resolved(mid, own[j].action, done[j]@));
                    lemma_still_resolved(mid, facts.list(), own[j].action, done[j]@);
                    assert(resolved@[j] == done[j]);
                }
            }
        }
        i = i + 1;
    }
    let ghost all = Seq::new(resolved@.len(), |j: int| resolved@[j]@);
    let ghost b = SampleBase { facts: facts.list(), init: facts.init@, steps: all };
    proof {
        lemma_named_actions(known, facts.list(), model.relaxed());
        lemma_named(known, facts.list(), model.goal());
        assert(is_sample_base(model, plan@, b));
        lemma_order_strict(plan, own);
    }
    let reach = saturate(&facts.init, &model.relaxed, facts.init.len());
    let table = order_table(plan, &committed);
    let ghost before = step_before(plan@.order, own);
    let mut rng = Rng::seed(plan.num_steps(), plan.num_open_conds(), plan.serial_no());
    let ghost start = rng@;
    let rounds: usize = if committed.len() == 0 {
        1
    } else {
        k
    };
    let mut best: Option<u128> = None;
    let ghost mut lins: Seq<Seq<usize>> = seq![];
    let mut r: usize = 0;
    while r < rounds
        invariant
            model.wf(),
            facts.wf(),
            b == (SampleBase { facts: facts.list(), init: facts.init@, steps: all }),
            all == Seq::new(resolved@.len(), |j: int| resolved@[j]@),
            resolved@.len() == table@.len(),
            table@.len() == own.len(),
            is_table(table@, before),
            is_strict(before, table@.len()),
            before == step_before(plan@.order, own),
            acts_below(model.relaxed(), facts.list().len()),
            below(model.goal(), facts.list().len()),
            is_saturated(facts.init@, model.relaxed(), facts.init@.len(), reach@),
            forall|j: int| 0 <= j < resolved@.len() ==> below((#[trigger] all[j]).pre, facts.list().len()) && below(all[j].add, facts.list().len())
                && below(all[j].del, facts.list().len()),
            r <= rounds,
            (lins, rng@) == all_drawn(before, own.len(), start, r as nat),
            is_least_estimate(model, b, lins, best),
        decreases rounds - r,
    {
        let lin = sample_linearization(&table, &mut rng, Ghost(before));
        let mut steps: Vec<&ResolvedStep> = Vec::new();
        let mut j: usize = 0;
        while j < lin.len()
            invariant
                crate::linearize::is_linearization(before, resolved@.len(), lin@),
                j <= lin@.len(),
                steps@.len() == j,
                forall|m: int| 0 <= m < j ==> *(#[trigger] steps@[m]) == resolved@[lin@[m] as int],
            decreases lin@.len() - j,
        {
            assert(lin@[j as int] < resolved@.len());
            steps.push(&resolved[lin[j]]);
            j = j + 1;
        }
        let ghost order = in_order(b.steps, lin@);
        proof {
            assert forall|m: int| 0 <= m < steps@.len() implies resolved_views(steps@)[m] == #[trigger] order[m] by {
                assert(lin@[m] < resolved@.len());
                assert(*steps@[m] == resolved@[lin@[m] as int]);
            }
            assert(resolved_views(steps@) =~= order);
            assert(steps_below(order, facts.list().len())) by {
                assert forall|m: int| 0 <= m < order.len() implies below((#[trigger] order[m]).pre, facts.list().len()) && below(
                    order[m].add,
                    facts.list().len(),
                ) && below(order[m].del, facts.list().len()) by {
                    assert(lin@[m] < resolved@.len());
                    assert(order[m] == all[lin@[m] as int]);
                }
            }
        }
        let found = estimate_linearization(&facts.init, &reach, &steps, &model.goal, &model.relaxed);
        let ghost old_best = best;
        best = match (best, found) {
            (None, f) => f,
            (b, None) => b,
            (Some(x), Some(y)) => if y < x {
                Some(y)
            } else {
                Some(x)
            },
        };
        proof {
            lemma_more_samples(model, b, lins, lin@, old_best, found);
            lins = lins.push(lin@);
        }
        r = r + 1;
    }
    let res = match best {
        Some(v) => v,
        None => plan.num_open_conds() as u128,
    };
    proof {
        assert(lins == samples(plan@, plan.id, k as nat));
        assert(is_least_estimate(model, b, samples(plan@, plan.id, k as nat), best));
    }
    res
}

/// The lesser of two estimates, if there are any.
spec fn lesser_of(x: Option<u128>, y: Option<u128>) -> Option<u128> {
    match (x, y) {
        (None, f) => f,
        (b, None) => b,
        (Some(x), Some(y)) => if y < x {
            Some(y)
        } else {
            Some(x)
        },
    }
}

proof fn lemma_more_samples(model: &SampleFfModel, b: SampleBase, lins: Seq<Seq<usize>>, lin: Seq<usize>, best: Option<u128>, found: Option<u128>)
    requires
        is_least_estimate(model, b, lins, best),
        match found {
            Some(v) => is_estimate(model, b, lin, v),
            None => !is_feasible(b.init, model.relaxed(), in_order(b.steps, lin), model.goal()),
        },
    ensures
        is_least_estimate(model, b, lins.push(lin), lesser_of(best, found)),
{
    let more = lins.push(lin);
    assert(more[lins.len() as int] == lin);
    match lesser_of(best, found) {
        None => {
            assert forall|i: int| 0 <= i < more.len() implies !is_feasible(
                b.init,
                model.relaxed(),
                in_order(b.steps, #[trigger] more[i]),
                model.goal(),
            ) by {
                if i < lins.len() {
                    assert(more[i] == lins[i]);
                }
            }
        },
        Some(v) => {
            if best == Some(v) {
                let i = choose|i: int| 0 <= i < lins.len() && #[trigger] is_estimate(model, b, lins[i], v);
                assert(more[i] == lins[i]);
                assert(is_estimate(model, b, more[i], v));
            } else {
                assert(is_estimate(model, b, more[lins.len() as int], v));
            }
            assert forall|i: int|
                0 <= i < more.len() && is_feasible(b.init, model.relaxed(), in_order(b.steps, #[trigger] more[i]), model.goal()) implies exists|w: u128|
                v <= w && #[trigger] is_estimate(model, b, more[i], w) by {
                if i < lins.len() {
                    assert(more[i] == lins[i]);
                    match best {
                        Some(x) => {
                            let w = choose|w: u128| x <= w && #[trigger] is_estimate(model, b, lins[i], w);
                            assert(is_estimate(model, b, more[i], w));
                        },
                        None => {},
                    }
                } else {
                    match found {
                        Some(y) => {
                            assert(is_estimate(model, b, more[i], y));
                        },
                        None => {},
                    }
                }
            }
        },
    }
}

/// The rank of a plan of ground steps: the number of steps and the weighted estimate.
pub open spec fn is_sampled_rank(model: &SampleFfModel, weight: i128, p: PlanView, id: usize, k: nat, rank: i128) -> bool {
    exists|h: u128| #[trigger] is_sample_ff(model, p, id, k, h) && rank == total_rank(p.num_steps as usize, weight, h as nat)
}

/// The Sample-FF rank of a plan. In lifted search it falls back to the weighted number
/// of open conditions and needs no model.
pub open spec fn is_sample_ff_rank(
    ground: bool,
    model: Option<&SampleFfModel>,
    weight: i128,
    p: PlanView,
    id: usize,
    k: nat,
    rank: i128,
) -> bool {
    if !ground {
        rank == total_rank(p.num_steps as usize, weight, counted(p.opens.len()) as nat)
    } else {
        match model {
            Some(m) => is_sampled_rank(m, weight, p, id, k, rank),
            None => false,
        }
    }
}

/// Computes the Sample-FF rank term: the number of steps plus the weighted
/// estimate over `k` sampled linearizations. Ground search only; lifted plans fall
/// back to the number of open conditions.
pub fn sample_ff_rank(plan: &Plan, ctx: &SearchContext, model: &SampleFfModel, weight: i128, k: usize) -> (res: i128)
    requires
        plan.wf(),
        model.wf(),
    ensures
        is_sample_ff_rank(ctx.params.ground_actions, Some(model), weight, plan@, plan.id, k as nat, res),
{
    if !ctx.params.ground_actions {
        return ranks_of_estimate(plan.num_steps(), weight, plan.num_open_conds() as u128).0;
    }
    let h = sample_ff(plan, model, k);
    let rank = ranks_of_estimate(plan.num_steps(), weight, h).0;
    assert(is_sample_ff(model, plan@, plan.id, k as nat, h));
    assert(is_sampled_rank(model, weight, plan@, plan.id, k as nat, rank));
    rank
}

} // verus!
