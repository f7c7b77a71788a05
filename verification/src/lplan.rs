//! The Lplan linear-programming heuristic over the causal-link compilation.
//!
//! A task with a bound on the plan length becomes a time-indexed 0-1 program, with
//! a variable for every fact and every operator at every time point, and with
//! precondition, frame and "at most one operator per step" rows. It is relaxed to a
//! linear program over `[0, 1]`. Where the relaxed program at a length has no
//! solution there is no plan of that length, so the smallest length whose program
//! has one is an admissible bound on the length of any completion.
//!
//! The smallest such horizon is normally close to the number of committed steps, so
//! horizons are tried upward from there and the first one that works is taken.
use good_lp::constraint::{eq, leq};
use good_lp::solvers::microlp::microlp;
use good_lp::SolverModel;

use vstd::prelude::*;

use crate::fdr_rank::ranks_of_estimate;
use crate::ground_task::{ground_task, grounded, grounding_of, BaseGroundTask};
use crate::plan::{counted, Plan};
use crate::plan_model::PlanView;
use crate::fdr_rank::total_rank;
use crate::sas::{ground_effects, ground_ops, GroundEffect, GroundEffectView, GroundOp, GroundOpView, GroundTask, GroundTaskView};
use crate::search::SearchContext;

verus! {

/// The factor of a variable that is taken away.
pub const MINUS_ONE: i32 = -1;

/// How many time steps beyond the committed steps to search for a feasible horizon
/// before giving up and returning the cap, an admissible underestimate.
pub const HORIZON_EXTRA: usize = 6;

/// How the sum of a row relates to its bound.
#[derive(Debug, Clone, Copy, PartialEq, Eq, Structural)]
pub enum Relation {
    AtMost,
    Equal,
}

/// A row of a linear program: a weighted sum of variables and its bound.
#[derive(Debug)]
pub struct Row {
    pub terms: Vec<(usize, i32)>,
    pub relation: Relation,
    pub bound: i32,
}

/// A linear program over variables with common bounds, to be minimised.
#[derive(Debug)]
pub struct Lp {
    pub vars: usize,
    pub low: i32,
    pub high: i32,
    pub rows: Vec<Row>,
    pub objective: Vec<(usize, i32)>,
}

#[verifier::ext_equal]
pub struct RowView {
    pub terms: Seq<(usize, i32)>,
    pub relation: Relation,
    pub bound: i32,
}

#[verifier::ext_equal]
pub struct LpView {
    pub vars: usize,
    pub low: i32,
    pub high: i32,
    pub rows: Seq<RowView>,
    pub objective: Seq<(usize, i32)>,
}

impl View for Row {
    type V = RowView;

    open spec fn view(&self) -> RowView {
        RowView { terms: self.terms@, relation: self.relation, bound: self.bound }
    }
}

pub open spec fn row_views(rows: Seq<Row>) -> Seq<RowView> {
    Seq::new(rows.len(), |i: int| rows[i]@)
}

impl View for Lp {
    type V = LpView;

    open spec fn view(&self) -> LpView {
        LpView { vars: self.vars, low: self.low, high: self.high, rows: row_views(self.rows@), objective: self.objective@ }
    }
}

/// Whether the terms are over the first `n` variables.
pub open spec fn within(terms: Seq<(usize, i32)>, n: usize) -> bool {
    forall|i: int| 0 <= i < terms.len() ==> (#[trigger] terms[i]).0 < n
}

/// Whether the variables are among the first `n`.
pub open spec fn below(vs: Seq<usize>, n: usize) -> bool {
    forall|i: int| 0 <= i < vs.len() ==> (#[trigger] vs[i]) < n
}

impl LpView {
    /// The rows and the objective are over the program's own variables.
    pub open spec fn wf(self) -> bool {
        &&& forall|i: int| 0 <= i < self.rows.len() ==> within((#[trigger] self.rows[i]).terms, self.vars)
        &&& within(self.objective, self.vars)
        &&& self.low <= self.high
    }
}

/// Whether the `microlp` solver of the `good_lp` crate finds a solution of a linear
/// program.
pub uninterp spec fn lp_feasible(lp: LpView) -> bool;

/// Hands a linear program to `good_lp`'s `SolverModel::solve` with its `microlp`
/// solver. Whether that succeeds is a function of the program, named
/// [`lp_feasible`]; nothing else is claimed of it.
#[verifier::external_body]
fn solve(lp: &Lp) -> (res: bool)
    requires
        lp@.wf(),
    ensures
        res == lp_feasible(lp@),
{
    let mut vars = good_lp::ProblemVariables::new();
    let v = vars.add_vector(good_lp::variable().min(lp.low).max(lp.high), lp.vars);
    let sum = |ts: &Vec<(usize, i32)>| -> good_lp::Expression { ts.iter().map(|t| v[t.0] * t.1).sum() };
    let rows = lp.rows.iter().map(|r| match r.relation {
        Relation::AtMost => leq(sum(&r.terms), r.bound),
        Relation::Equal => eq(sum(&r.terms), r.bound),
    });
    vars.minimise(sum(&lp.objective)).using(microlp).with_all(rows).solve().is_ok()
}

/// A new variable. The last number is given again where the numbers run out.
pub open spec fn fresh(lp: LpView) -> (usize, LpView) {
    if lp.vars < usize::MAX {
        (lp.vars, LpView { vars: (lp.vars + 1) as usize, ..lp })
    } else {
        ((lp.vars - 1) as usize, lp)
    }
}

/// `n` new variables.
pub open spec fn fresh_row(lp: LpView, n: nat) -> (Seq<usize>, LpView)
    decreases n,
{
    if n == 0 {
        (seq![], lp)
    } else {
        let (vs, lp1) = fresh_row(lp, (n - 1) as nat);
        let (v, lp2) = fresh(lp1);
        (vs.push(v), lp2)
    }
}

/// `m` times `n` new variables.
pub open spec fn fresh_rows(lp: LpView, n: nat, m: nat) -> (Seq<Seq<usize>>, LpView)
    decreases m,
{
    if m == 0 {
        (seq![], lp)
    } else {
        let (vss, lp1) = fresh_rows(lp, n, (m - 1) as nat);
        let (vs, lp2) = fresh_row(lp1, n);
        (vss.push(vs), lp2)
    }
}

/// A program with one more row.
pub open spec fn with_row(lp: LpView, terms: Seq<(usize, i32)>, relation: Relation, bound: i32) -> LpView {
    LpView { rows: lp.rows.push(RowView { terms, relation, bound }), ..lp }
}

/// A truth value as a number.
pub open spec fn as_number(b: bool) -> i32 {
    if b {
        1
    } else {
        0
    }
}

/// The variable of a fact, if the task has it.
pub open spec fn var_at(p: Seq<usize>, f: usize) -> Option<usize> {
    if f < p.len() {
        Some(p[f as int])
    } else {
        None
    }
}

/// The first `n` facts have their initial values.
pub open spec fn with_init(lp: LpView, p: Seq<usize>, init: Seq<bool>, n: nat) -> LpView
    decreases n,
{
    if n == 0 {
        lp
    } else {
        with_row(with_init(lp, p, init, (n - 1) as nat), seq![(p[n - 1], 1)], Relation::Equal, as_number(init[n - 1]))
    }
}

/// The row that bounds a variable by the truth of a fact, or by its falsehood.
pub open spec fn with_bound(lp: LpView, trig: usize, v: usize, truth: bool) -> LpView {
    if truth {
        with_row(lp, seq![(trig, 1), (v, MINUS_ONE)], Relation::AtMost, 0)
    } else {
        with_row(lp, seq![(trig, 1), (v, 1)], Relation::AtMost, 1)
    }
}

/// An operator needs those of its first `n` preconditions that require a truth
/// value.
pub open spec fn with_pre(lp: LpView, pre: Seq<(usize, bool)>, truth: bool, trig: usize, p: Seq<usize>, n: nat) -> LpView
    decreases n,
{
    if n == 0 {
        lp
    } else {
        let rest = with_pre(lp, pre, truth, trig, p, (n - 1) as nat);
        match var_at(p, pre[n - 1].0) {
            Some(v) => if pre[n - 1].1 == truth {
                with_bound(rest, trig, v, truth)
            } else {
                rest
            },
            None => rest,
        }
    }
}

/// The conditions of an effect so far: the program, and the sum that bounds the
/// firing from below.
pub struct Firing {
    pub lp: LpView,
    pub lower: Seq<(usize, i32)>,
    pub bound: i32,
}

/// A number and one, as far as it can be counted.
pub open spec fn one_more(n: i32) -> i32 {
    if n < i32::MAX {
        (n + 1) as i32
    } else {
        n
    }
}

/// The first `n` conditions of an effect that fires.
pub open spec fn with_conditions(start: Firing, fire: usize, cond: Seq<(usize, bool)>, p: Seq<usize>, n: nat) -> Firing
    decreases n,
{
    if n == 0 {
        start
    } else {
        let rest = with_conditions(start, fire, cond, p, (n - 1) as nat);
        match var_at(p, cond[n - 1].0) {
            Some(v) => if cond[n - 1].1 {
                Firing { lp: with_bound(rest.lp, fire, v, true), lower: rest.lower.push((v, 1)), bound: one_more(rest.bound) }
            } else {
                Firing { lp: with_bound(rest.lp, fire, v, false), lower: rest.lower.push((v, MINUS_ONE)), bound: rest.bound }
            },
            None => rest,
        }
    }
}

/// The variable that says whether a conditional effect fires: the operator is
/// applied and the conditions hold.
pub open spec fn fired(lp: LpView, trig: usize, cond: Seq<(usize, bool)>, p: Seq<usize>) -> (usize, LpView) {
    if cond.len() == 0 {
        (trig, lp)
    } else {
        let (fire, lp1) = fresh(lp);
        let lp2 = with_row(lp1, seq![(fire, 1), (trig, MINUS_ONE)], Relation::AtMost, 0);
        let all = with_conditions(Firing { lp: lp2, lower: seq![(trig, 1)], bound: 0 }, fire, cond, p, cond.len());
        (fire, with_row(all.lp, all.lower.push((fire, MINUS_ONE)), Relation::AtMost, all.bound))
    }
}

/// A time point so far: the program, and what changes each fact.
pub struct Stage {
    pub lp: LpView,
    /// By fact, with opposite sign.
    pub change: Seq<Seq<(usize, i32)>>,
}

/// An effect of an operator. One that its precondition makes void changes nothing;
/// otherwise a variable corrects for the fact having the value before.
pub open spec fn with_change(st: Stage, pre: Seq<(usize, bool)>, trig: usize, p: Seq<usize>, e: GroundEffectView) -> Stage {
    match var_at(p, e.fact) {
        None => st,
        Some(v) => {
            let (fire, lp1) = fired(st.lp, trig, e.cond, p);
            if pre.contains((e.fact, e.value)) {
                Stage { lp: lp1, ..st }
            } else {
                let (same, lp2) = fresh(lp1);
                let lp3 = with_row(lp2, seq![(same, 1), (fire, MINUS_ONE)], Relation::AtMost, 0);
                let lp4 = with_bound(lp3, same, v, e.value);
                let sign: i32 = if e.value {
                    1
                } else {
                    MINUS_ONE
                };
                Stage {
                    lp: with_row(lp4, seq![(fire, 1), (same, MINUS_ONE), (v, sign)], Relation::AtMost, as_number(e.value)),
                    change: st.change.update(
                        e.fact as int,
                        st.change[e.fact as int].push((fire, (0 - sign) as i32)).push((same, sign)),
                    ),
                }
            }
        },
    }
}

/// The first `n` effects of an operator.
pub open spec fn with_changes(st: Stage, o: GroundOpView, trig: usize, p: Seq<usize>, n: nat) -> Stage
    decreases n,
{
    if n == 0 {
        st
    } else {
        with_change(with_changes(st, o, trig, p, (n - 1) as nat), o.pre, trig, p, o.effects[n - 1])
    }
}

/// The first `n` operators at a time point.
pub open spec fn with_operators(st: Stage, ops: Seq<GroundOpView>, o: Seq<usize>, p: Seq<usize>, n: nat) -> Stage
    decreases n,
{
    if n == 0 {
        st
    } else {
        let rest = with_operators(st, ops, o, p, (n - 1) as nat);
        let op = ops[n - 1];
        let lp1 = with_pre(rest.lp, op.pre, true, o[n - 1], p, op.pre.len());
        let lp2 = with_pre(lp1, op.pre, false, o[n - 1], p, op.pre.len());
        with_changes(Stage { lp: lp2, ..rest }, op, o[n - 1], p, op.effects.len())
    }
}

/// The first `n` facts follow from those before and the changes.
pub open spec fn with_frames(lp: LpView, p: Seq<usize>, next: Seq<usize>, change: Seq<Seq<(usize, i32)>>, n: nat) -> LpView
    decreases n,
{
    if n == 0 {
        lp
    } else {
        with_row(
            with_frames(lp, p, next, change, (n - 1) as nat),
            seq![(next[n - 1], 1i32), (p[n - 1], MINUS_ONE)] + change[n - 1],
            Relation::Equal,
            0,
        )
    }
}

/// Variables, each with the factor one.
pub open spec fn plain_sum(vs: Seq<usize>) -> Seq<(usize, i32)> {
    Seq::new(vs.len(), |i: int| (vs[i], 1i32))
}

/// One time point: at most one operator, and what it does.
pub open spec fn with_time(lp: LpView, ops: Seq<GroundOpView>, o: Seq<usize>, p: Seq<usize>, next: Seq<usize>) -> LpView {
    let lp1 = with_row(lp, plain_sum(o), Relation::AtMost, 1);
    let idle = Seq::new(p.len(), |i: int| Seq::<(usize, i32)>::empty());
    let st = with_operators(Stage { lp: lp1, change: idle }, ops, o, p, ops.len());
    with_frames(st.lp, p, next, st.change, p.len())
}

/// The first `n` time points.
pub open spec fn with_times(lp: LpView, ops: Seq<GroundOpView>, o: Seq<Seq<usize>>, p: Seq<Seq<usize>>, n: nat) -> LpView
    decreases n,
{
    if n == 0 {
        lp
    } else {
        with_time(with_times(lp, ops, o, p, (n - 1) as nat), ops, o[n - 1], p[n - 1], p[n as int])
    }
}

/// The first `n` goals hold.
pub open spec fn with_goals(lp: LpView, goal: Seq<(usize, bool)>, p: Seq<usize>, n: nat) -> LpView
    decreases n,
{
    if n == 0 {
        lp
    } else {
        let rest = with_goals(lp, goal, p, (n - 1) as nat);
        match var_at(p, goal[n - 1].0) {
            Some(v) => with_row(rest, seq![(v, 1)], Relation::Equal, as_number(goal[n - 1].1)),
            None => rest,
        }
    }
}

/// The use of the first `n` rows of operators.
pub open spec fn usage(o: Seq<Seq<usize>>, n: nat) -> Seq<(usize, i32)>
    decreases n,
{
    if n == 0 {
        seq![]
    } else {
        usage(o, (n - 1) as nat) + plain_sum(o[n - 1])
    }
}

/// The relaxed program of a task at a horizon; it minimises the use of operators.
pub open spec fn horizon_lp(t: GroundTaskView, l: nat) -> LpView {
    let none = LpView { vars: 0, low: 0, high: 1, rows: seq![], objective: seq![] };
    let (p, lp1) = fresh_rows(none, t.facts.len(), l + 1);
    let (o, lp2) = fresh_rows(lp1, t.ops.len(), l);
    let lp3 = with_init(lp2, p[0], t.init, t.facts.len());
    let lp4 = with_times(lp3, t.ops, o, p, l);
    let lp5 = with_goals(lp4, t.goal, p[l as int], t.goal.len());
    LpView { objective: usage(o, l), ..lp5 }
}

/// The first horizon from `l` on whose program has a solution; the cap if there is
/// none before it.
pub open spec fn first_horizon(t: GroundTaskView, l: nat, cap: nat) -> nat
    decreases cap - l,
{
    if l >= cap || lp_feasible(horizon_lp(t, l)) {
        l
    } else {
        first_horizon(t, l + 1, cap)
    }
}

pub open spec fn var_rows(vss: Seq<Vec<usize>>) -> Seq<Seq<usize>> {
    Seq::new(vss.len(), |i: int| vss[i]@)
}

pub open spec fn change_rows(vss: Seq<Vec<(usize, i32)>>) -> Seq<Seq<(usize, i32)>> {
    Seq::new(vss.len(), |i: int| vss[i]@)
}

proof fn lemma_more_vars(lp: LpView, n: usize)
    requires
        lp.wf(),
        lp.vars <= n,
    ensures
        (LpView { vars: n, ..lp }).wf(),
{
    assert forall|i: int| 0 <= i < lp.rows.len() implies within((#[trigger] lp.rows[i]).terms, n) by {
        assert(within(lp.rows[i].terms, lp.vars));
    }
}

impl Lp {
    /// A new variable.
    fn fresh(&mut self) -> (res: usize)
        requires
            old(self)@.wf(),
        ensures
            (res, final(self)@) == fresh(old(self)@),
            final(self)@.wf(),
            final(self)@.vars >= old(self)@.vars,
            res < final(self)@.vars,
    {
        let ghost before = self@;
        if self.vars < usize::MAX {
            let v = self.vars;
            self.vars = v + 1;
            proof {
                lemma_more_vars(before, (v + 1) as usize);
            }
            v
        } else {
            self.vars - 1
        }
    }

    /// Some new variables.
    fn fresh_row(&mut self, n: usize) -> (res: Vec<usize>)
        requires
            old(self)@.wf(),
        ensures
            (res@, final(self)@) == fresh_row(old(self)@, n as nat),
            final(self)@.wf(),
            final(self)@.vars >= old(self)@.vars,
            res@.len() == n,
            below(res@, final(self)@.vars),
    {
        let ghost start = self@;
        let mut vs: Vec<usize> = Vec::new();
        let mut i: usize = 0;
        assert(vs@ =~= seq![]);
        while i < n
            invariant
                start == old(self)@,
                self@.wf(),
                self@.vars >= start.vars,
                i <= n,
                vs@.len() == i,
                below(vs@, self@.vars),
                (vs@, self@) == fresh_row(start, i as nat),
            decreases n - i,
        {
            let v = self.fresh();
            vs.push(v);
            i = i + 1;
        }
        vs
    }

    /// Rows of new variables.
    fn fresh_rows(&mut self, n: usize, m: usize) -> (res: Vec<Vec<usize>>)
        requires
            old(self)@.wf(),
        ensures
            (var_rows(res@), final(self)@) == fresh_rows(old(self)@, n as nat, m as nat),
            final(self)@.wf(),
            final(self)@.vars >= old(self)@.vars,
            res@.len() == m,
            forall|i: int| 0 <= i < m ==> (#[trigger] res@[i])@.len() == n && below(res@[i]@, final(self)@.vars),
    {
        let ghost start = self@;
        let mut vss: Vec<Vec<usize>> = Vec::new();
        let mut i: usize = 0;
        assert(var_rows(vss@) =~= seq![]);
        while i < m
            invariant
                start == old(self)@,
                self@.wf(),
                self@.vars >= start.vars,
                i <= m,
                vss@.len() == i,
                forall|k: int| 0 <= k < i ==> (#[trigger] vss@[k])@.len() == n && below(vss@[k]@, self@.vars),
                (var_rows(vss@), self@) == fresh_rows(start, n as nat, i as nat),
            decreases m - i,
        {
            let ghost before = var_rows(vss@);
            let ghost mid = self@.vars;
            let ghost old_rows = vss@;
            let vs = self.fresh_row(n);
            let ghost vv = vs@;
            vss.push(vs);
            proof {
                assert(var_rows(vss@) =~= before.push(vv));
                assert forall|k: int| 0 <= k < i + 1 implies (#[trigger] vss@[k])@.len() == n && below(vss@[k]@, self@.vars) by {
                    if k < i {
                        assert(vss@[k] == old_rows[k]);
                        assert(below(old_rows[k]@, mid));
                    }
                }
            }
            i = i + 1;
        }
        vss
    }

    /// Adds a row.
    fn add(&mut self, terms: Vec<(usize, i32)>, relation: Relation, bound: i32)
        requires
            old(self)@.wf(),
            within(terms@, old(self)@.vars),
        ensures
            final(self)@ == with_row(old(self)@, terms@, relation, bound),
            final(self)@.wf(),
            final(self)@.vars == old(self)@.vars,
    {
        let ghost before = self@;
        let row = Row { terms, relation, bound };
        let ghost rv = row@;
        self.rows.push(row);
        proof {
            assert(row_views(self.rows@) =~= before.rows.push(rv));
            assert(self@ =~= with_row(before, rv.terms, relation, bound));
            assert forall|i: int| 0 <= i < self@.rows.len() implies within((#[trigger] self@.rows[i]).terms, self@.vars) by {
                if i < before.rows.len() {
                    assert(self@.rows[i] == before.rows[i]);
                }
            }
        }
    }

    /// Bounds a variable by the truth of a fact, or by its falsehood.
    fn bound(&mut self, trig: usize, v: usize, truth: bool)
        requires
            old(self)@.wf(),
            trig < old(self)@.vars,
            v < old(self)@.vars,
        ensures
            final(self)@ == with_bound(old(self)@, trig, v, truth),
            final(self)@.wf(),
            final(self)@.vars == old(self)@.vars,
    {
        if truth {
            self.add(two((trig, 1), (v, MINUS_ONE)), Relation::AtMost, 0);
        } else {
            self.add(two((trig, 1), (v, 1)), Relation::AtMost, 1);
        }
    }

    /// The preconditions of an operator that require a truth value.
    fn add_pre(&mut self, pre: &Vec<(usize, bool)>, truth: bool, trig: usize, p: &Vec<usize>)
        requires
            old(self)@.wf(),
            trig < old(self)@.vars,
            below(p@, old(self)@.vars),
        ensures
            final(self)@ == with_pre(old(self)@, pre@, truth, trig, p@, pre@.len()),
            final(self)@.wf(),
            final(self)@.vars == old(self)@.vars,
    {
        let ghost start = self@;
        let mut i: usize = 0;
        while i < pre.len()
            invariant
                start == old(self)@,
                self@.wf(),
                self@.vars == start.vars,
                trig < start.vars,
                below(p@, start.vars),
                i <= pre@.len(),
                self@ == with_pre(start, pre@, truth, trig, p@, i as nat),
            decreases pre@.len() - i,
        {
            let (f, t) = pre[i];
            if t == truth && f < p.len() {
                self.bound(trig, p[f], truth);
            }
            i = i + 1;
        }
    }

    /// The variable that says whether an effect fires.
    fn fire(&mut self, trig: usize, cond: &Vec<(usize, bool)>, p: &Vec<usize>) -> (res: usize)
        requires
            old(self)@.wf(),
            trig < old(self)@.vars,
            below(p@, old(self)@.vars),
        ensures
            (res, final(self)@) == fired(old(self)@, trig, cond@, p@),
            final(self)@.wf(),
            final(self)@.vars >= old(self)@.vars,
            res < final(self)@.vars,
    {
        if cond.len() == 0 {
            return trig;
        }
        let fire = self.fresh();
        self.add(two((fire, 1), (trig, MINUS_ONE)), Relation::AtMost, 0);
        let mut lower: Vec<(usize, i32)> = Vec::new();
        lower.push((trig, 1));
        let mut bound: i32 = 0;
        assert(lower@ =~= seq![(trig, 1i32)]);
        let ghost start = Firing { lp: self@, lower: lower@, bound };
        let mut i: usize = 0;
        while i < cond.len()
            invariant
                self@.wf(),
                self@.vars == start.lp.vars,
                self@.vars >= old(self)@.vars,
                fire < self@.vars,
                below(p@, old(self)@.vars),
                within(lower@, self@.vars),
                i <= cond@.len(),
                (Firing { lp: self@, lower: lower@, bound }) == with_conditions(start, fire, cond@, p@, i as nat),
            decreases cond@.len() - i,
        {
            let (f, t) = cond[i];
            if f < p.len() {
                let v = p[f];
                self.bound(fire, v, t);
                if t {
                    lower.push((v, 1));
                    if bound < i32::MAX {
                        bound = bound + 1;
                    }
                } else {
                    lower.push((v, MINUS_ONE));
                }
            }
            i = i + 1;
        }
        lower.push((fire, MINUS_ONE));
        self.add(lower, Relation::AtMost, bound);
        fire
    }
}

fn two(a: (usize, i32), b: (usize, i32)) -> (res: Vec<(usize, i32)>)
    ensures
        res@ == seq![a, b],
{
    let mut res: Vec<(usize, i32)> = Vec::new();
    res.push(a);
    res.push(b);
    assert(res@ =~= seq![a, b]);
    res
}

fn one(a: (usize, i32)) -> (res: Vec<(usize, i32)>)
    ensures
        res@ == seq![a],
{
    let mut res: Vec<(usize, i32)> = Vec::new();
    res.push(a);
    assert(res@ =~= seq![a]);
    res
}

fn requires_value(pre: &Vec<(usize, bool)>, f: usize, t: bool) -> (res: bool)
    ensures
        res == pre@.contains((f, t)),
{
    let mut i: usize = 0;
    while i < pre.len()
        invariant
            i <= pre@.len(),
            forall|k: int| 0 <= k < i ==> pre@[k] != (f, t),
        decreases pre@.len() - i,
    {
        let (g, u) = pre[i];
        if g == f && u == t {
            assert(pre@[i as int] == (f, t));
            return true;
        }
        i = i + 1;
    }
    false
}

/// Whether the changes are over the first `n` variables.
pub open spec fn changes_within(change: Seq<Seq<(usize, i32)>>, n: usize) -> bool {
    forall|i: int| 0 <= i < change.len() ==> within(#[trigger] change[i], n)
}

proof fn lemma_changes_grow(change: Seq<Seq<(usize, i32)>>, n: usize, m: usize)
    requires
        changes_within(change, n),
        n <= m,
    ensures
        changes_within(change, m),
{
    assert forall|i: int| 0 <= i < change.len() implies within(#[trigger] change[i], m) by {
        assert(within(change[i], n));
    }
}

/// An effect of an operator.
fn add_change(lp: &mut Lp, change: &mut Vec<Vec<(usize, i32)>>, pre: &Vec<(usize, bool)>, trig: usize, p: &Vec<usize>, e: &GroundEffect)
    requires
        old(lp)@.wf(),
        trig < old(lp)@.vars,
        below(p@, old(lp)@.vars),
        old(change)@.len() == p@.len(),
        changes_within(change_rows(old(change)@), old(lp)@.vars),
    ensures
        ({
            let st = with_change(Stage { lp: old(lp)@, change: change_rows(old(change)@) }, pre@, trig, p@, e@);
            final(lp)@ == st.lp && change_rows(final(change)@) == st.change
        }),
        final(lp)@.wf(),
        final(lp)@.vars >= old(lp)@.vars,
        final(change)@.len() == p@.len(),
        changes_within(change_rows(final(change)@), final(lp)@.vars),
{
    let ghost before = change_rows(change@);
    let ghost n0 = lp@.vars;
    if e.fact >= p.len() {
        return;
    }
    let v = p[e.fact];
    let fire = lp.fire(trig, &e.cond, p);
    if requires_value(pre, e.fact, e.value) {
        proof {
            lemma_changes_grow(before, n0, lp@.vars);
        }
        return;
    }
    let same = lp.fresh();
    lp.add(two((same, 1), (fire, MINUS_ONE)), Relation::AtMost, 0);
    lp.bound(same, v, e.value);
    let sign: i32 = if e.value {
        1
    } else {
        MINUS_ONE
    };
    let mut terms = two((fire, 1), (same, MINUS_ONE));
    terms.push((v, sign));
    assert(terms@ =~= seq![(fire, 1i32), (same, MINUS_ONE), (v, sign)]);
    lp.add(
        terms,
        Relation::AtMost,
        if e.value {
            1
        } else {
            0
        },
    );
    change[e.fact].push((fire, 0 - sign));
    change[e.fact].push((same, sign));
    proof {
        let at = e.fact as int;
        let after = before.update(at, before[at].push((fire, (0 - sign) as i32)).push((same, sign)));
        assert(change_rows(change@) =~= after);
        lemma_changes_grow(before, n0, lp@.vars);
        assert forall|i: int| 0 <= i < after.len() implies within(#[trigger] after[i], lp@.vars) by {
            assert(within(before[i], lp@.vars));
        }
    }
}

/// Some variables, each with the factor one.
fn sum_of(vs: &Vec<usize>) -> (res: Vec<(usize, i32)>)
    ensures
        res@ == plain_sum(vs@),
{
    let mut res: Vec<(usize, i32)> = Vec::new();
    let mut i: usize = 0;
    while i < vs.len()
        invariant
            i <= vs@.len(),
            res@ == plain_sum(vs@).take(i as int),
        decreases vs@.len() - i,
    {
        res.push((vs[i], 1));
        i = i + 1;
        assert(plain_sum(vs@).take(i as int) =~= plain_sum(vs@).take(i - 1).push((vs@[i - 1], 1i32)));
    }
    assert(plain_sum(vs@).take(i as int) =~= plain_sum(vs@));
    res
}

/// One time point.
#[verifier::rlimit(40)]
fn add_time(lp: &mut Lp, ops: &Vec<GroundOp>, o: &Vec<usize>, p: &Vec<usize>, next: &Vec<usize>)
    requires
        old(lp)@.wf(),
        o@.len() == ops@.len(),
        p@.len() == next@.len(),
        below(o@, old(lp)@.vars),
        below(p@, old(lp)@.vars),
        below(next@, old(lp)@.vars),
    ensures
        final(lp)@ == with_time(old(lp)@, ground_ops(ops@), o@, p@, next@),
        final(lp)@.wf(),
        final(lp)@.vars >= old(lp)@.vars,
{
    let ghost n0 = lp@.vars;
    let ghost all = ground_ops(ops@);
    let sum = sum_of(o);
    assert(within(sum@, n0)) by {
        assert forall|i: int| 0 <= i < sum@.len() implies (#[trigger] sum@[i]).0 < n0 by {
            assert(sum@[i] == (o@[i], 1i32));
        }
    }
    lp.add(sum, Relation::AtMost, 1);
    let mut change: Vec<Vec<(usize, i32)>> = Vec::new();
    let mut f: usize = 0;
    while f < p.len()
        invariant
            f <= p@.len(),
            change@.len() == f,
            forall|k: int| 0 <= k < f ==> (#[trigger] change@[k])@ == Seq::<(usize, i32)>::empty(),
        decreases p@.len() - f,
    {
        change.push(Vec::new());
        f = f + 1;
    }
    let ghost idle = Seq::new(p@.len(), |i: int| Seq::<(usize, i32)>::empty());
    assert(change_rows(change@) =~= idle);
    let ghost start = Stage { lp: lp@, change: idle };
    let mut i: usize = 0;
    while i < ops.len()
        invariant
            lp@.wf(),
            all == ground_ops(ops@),
            o@.len() == ops@.len(),
            below(o@, n0),
            below(p@, n0),
            n0 <= lp@.vars,
            change@.len() == p@.len(),
            changes_within(change_rows(change@), lp@.vars),
            i <= ops@.len(),
            (Stage { lp: lp@, change: change_rows(change@) }) == with_operators(start, all, o@, p@, i as nat),
        decreases ops@.len() - i,
    {
        let op = &ops[i];
        assert(all[i as int] == op@);
        let trig = o[i];
        lp.add_pre(&op.pre, true, trig, p);
        lp.add_pre(&op.pre, false, trig, p);
        let ghost here = Stage { lp: lp@, change: change_rows(change@) };
        let ghost es = ground_effects(op.effects@);
        let mut k: usize = 0;
        while k < op.effects.len()
            invariant
                lp@.wf(),
                es == ground_effects(op.effects@),
                es == op@.effects,
                trig < n0,
                below(p@, n0),
                n0 <= lp@.vars,
                change@.len() == p@.len(),
                changes_within(change_rows(change@), lp@.vars),
                k <= op.effects@.len(),
                (Stage { lp: lp@, change: change_rows(change@) }) == with_changes(here, op@, trig, p@, k as nat),
            decreases op.effects@.len() - k,
        {
            assert(es[k as int] == op.effects@[k as int]@);
            add_change(lp, &mut change, &op.pre, trig, p, &op.effects[k]);
            k = k + 1;
        }
        i = i + 1;
    }
    let ghost st = Stage { lp: lp@, change: change_rows(change@) };
    let ghost n1 = lp@.vars;
    let mut q: usize = 0;
    while q < p.len()
        invariant
            lp@.wf(),
            lp@.vars == n1,
            n0 <= n1,
            p@.len() == next@.len(),
            below(p@, n0),
            below(next@, n0),
            change@.len() == p@.len(),
            st.change == change_rows(change@),
            changes_within(st.change, n1),
            q <= p@.len(),
            lp@ == with_frames(st.lp, p@, next@, st.change, q as nat),
        decreases p@.len() - q,
    {
        let mut terms = two((next[q], 1), (p[q], MINUS_ONE));
        let ghost head = terms@;
        let more = &change[q];
        assert(within(st.change[q as int], n1));
        assert(st.change[q as int] == more@);
        let mut m: usize = 0;
        assert(head + more@.take(0) =~= head);
        while m < more.len()
            invariant
                m <= more@.len(),
                terms@ == head + more@.take(m as int),
            decreases more@.len() - m,
        {
            terms.push(more[m]);
            m = m + 1;
            assert(head + more@.take(m as int) =~= (head + more@.take(m - 1)).push(more@[m - 1]));
        }
        assert(more@.take(m as int) =~= more@);
        assert(within(terms@, n1)) by {
            assert forall|j: int| 0 <= j < terms@.len() implies (#[trigger] terms@[j]).0 < n1 by {
                if j >= head.len() {
                    assert(terms@[j] == more@[j - head.len()]);
                }
            }
        }
        lp.add(terms, Relation::Equal, 0);
        q = q + 1;
    }
}

/// Builds the relaxed program of a task at a horizon.
#[verifier::rlimit(40)]
pub fn build_horizon(task: &GroundTask, l: usize) -> (res: Lp)
    requires
        task@.wf(),
        l < usize::MAX,
    ensures
        res@ == horizon_lp(task@, l as nat),
        res@.wf(),
{
    let mut lp = Lp { vars: 0, low: 0, high: 1, rows: Vec::new(), objective: Vec::new() };
    assert(lp@ =~= LpView { vars: 0, low: 0, high: 1, rows: seq![], objective: seq![] });
    let f = task.num_facts();
    let m = task.num_ops();
    let p = lp.fresh_rows(f, l + 1);
    let ghost n1 = lp@.vars;
    let o = lp.fresh_rows(m, l);
    let ghost pv = var_rows(p@);
    let ghost ov = var_rows(o@);
    let ghost n0 = lp@.vars;
    proof {
        assert forall|i: int| 0 <= i < p@.len() implies below((#[trigger] p@[i])@, n0) by {
            assert(below(p@[i]@, n1));
        }
    }
    let ghost two_rows = lp@;
    let init = task.init();
    let mut i: usize = 0;
    while i < f
        invariant
            lp@.wf(),
            lp@.vars == n0,
            f == task@.facts.len(),
            init@ == task@.init,
            task@.wf(),
            pv == var_rows(p@),
            p@.len() == l + 1,
            p@[0]@.len() == f,
            below(p@[0]@, n0),
            i <= f,
            lp@ == with_init(two_rows, pv[0], task@.init, i as nat),
        decreases f - i,
    {
        let v = p[0][i];
        lp.add(
            one((v, 1)),
            Relation::Equal,
            if init[i] {
                1
            } else {
                0
            },
        );
        i = i + 1;
    }
    let ghost begun = lp@;
    let ops = task.ops();
    let mut t: usize = 0;
    while t < l
        invariant
            lp@.wf(),
            lp@.vars >= n0,
            ground_ops(ops@) == task@.ops,
            ops@.len() == m,
            pv == var_rows(p@),
            ov == var_rows(o@),
            p@.len() == l + 1,
            o@.len() == l,
            forall|k: int| 0 <= k < p@.len() ==> (#[trigger] p@[k])@.len() == f && below(p@[k]@, n0),
            forall|k: int| 0 <= k < o@.len() ==> (#[trigger] o@[k])@.len() == m && below(o@[k]@, n0),
            t <= l,
            lp@ == with_times(begun, task@.ops, ov, pv, t as nat),
        decreases l - t,
    {
        proof {
            assert(pv[t as int] == p@[t as int]@);
            assert(pv[t + 1] == p@[t + 1]@);
            assert(ov[t as int] == o@[t as int]@);
            assert(below(p@[t as int]@, lp@.vars) && below(p@[t + 1]@, lp@.vars) && below(o@[t as int]@, lp@.vars));
        }
        add_time(&mut lp, ops, &o[t], &p[t], &p[t + 1]);
        t = t + 1;
    }
    let ghost timed = lp@;
    let goal = task.goal();
    let last = &p[l];
    assert(pv[l as int] == last@);
    let mut g: usize = 0;
    while g < goal.len()
        invariant
            lp@.wf(),
            lp@.vars >= n0,
            goal@ == task@.goal,
            below(last@, n0),
            g <= goal@.len(),
            lp@ == with_goals(timed, task@.goal, last@, g as nat),
        decreases goal@.len() - g,
    {
        let (fact, value) = goal[g];
        if fact < last.len() {
            lp.add(
                one((last[fact], 1)),
                Relation::Equal,
                if value {
                    1
                } else {
                    0
                },
            );
        }
        g = g + 1;
    }
    let ghost aimed = lp@;
    let mut objective: Vec<(usize, i32)> = Vec::new();
    let mut k: usize = 0;
    assert(objective@ =~= seq![]);
    while k < o.len()
        invariant
            ov == var_rows(o@),
            o@.len() == l,
            forall|q: int| 0 <= q < o@.len() ==> below((#[trigger] o@[q])@, n0),
            k <= o@.len(),
            within(objective@, n0),
            objective@ == usage(ov, k as nat),
        decreases o@.len() - k,
    {
        assert(ov[k as int] == o@[k as int]@);
        let mut more = sum_of(&o[k]);
        let ghost before = objective@;
        let ghost mv = more@;
        objective.append(&mut more);
        proof {
            assert(objective@ =~= before + mv);
            assert forall|j: int| 0 <= j < objective@.len() implies (#[trigger] objective@[j]).0 < n0 by {
                if j >= before.len() {
                    assert(objective@[j] == mv[j - before.len()]);
                    assert(below(o@[k as int]@, n0));
                } else {
                    assert(objective@[j] == before[j]);
                }
            }
        }
        k = k + 1;
    }
    lp.objective = objective;
    assert(lp@ =~= LpView { objective: usage(ov, l as nat), ..aimed });
    lp
}

/// Whether the relaxed program of a task at a horizon has a solution.
pub fn solve_horizon(task: &GroundTask, l: usize) -> (res: bool)
    requires
        task@.wf(),
        l < usize::MAX,
    ensures
        res == lp_feasible(horizon_lp(task@, l as nat)),
{
    let lp = build_horizon(task, l);
    solve(&lp)
}

/// The Lplan rank of a plan. In lifted search it falls back to the weighted number of
/// open conditions and needs no ground task.
pub open spec fn is_lplan_rank(ctx: &SearchContext, base: Option<&BaseGroundTask>, weight: i128, p: PlanView, rank: i128) -> bool {
    if !ctx.params.ground_actions {
        rank == total_rank(p.num_steps as usize, weight, counted(p.opens.len()) as nat)
    } else {
        base matches Some(b) && ({
            let task = grounded(grounding_of(ctx), p, b@, ctx.problem.goal@);
            let l = first_horizon(task, p.num_steps, p.num_steps + HORIZON_EXTRA as nat);
            rank == total_rank(l as usize, weight, 0)
        })
    }
}

/// Computes the Lplan rank of a plan: the smallest horizon whose relaxed program
/// over the causal-link compilation has a solution, capped a few steps beyond the
/// committed ones. It is an admissible bound, so that the weight is intentionally
/// not applied. Ground search only; lifted plans fall back to the weighted number
/// of open conditions.
pub fn lplan_rank(plan: &Plan, ctx: &SearchContext, base: &BaseGroundTask, weight: i128) -> (res: i128)
    requires
        plan.wf(),
        ctx.wf(),
        base@.wf(),
    ensures
        is_lplan_rank(ctx, Some(base), weight, plan@, res),
{
    if !ctx.params.ground_actions {
        return ranks_of_estimate(plan.num_steps(), weight, plan.num_open_conds() as u128).0;
    }
    let task = ground_task(plan, ctx, base);
    let l0 = plan.num_steps();
    let cap = l0 + HORIZON_EXTRA;
    let mut l: usize = l0;
    while l < cap
        invariant
            task@.wf(),
            cap < usize::MAX,
            l <= cap,
            first_horizon(task@, l0 as nat, cap as nat) == first_horizon(task@, l as nat, cap as nat),
        ensures
            l <= cap,
            l == first_horizon(task@, l0 as nat, cap as nat),
        decreases cap - l,
    {
        if solve_horizon(&task, l) {
            break;
        }
        l = l + 1;
    }
    ranks_of_estimate(l, weight, 0).0
}

} // verus!
