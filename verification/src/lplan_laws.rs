//! Why the Lplan estimate is admissible: a plan of some length is a solution of the
//! program at that horizon.
use vstd::prelude::*;

use crate::lplan::{
    as_number, first_horizon, fired, fresh, fresh_row, fresh_rows, horizon_lp, lp_feasible, plain_sum, usage, with_bound, with_change, with_changes,
    with_conditions, with_frames, with_goals, with_init, with_operators, with_pre, with_row, with_time, with_times, within, Firing, LpView,
    Relation, RowView, Stage, MINUS_ONE,
};
use crate::formula::FormulaView;
use crate::ground_laws::{committed_ids_of, compiled, is_numbered, plan_has_every_step};
use crate::ground_run::{brings, clash, is_clear, is_clear_at, is_run, is_step, lemma_sizes, met, runs_clear, successor};
use crate::ground_task::Grounding;
use crate::plan_model::PlanView;
use crate::sas::{GroundEffectView, GroundOpView, GroundTaskView};
use crate::step::StepActionView;

verus! {

/// A truth value as an integer.
pub open spec fn number(b: bool) -> int {
    as_number(b) as int
}

/// The weighted sum of some variables.
pub open spec fn total(terms: Seq<(usize, i32)>, x: Seq<int>) -> int
    decreases terms.len(),
{
    if terms.len() == 0 {
        0
    } else {
        total(terms.drop_last(), x) + x[terms.last().0 as int] * terms.last().1
    }
}

/// Whether values of the variables meet a row.
pub open spec fn meets(row: RowView, x: Seq<int>) -> bool {
    match row.relation {
        Relation::AtMost => total(row.terms, x) <= row.bound,
        Relation::Equal => total(row.terms, x) == row.bound,
    }
}

/// Whether values of the variables solve a program.
pub open spec fn solves(lp: LpView, x: Seq<int>) -> bool {
    &&& x.len() == lp.vars
    &&& forall|i: int| 0 <= i < x.len() ==> lp.low <= #[trigger] x[i] <= lp.high
    &&& forall|i: int| 0 <= i < lp.rows.len() ==> meets(#[trigger] lp.rows[i], x)
}

/// Whether the conditions of every effect can be counted.
pub open spec fn is_countable(ops: Seq<GroundOpView>) -> bool {
    forall|i: int, j: int|
        0 <= i < ops.len() && 0 <= j < ops[i].effects.len() ==> (#[trigger] ops[i].effects[j]).cond.len() <= i32::MAX
}

// ---------------------------------------------------------------------------
// Sums and rows
// ---------------------------------------------------------------------------

proof fn lemma_push(terms: Seq<(usize, i32)>, v: usize, c: i32, x: Seq<int>)
    ensures
        c == 1 ==> total(terms.push((v, c)), x) == total(terms, x) + x[v as int],
        c == MINUS_ONE ==> total(terms.push((v, c)), x) == total(terms, x) - x[v as int],
{
    let all = terms.push((v, c));
    assert(all.drop_last() =~= terms);
    let y = x[v as int];
    assert(c == 1 ==> y * c == y) by (nonlinear_arith);
    assert(c == -1 ==> y * c == 0 - y) by (nonlinear_arith);
}

proof fn lemma_one(a: usize, x: Seq<int>)
    ensures
        total(seq![(a, 1i32)], x) == x[a as int],
{
    lemma_push(Seq::empty(), a, 1, x);
}

proof fn lemma_two(a: usize, b: usize, c: i32, x: Seq<int>)
    ensures
        c == 1 ==> total(seq![(a, 1i32), (b, c)], x) == x[a as int] + x[b as int],
        c == MINUS_ONE ==> total(seq![(a, 1i32), (b, c)], x) == x[a as int] - x[b as int],
{
    lemma_one(a, x);
    lemma_push(seq![(a, 1i32)], b, c, x);
    assert(seq![(a, 1i32)].push((b, c)) =~= seq![(a, 1i32), (b, c)]);
}

proof fn lemma_three(a: usize, b: usize, c: usize, sign: i32, x: Seq<int>)
    ensures
        sign == 1 ==> total(seq![(a, 1i32), (b, MINUS_ONE), (c, sign)], x) == x[a as int] - x[b as int] + x[c as int],
        sign == MINUS_ONE ==> total(seq![(a, 1i32), (b, MINUS_ONE), (c, sign)], x) == x[a as int] - x[b as int] - x[c as int],
{
    lemma_two(a, b, MINUS_ONE, x);
    lemma_push(seq![(a, 1i32), (b, MINUS_ONE)], c, sign, x);
    assert(seq![(a, 1i32), (b, MINUS_ONE)].push((c, sign)) =~= seq![(a, 1i32), (b, MINUS_ONE), (c, sign)]);
}

proof fn lemma_joined(a: Seq<(usize, i32)>, b: Seq<(usize, i32)>, x: Seq<int>)
    ensures
        total(a + b, x) == total(a, x) + total(b, x),
    decreases b.len(),
{
    if b.len() == 0 {
        assert(a + b =~= a);
    } else {
        lemma_joined(a, b.drop_last(), x);
        assert((a + b).drop_last() =~= a + b.drop_last());
        assert((a + b).last() == b.last());
    }
}

/// Whether the second values are the first with more behind them.
spec fn extends(x: Seq<int>, y: Seq<int>) -> bool {
    &&& x.len() <= y.len()
    &&& forall|i: int| 0 <= i < x.len() ==> #[trigger] y[i] == x[i]
}

proof fn lemma_extended(terms: Seq<(usize, i32)>, x: Seq<int>, y: Seq<int>, n: usize)
    requires
        within(terms, n),
        n <= x.len(),
        extends(x, y),
    ensures
        total(terms, x) == total(terms, y),
    decreases terms.len(),
{
    if terms.len() > 0 {
        let front = terms.drop_last();
        assert(terms[terms.len() - 1] == terms.last());
        assert forall|i: int| 0 <= i < front.len() implies (#[trigger] front[i]).0 < n by {
            assert(front[i] == terms[i]);
        }
        lemma_extended(front, x, y, n);
        assert(y[terms.last().0 as int] == x[terms.last().0 as int]);
    }
}

/// A solution of a program over its own variables, each zero or one.
spec fn fits(lp: LpView, x: Seq<int>) -> bool {
    lp.wf() && lp.low == 0 && lp.high == 1 && solves(lp, x)
}

proof fn lemma_fresh(lp: LpView, x: Seq<int>, b: bool)
    requires
        fits(lp, x),
        lp.vars < usize::MAX,
    ensures
        fits(fresh(lp).1, x.push(number(b))),
        extends(x, x.push(number(b))),
        fresh(lp).0 == x.len(),
{
    let y = x.push(number(b));
    let more = fresh(lp).1;
    assert forall|i: int| 0 <= i < more.rows.len() implies meets(#[trigger] more.rows[i], y) && within(more.rows[i].terms, more.vars) by {
        assert(more.rows[i] == lp.rows[i]);
        assert(meets(lp.rows[i], x));
        assert(within(lp.rows[i].terms, lp.vars));
        lemma_extended(more.rows[i].terms, x, y, lp.vars);
    }
}

proof fn lemma_row(lp: LpView, x: Seq<int>, terms: Seq<(usize, i32)>, relation: Relation, bound: i32)
    requires
        fits(lp, x),
        within(terms, lp.vars),
        meets(RowView { terms, relation, bound }, x),
    ensures
        fits(with_row(lp, terms, relation, bound), x),
{
    let more = with_row(lp, terms, relation, bound);
    assert forall|i: int| 0 <= i < more.rows.len() implies meets(#[trigger] more.rows[i], x) && within(more.rows[i].terms, more.vars) by {
        if i < lp.rows.len() {
            assert(more.rows[i] == lp.rows[i]);
        }
    }
}

// ---------------------------------------------------------------------------
// Variables
// ---------------------------------------------------------------------------

/// Whether variables have the given truth values.
spec fn shows(x: Seq<int>, vs: Seq<usize>, s: Seq<bool>) -> bool {
    &&& vs.len() <= s.len()
    &&& forall|i: int| 0 <= i < vs.len() ==> (#[trigger] vs[i]) < x.len() && x[vs[i] as int] == number(s[i])
}

proof fn lemma_row_vars(lp: LpView, n: nat)
    ensures
        fresh_row(lp, n).1.vars >= lp.vars,
        fresh_row(lp, n).0.len() == n,
    decreases n,
{
    if n > 0 {
        lemma_row_vars(lp, (n - 1) as nat);
    }
}

proof fn lemma_fresh_row(lp: LpView, x: Seq<int>, s: Seq<bool>, n: nat) -> (y: Seq<int>)
    requires
        fits(lp, x),
        n <= s.len(),
        fresh_row(lp, n).1.vars < usize::MAX,
    ensures
        fits(fresh_row(lp, n).1, y),
        extends(x, y),
        shows(y, fresh_row(lp, n).0, s),
    decreases n,
{
    if n == 0 {
        x
    } else {
        let before = fresh_row(lp, (n - 1) as nat);
        let y = lemma_fresh_row(lp, x, s, (n - 1) as nat);
        lemma_row_vars(lp, (n - 1) as nat);
        lemma_fresh(before.1, y, s[n - 1]);
        y.push(number(s[n - 1]))
    }
}

proof fn lemma_rows_vars(lp: LpView, n: nat, m: nat)
    ensures
        fresh_rows(lp, n, m).1.vars >= lp.vars,
        fresh_rows(lp, n, m).0.len() == m,
        forall|k: int| 0 <= k < m ==> (#[trigger] fresh_rows(lp, n, m).0[k]).len() == n,
    decreases m,
{
    if m > 0 {
        lemma_rows_vars(lp, n, (m - 1) as nat);
        lemma_row_vars(fresh_rows(lp, n, (m - 1) as nat).1, n);
    }
}

proof fn lemma_fresh_rows(lp: LpView, x: Seq<int>, s: Seq<Seq<bool>>, n: nat, m: nat) -> (y: Seq<int>)
    requires
        fits(lp, x),
        m <= s.len(),
        forall|k: int| 0 <= k < m ==> n <= (#[trigger] s[k]).len(),
        fresh_rows(lp, n, m).1.vars < usize::MAX,
    ensures
        fits(fresh_rows(lp, n, m).1, y),
        extends(x, y),
        forall|k: int| 0 <= k < m ==> shows(y, #[trigger] fresh_rows(lp, n, m).0[k], s[k]),
    decreases m,
{
    if m == 0 {
        x
    } else {
        let before = fresh_rows(lp, n, (m - 1) as nat);
        lemma_row_vars(before.1, n);
        lemma_rows_vars(lp, n, (m - 1) as nat);
        let y = lemma_fresh_rows(lp, x, s, n, (m - 1) as nat);
        assert(n <= s[m - 1].len());
        let z = lemma_fresh_row(before.1, y, s[m - 1], n);
        let vss = fresh_rows(lp, n, m).0;
        assert forall|k: int| 0 <= k < m implies shows(z, #[trigger] vss[k], s[k]) by {
            if k < m - 1 {
                assert(vss[k] == before.0[k]);
            }
        }
        z
    }
}

proof fn lemma_shows(x: Seq<int>, y: Seq<int>, vs: Seq<usize>, s: Seq<bool>)
    requires
        shows(x, vs, s),
        extends(x, y),
    ensures
        shows(y, vs, s),
{
}

// ---------------------------------------------------------------------------
// Operators
// ---------------------------------------------------------------------------

proof fn lemma_bound(lp: LpView, x: Seq<int>, trig: usize, v: usize, truth: bool, on: bool, value: bool)
    requires
        fits(lp, x),
        trig < lp.vars,
        v < lp.vars,
        x[trig as int] == number(on),
        x[v as int] == number(value),
        on ==> value == truth,
    ensures
        fits(with_bound(lp, trig, v, truth), x),
{
    if truth {
        lemma_two(trig, v, MINUS_ONE, x);
        lemma_row(lp, x, seq![(trig, 1i32), (v, MINUS_ONE)], Relation::AtMost, 0);
    } else {
        lemma_two(trig, v, 1, x);
        lemma_row(lp, x, seq![(trig, 1i32), (v, 1i32)], Relation::AtMost, 1);
    }
}

proof fn lemma_pre_vars(lp: LpView, pre: Seq<(usize, bool)>, truth: bool, trig: usize, p: Seq<usize>, n: nat)
    ensures
        with_pre(lp, pre, truth, trig, p, n).vars == lp.vars,
    decreases n,
{
    if n > 0 {
        lemma_pre_vars(lp, pre, truth, trig, p, (n - 1) as nat);
    }
}

proof fn lemma_pre(lp: LpView, x: Seq<int>, pre: Seq<(usize, bool)>, truth: bool, trig: usize, p: Seq<usize>, s: Seq<bool>, on: bool, n: nat)
    requires
        fits(lp, x),
        shows(x, p, s),
        p.len() == s.len(),
        trig < lp.vars,
        x[trig as int] == number(on),
        on ==> met(pre, s),
        n <= pre.len(),
    ensures
        fits(with_pre(lp, pre, truth, trig, p, n), x),
    decreases n,
{
    if n > 0 {
        lemma_pre(lp, x, pre, truth, trig, p, s, on, (n - 1) as nat);
        lemma_pre_vars(lp, pre, truth, trig, p, (n - 1) as nat);
        let f = pre[n - 1].0;
        if f < p.len() && pre[n - 1].1 == truth {
            assert(p[f as int] < x.len());
            lemma_bound(with_pre(lp, pre, truth, trig, p, (n - 1) as nat), x, trig, p[f as int], truth, on, s[f as int]);
        }
    }
}

proof fn lemma_conditions_vars(start: Firing, fire: usize, cond: Seq<(usize, bool)>, p: Seq<usize>, n: nat)
    ensures
        with_conditions(start, fire, cond, p, n).lp.vars == start.lp.vars,
    decreases n,
{
    if n > 0 {
        lemma_conditions_vars(start, fire, cond, p, (n - 1) as nat);
    }
}

/// How many of the first `n` conditions do not hold.
spec fn unmet(cond: Seq<(usize, bool)>, s: Seq<bool>, n: nat) -> nat
    decreases n,
{
    if n == 0 {
        0
    } else {
        let rest = unmet(cond, s, (n - 1) as nat);
        if cond[n - 1].0 < s.len() && s[cond[n - 1].0 as int] != cond[n - 1].1 {
            rest + 1
        } else {
            rest
        }
    }
}

proof fn lemma_unmet(cond: Seq<(usize, bool)>, s: Seq<bool>, i: int, n: nat)
    requires
        0 <= i < n <= cond.len(),
        cond[i].0 < s.len(),
        s[cond[i].0 as int] != cond[i].1,
    ensures
        unmet(cond, s, n) > 0,
    decreases n,
{
    if i < n - 1 {
        lemma_unmet(cond, s, i, (n - 1) as nat);
    }
}

/// The sum that bounds the firing of an effect from below counts the conditions that
/// hold.
proof fn lemma_conditions(
    lp: LpView,
    x: Seq<int>,
    trig: usize,
    fire: usize,
    cond: Seq<(usize, bool)>,
    p: Seq<usize>,
    s: Seq<bool>,
    fires: bool,
    n: nat,
)
    requires
        fits(lp, x),
        shows(x, p, s),
        p.len() == s.len(),
        trig < lp.vars,
        fire < lp.vars,
        x[fire as int] == number(fires),
        fires ==> met(cond, s),
        n <= cond.len() <= i32::MAX,
    ensures
        ({
            let all = with_conditions(Firing { lp, lower: seq![(trig, 1i32)], bound: 0 }, fire, cond, p, n);
            &&& fits(all.lp, x)
            &&& within(all.lower, lp.vars)
            &&& 0 <= all.bound <= n
            &&& total(all.lower, x) == x[trig as int] + all.bound - unmet(cond, s, n)
        }),
    decreases n,
{
    let start = Firing { lp, lower: seq![(trig, 1i32)], bound: 0 };
    if n == 0 {
        lemma_one(trig, x);
    } else {
        lemma_conditions(lp, x, trig, fire, cond, p, s, fires, (n - 1) as nat);
        lemma_conditions_vars(start, fire, cond, p, (n - 1) as nat);
        let rest = with_conditions(start, fire, cond, p, (n - 1) as nat);
        let f = cond[n - 1].0;
        if f < p.len() {
            let v = p[f as int];
            assert(v < x.len());
            lemma_bound(rest.lp, x, fire, v, cond[n - 1].1, fires, s[f as int]);
            let c = if cond[n - 1].1 {
                1i32
            } else {
                MINUS_ONE
            };
            lemma_push(rest.lower, v, c, x);
        }
    }
}

proof fn lemma_fired(lp: LpView, x: Seq<int>, trig: usize, cond: Seq<(usize, bool)>, p: Seq<usize>, s: Seq<bool>, on: bool) -> (y: Seq<int>)
    requires
        fits(lp, x),
        shows(x, p, s),
        p.len() == s.len(),
        trig < lp.vars,
        x[trig as int] == number(on),
        cond.len() <= i32::MAX,
        fired(lp, trig, cond, p).1.vars < usize::MAX,
    ensures
        fits(fired(lp, trig, cond, p).1, y),
        extends(x, y),
        fired(lp, trig, cond, p).0 < y.len(),
        y[fired(lp, trig, cond, p).0 as int] == number(on && met(cond, s)),
{
    if cond.len() == 0 {
        x
    } else {
        lemma_fired_vars(lp, trig, cond, p);
        let fires = on && met(cond, s);
        let y = x.push(number(fires));
        lemma_fresh(lp, x, fires);
        let (fire, lp1) = fresh(lp);
        lemma_two(fire, trig, MINUS_ONE, y);
        lemma_row(lp1, y, seq![(fire, 1i32), (trig, MINUS_ONE)], Relation::AtMost, 0);
        let lp2 = with_row(lp1, seq![(fire, 1i32), (trig, MINUS_ONE)], Relation::AtMost, 0);
        lemma_shows(x, y, p, s);
        let start = Firing { lp: lp2, lower: seq![(trig, 1i32)], bound: 0 };
        lemma_conditions_vars(start, fire, cond, p, cond.len());
        lemma_conditions(lp2, y, trig, fire, cond, p, s, fires, cond.len());
        let all = with_conditions(start, fire, cond, p, cond.len());
        lemma_push(all.lower, fire, MINUS_ONE, y);
        if !met(cond, s) {
            let i = choose|i: int| 0 <= i < cond.len() && (#[trigger] cond[i]).0 < s.len() && s[cond[i].0 as int] != cond[i].1;
            lemma_unmet(cond, s, i, cond.len());
        }
        lemma_row(all.lp, y, all.lower.push((fire, MINUS_ONE)), Relation::AtMost, all.bound);
        y
    }
}

proof fn lemma_fired_vars(lp: LpView, trig: usize, cond: Seq<(usize, bool)>, p: Seq<usize>)
    ensures
        fired(lp, trig, cond, p).1.vars >= fresh(lp).1.vars || cond.len() == 0,
        fired(lp, trig, cond, p).1.vars >= lp.vars,
{
    if cond.len() > 0 {
        let (fire, lp1) = fresh(lp);
        let lp2 = with_row(lp1, seq![(fire, 1i32), (trig, MINUS_ONE)], Relation::AtMost, 0);
        lemma_conditions_vars(Firing { lp: lp2, lower: seq![(trig, 1i32)], bound: 0 }, fire, cond, p, cond.len());
    }
}

// ---------------------------------------------------------------------------
// Changes
// ---------------------------------------------------------------------------

/// What the first `n` effects of an operator add to a fact, each taken for itself.
spec fn gain(o: GroundOpView, s: Seq<bool>, f: int, n: nat) -> int
    decreases n,
{
    if n == 0 {
        0
    } else {
        let e = o.effects[n - 1];
        gain(o, s, f, (n - 1) as nat) + if e.fact == f && met(e.cond, s) {
            number(e.value) - number(s[f])
        } else {
            0
        }
    }
}

/// Whether one of the first `n` effects gives a fact a value.
spec fn brings_within(o: GroundOpView, s: Seq<bool>, f: int, value: bool, n: nat) -> bool {
    exists|i: int| 0 <= i < n && (#[trigger] o.effects[i]).fact == f && o.effects[i].value == value && met(o.effects[i].cond, s)
}

proof fn lemma_gain_within(o: GroundOpView, s: Seq<bool>, f: int, n: nat)
    requires
        is_clear(o, s),
        0 <= f < s.len(),
        n <= o.effects.len(),
    ensures
        gain(o, s, f, n) == if brings_within(o, s, f, !s[f], n) {
            number(!s[f]) - number(s[f])
        } else {
            0
        },
    decreases n,
{
    if n > 0 {
        lemma_gain_within(o, s, f, (n - 1) as nat);
        let e = o.effects[n - 1];
        if brings_within(o, s, f, !s[f], (n - 1) as nat) {
            let i = choose|i: int|
                0 <= i < n - 1 && (#[trigger] o.effects[i]).fact == f && o.effects[i].value == !s[f] && met(o.effects[i].cond, s);
            assert(!clash(o, s, i, n - 1));
            assert(o.effects[i].fact == f);
            assert(brings_within(o, s, f, !s[f], n));
        } else if e.fact == f && met(e.cond, s) && e.value == !s[f] {
            assert(brings_within(o, s, f, !s[f], n));
        } else if brings_within(o, s, f, !s[f], n) {
            let i = choose|i: int|
                0 <= i < n && (#[trigger] o.effects[i]).fact == f && o.effects[i].value == !s[f] && met(o.effects[i].cond, s);
            assert(i < n - 1);
            assert(brings_within(o, s, f, !s[f], (n - 1) as nat));
        }
    }
}

/// Where no effects clash, what an operator adds to a fact leads to its next value.
proof fn lemma_gain(o: GroundOpView, s: Seq<bool>, f: int)
    requires
        is_clear(o, s),
        0 <= f < s.len(),
    ensures
        gain(o, s, f, o.effects.len()) == number(successor(o, s)[f]) - number(s[f]),
{
    lemma_gain_within(o, s, f, o.effects.len());
    let v = !s[f];
    if brings(o, s, f, v) {
        let i = choose|i: int| 0 <= i < o.effects.len() && (#[trigger] o.effects[i]).fact == f && o.effects[i].value == v && met(o.effects[i].cond, s);
        assert(brings_within(o, s, f, v, o.effects.len()));
        if brings(o, s, f, s[f]) && s[f] {
            let j = choose|j: int|
                0 <= j < o.effects.len() && (#[trigger] o.effects[j]).fact == f && o.effects[j].value == s[f] && met(o.effects[j].cond, s);
            if i < j {
                assert(!clash(o, s, i, j));
            } else {
                assert(!clash(o, s, j, i));
            }
        }
    } else {
        assert(!brings_within(o, s, f, v, o.effects.len()));
    }
}

/// Whether the changes are over the program's variables and add up to what the facts
/// lose.
spec fn balanced(st: Stage, x: Seq<int>, lost: Seq<int>) -> bool {
    &&& st.change.len() == lost.len()
    &&& forall|f: int| 0 <= f < lost.len() ==> within(#[trigger] st.change[f], st.lp.vars) && total(st.change[f], x) == lost[f]
}

proof fn lemma_balanced(st: Stage, lp: LpView, x: Seq<int>, y: Seq<int>, lost: Seq<int>)
    requires
        balanced(st, x, lost),
        st.lp.vars <= x.len(),
        st.lp.vars <= lp.vars,
        extends(x, y),
    ensures
        balanced(Stage { lp, ..st }, y, lost),
{
    let more = Stage { lp, ..st };
    assert forall|f: int| 0 <= f < lost.len() implies within(#[trigger] more.change[f], lp.vars) && total(more.change[f], y) == lost[f] by {
        assert(within(st.change[f], st.lp.vars));
        assert(total(st.change[f], x) == lost[f]);
        lemma_extended(st.change[f], x, y, st.lp.vars);
    }
}

/// What the facts lose at a time point by the first `n` effects of an operator.
spec fn losses(start: Seq<int>, o: GroundOpView, s: Seq<bool>, on: bool, n: nat) -> Seq<int> {
    Seq::new(
        start.len(),
        |f: int|
            start[f] - if on {
                gain(o, s, f, n)
            } else {
                0
            },
    )
}

proof fn lemma_change_vars(st: Stage, pre: Seq<(usize, bool)>, trig: usize, p: Seq<usize>, e: GroundEffectView)
    ensures
        with_change(st, pre, trig, p, e).lp.vars >= st.lp.vars,
        e.fact < p.len() ==> with_change(st, pre, trig, p, e).lp.vars >= fired(st.lp, trig, e.cond, p).1.vars,
{
    if e.fact < p.len() {
        lemma_fired_vars(st.lp, trig, e.cond, p);
    }
}

#[verifier::rlimit(40)]
proof fn lemma_change(st: Stage, x: Seq<int>, lost: Seq<int>, pre: Seq<(usize, bool)>, trig: usize, p: Seq<usize>, e: GroundEffectView, s: Seq<bool>, on: bool) -> (y: Seq<int>)
    requires
        fits(st.lp, x),
        shows(x, p, s),
        p.len() == s.len() == lost.len(),
        trig < st.lp.vars,
        x[trig as int] == number(on),
        on ==> met(pre, s),
        e.cond.len() <= i32::MAX,
        balanced(st, x, lost),
        with_change(st, pre, trig, p, e).lp.vars < usize::MAX,
    ensures
        fits(with_change(st, pre, trig, p, e).lp, y),
        extends(x, y),
        e.fact >= p.len() ==> balanced(with_change(st, pre, trig, p, e), y, lost),
        e.fact < p.len() ==> balanced(
            with_change(st, pre, trig, p, e),
            y,
            lost.update(
                e.fact as int,
                lost[e.fact as int] - if on && met(e.cond, s) {
                    number(e.value) - number(s[e.fact as int])
                } else {
                    0
                },
            ),
        ),
{
    if e.fact >= p.len() {
        x
    } else {
        let f = e.fact as int;
        let v = p[f];
        let fires = on && met(e.cond, s);
        lemma_change_vars(st, pre, trig, p, e);
        lemma_fired_vars(st.lp, trig, e.cond, p);
        let y = lemma_fired(st.lp, x, trig, e.cond, p, s, on);
        let (fire, lp1) = fired(st.lp, trig, e.cond, p);
        lemma_balanced(st, lp1, x, y, lost);
        lemma_shows(x, y, p, s);
        if pre.contains((e.fact, e.value)) {
            let i = choose|i: int| 0 <= i < pre.len() && pre[i] == (e.fact, e.value);
            assert(on ==> s[pre[i].0 as int] == pre[i].1);
            assert(lost.update(f, lost[f]) =~= lost);
            y
        } else {
            let held = fires && s[f] == e.value;
            let z = y.push(number(held));
            lemma_fresh(lp1, y, held);
            let (same, lp2) = fresh(lp1);
            assert(y[v as int] == number(s[f]) && v < y.len());
            assert(z[fire as int] == number(fires) && z[same as int] == number(held) && z[v as int] == number(s[f]));
            lemma_two(same, fire, MINUS_ONE, z);
            lemma_row(lp2, z, seq![(same, 1i32), (fire, MINUS_ONE)], Relation::AtMost, 0);
            let lp3 = with_row(lp2, seq![(same, 1i32), (fire, MINUS_ONE)], Relation::AtMost, 0);
            lemma_bound(lp3, z, same, v, e.value, held, s[f]);
            let lp4 = with_bound(lp3, same, v, e.value);
            let sign: i32 = if e.value {
                1
            } else {
                MINUS_ONE
            };
            let back = (0 - sign) as i32;
            lemma_three(fire, same, v, sign, z);
            lemma_row(lp4, z, seq![(fire, 1i32), (same, MINUS_ONE), (v, sign)], Relation::AtMost, as_number(e.value));
            let mid = Stage { lp: lp2, ..st };
            lemma_balanced(Stage { lp: lp1, ..st }, lp2, y, z, lost);
            lemma_push(mid.change[f], fire, back, z);
            lemma_push(mid.change[f].push((fire, back)), same, sign, z);
            let after = with_change(st, pre, trig, p, e);
            let lost_now = lost.update(
                f,
                lost[f] - if fires {
                    number(e.value) - number(s[f])
                } else {
                    0
                },
            );
            assert forall|g: int| 0 <= g < lost_now.len() implies within(#[trigger] after.change[g], after.lp.vars) && total(after.change[g], z)
                == lost_now[g] by {
                assert(within(mid.change[g], mid.lp.vars));
                if g == f {
                    assert(after.change[g] == mid.change[f].push((fire, back)).push((same, sign)));
                } else {
                    assert(after.change[g] == mid.change[g]);
                }
            }
            z
        }
    }
}

proof fn lemma_changes_vars(st: Stage, o: GroundOpView, trig: usize, p: Seq<usize>, n: nat)
    ensures
        with_changes(st, o, trig, p, n).lp.vars >= st.lp.vars,
    decreases n,
{
    if n > 0 {
        lemma_changes_vars(st, o, trig, p, (n - 1) as nat);
        lemma_change_vars(with_changes(st, o, trig, p, (n - 1) as nat), o.pre, trig, p, o.effects[n - 1]);
    }
}

proof fn lemma_changes(st: Stage, x: Seq<int>, lost: Seq<int>, o: GroundOpView, trig: usize, p: Seq<usize>, s: Seq<bool>, on: bool, n: nat) -> (y: Seq<int>)
    requires
        fits(st.lp, x),
        shows(x, p, s),
        p.len() == s.len() == lost.len(),
        trig < st.lp.vars,
        x[trig as int] == number(on),
        on ==> met(o.pre, s),
        n <= o.effects.len(),
        forall|j: int| 0 <= j < o.effects.len() ==> (#[trigger] o.effects[j]).cond.len() <= i32::MAX,
        balanced(st, x, lost),
        with_changes(st, o, trig, p, n).lp.vars < usize::MAX,
    ensures
        fits(with_changes(st, o, trig, p, n).lp, y),
        extends(x, y),
        balanced(with_changes(st, o, trig, p, n), y, losses(lost, o, s, on, n)),
    decreases n,
{
    if n == 0 {
        assert(losses(lost, o, s, on, 0) =~= lost);
        x
    } else {
        let rest = with_changes(st, o, trig, p, (n - 1) as nat);
        let e = o.effects[n - 1];
        lemma_changes_vars(st, o, trig, p, (n - 1) as nat);
        lemma_change_vars(rest, o.pre, trig, p, e);
        let y = lemma_changes(st, x, lost, o, trig, p, s, on, (n - 1) as nat);
        lemma_shows(x, y, p, s);
        let before = losses(lost, o, s, on, (n - 1) as nat);
        assert(y[trig as int] == x[trig as int]);
        let z = lemma_change(rest, y, before, o.pre, trig, p, e, s, on);
        let now = losses(lost, o, s, on, n);
        if e.fact < p.len() {
            assert(now =~= before.update(
                e.fact as int,
                before[e.fact as int] - if on && met(e.cond, s) {
                    number(e.value) - number(s[e.fact as int])
                } else {
                    0
                },
            ));
        } else {
            assert(now =~= before);
        }
        z
    }
}

// ---------------------------------------------------------------------------
// Time points
// ---------------------------------------------------------------------------

/// Which operators are applied at a time point.
spec fn applied(act: Option<int>, n: nat) -> Seq<bool> {
    Seq::new(n, |i: int| act == Some(i))
}

proof fn lemma_single(o: Seq<usize>, x: Seq<int>, act: Option<int>, n: nat)
    requires
        n <= o.len(),
        shows(x, o, applied(act, o.len())),
    ensures
        total(plain_sum(o).take(n as int), x) == number(act matches Some(i) && 0 <= i < n),
    decreases n,
{
    let all = plain_sum(o);
    if n == 0 {
        assert(all.take(0) =~= Seq::empty());
    } else {
        lemma_single(o, x, act, (n - 1) as nat);
        assert(all.take(n as int) =~= all.take(n - 1).push((o[n - 1], 1i32)));
        lemma_push(all.take(n - 1), o[n - 1], 1, x);
        assert(x[o[n - 1] as int] == number(act == Some(n - 1)));
    }
}

proof fn lemma_operators_vars(st: Stage, ops: Seq<GroundOpView>, o: Seq<usize>, p: Seq<usize>, n: nat)
    ensures
        with_operators(st, ops, o, p, n).lp.vars >= st.lp.vars,
    decreases n,
{
    if n > 0 {
        lemma_operators_vars(st, ops, o, p, (n - 1) as nat);
        lemma_operator_vars(st, ops, o, p, n);
    }
}

proof fn lemma_operator_vars(st: Stage, ops: Seq<GroundOpView>, o: Seq<usize>, p: Seq<usize>, n: nat)
    requires
        n > 0,
    ensures
        with_operators(st, ops, o, p, n).lp.vars >= with_operators(st, ops, o, p, (n - 1) as nat).lp.vars,
{
    let rest = with_operators(st, ops, o, p, (n - 1) as nat);
    let op = ops[n - 1];
    let lp1 = with_pre(rest.lp, op.pre, true, o[n - 1], p, op.pre.len());
    let lp2 = with_pre(lp1, op.pre, false, o[n - 1], p, op.pre.len());
    lemma_pre_vars(rest.lp, op.pre, true, o[n - 1], p, op.pre.len());
    lemma_pre_vars(lp1, op.pre, false, o[n - 1], p, op.pre.len());
    lemma_changes_vars(Stage { lp: lp2, ..rest }, op, o[n - 1], p, op.effects.len());
}

/// What the facts lose at a time point by the first `n` operators.
spec fn lost_at(ops: Seq<GroundOpView>, act: Option<int>, s: Seq<bool>, n: nat) -> Seq<int> {
    Seq::new(
        s.len(),
        |f: int|
            match act {
                Some(i) => if 0 <= i < n {
                    0 - gain(ops[i], s, f, ops[i].effects.len())
                } else {
                    0
                },
                None => 0,
            },
    )
}

proof fn lemma_operators(st: Stage, x: Seq<int>, ops: Seq<GroundOpView>, o: Seq<usize>, p: Seq<usize>, s: Seq<bool>, act: Option<int>, n: nat) -> (y: Seq<int>)
    requires
        fits(st.lp, x),
        shows(x, p, s),
        p.len() == s.len(),
        n <= ops.len() == o.len(),
        shows(x, o, applied(act, o.len())),
        act matches Some(i) ==> met(ops[i].pre, s),
        is_countable(ops),
        balanced(st, x, lost_at(ops, act, s, 0)),
        with_operators(st, ops, o, p, n).lp.vars < usize::MAX,
    ensures
        fits(with_operators(st, ops, o, p, n).lp, y),
        extends(x, y),
        balanced(with_operators(st, ops, o, p, n), y, lost_at(ops, act, s, n)),
    decreases n,
{
    if n == 0 {
        x
    } else {
        let rest = with_operators(st, ops, o, p, (n - 1) as nat);
        let op = ops[n - 1];
        let on = act == Some(n - 1);
        lemma_operator_vars(st, ops, o, p, n);
        let y = lemma_operators(st, x, ops, o, p, s, act, (n - 1) as nat);
        lemma_shows(x, y, p, s);
        lemma_shows(x, y, o, applied(act, o.len()));
        let trig = o[n - 1];
        assert(trig < y.len() && y[trig as int] == number(on));
        let lp1 = with_pre(rest.lp, op.pre, true, trig, p, op.pre.len());
        let lp2 = with_pre(lp1, op.pre, false, trig, p, op.pre.len());
        lemma_pre_vars(rest.lp, op.pre, true, trig, p, op.pre.len());
        lemma_pre_vars(lp1, op.pre, false, trig, p, op.pre.len());
        lemma_pre(rest.lp, y, op.pre, true, trig, p, s, on, op.pre.len());
        lemma_pre(lp1, y, op.pre, false, trig, p, s, on, op.pre.len());
        let before = lost_at(ops, act, s, (n - 1) as nat);
        lemma_balanced(rest, lp2, y, y, before);
        assert forall|j: int| 0 <= j < op.effects.len() implies (#[trigger] op.effects[j]).cond.len() <= i32::MAX by {
            assert(ops[n - 1].effects[j].cond.len() <= i32::MAX);
        }
        let z = lemma_changes(Stage { lp: lp2, ..rest }, y, before, op, trig, p, s, on, op.effects.len());
        assert(lost_at(ops, act, s, n) =~= losses(before, op, s, on, op.effects.len()));
        z
    }
}

proof fn lemma_frames(lp: LpView, x: Seq<int>, p: Seq<usize>, next: Seq<usize>, change: Seq<Seq<(usize, i32)>>, s: Seq<bool>, after: Seq<bool>, n: nat)
    requires
        fits(lp, x),
        shows(x, p, s),
        shows(x, next, after),
        n <= p.len() == s.len() == next.len() == change.len(),
        forall|f: int|
            0 <= f < change.len() ==> within(#[trigger] change[f], lp.vars) && total(change[f], x) == number(s[f]) - number(after[f]),
    ensures
        fits(with_frames(lp, p, next, change, n), x),
        with_frames(lp, p, next, change, n).vars == lp.vars,
    decreases n,
{
    if n > 0 {
        lemma_frames(lp, x, p, next, change, s, after, (n - 1) as nat);
        let head = seq![(next[n - 1], 1i32), (p[n - 1], MINUS_ONE)];
        lemma_two(next[n - 1], p[n - 1], MINUS_ONE, x);
        lemma_joined(head, change[n - 1], x);
        assert(next[n - 1] < x.len() && p[n - 1] < x.len());
        assert(within(change[n - 1], lp.vars));
        let terms = head + change[n - 1];
        assert forall|i: int| 0 <= i < terms.len() implies (#[trigger] terms[i]).0 < lp.vars by {
            if i >= 2 {
                assert(terms[i] == change[n - 1][i - 2]);
            }
        }
        lemma_row(with_frames(lp, p, next, change, (n - 1) as nat), x, terms, Relation::Equal, 0);
    }
}

proof fn lemma_frames_vars(lp: LpView, p: Seq<usize>, next: Seq<usize>, change: Seq<Seq<(usize, i32)>>, n: nat)
    ensures
        with_frames(lp, p, next, change, n).vars == lp.vars,
    decreases n,
{
    if n > 0 {
        lemma_frames_vars(lp, p, next, change, (n - 1) as nat);
    }
}

proof fn lemma_time_vars(lp: LpView, ops: Seq<GroundOpView>, o: Seq<usize>, p: Seq<usize>, next: Seq<usize>)
    ensures
        with_time(lp, ops, o, p, next).vars >= lp.vars,
        with_time(lp, ops, o, p, next).vars == with_operators(
            Stage { lp: with_row(lp, plain_sum(o), Relation::AtMost, 1), change: Seq::new(p.len(), |i: int| Seq::<(usize, i32)>::empty()) },
            ops,
            o,
            p,
            ops.len(),
        ).lp.vars,
{
    let lp1 = with_row(lp, plain_sum(o), Relation::AtMost, 1);
    let idle = Seq::new(p.len(), |i: int| Seq::<(usize, i32)>::empty());
    let st = with_operators(Stage { lp: lp1, change: idle }, ops, o, p, ops.len());
    lemma_operators_vars(Stage { lp: lp1, change: idle }, ops, o, p, ops.len());
    lemma_frames_vars(st.lp, p, next, st.change, p.len());
}

proof fn lemma_time(lp: LpView, x: Seq<int>, ops: Seq<GroundOpView>, o: Seq<usize>, p: Seq<usize>, next: Seq<usize>, s: Seq<bool>, after: Seq<bool>, act: Option<int>) -> (y: Seq<int>)
    requires
        fits(lp, x),
        shows(x, p, s),
        shows(x, next, after),
        p.len() == s.len() == next.len(),
        o.len() == ops.len(),
        shows(x, o, applied(act, o.len())),
        is_step(ops, act, s, after),
        is_clear_at(ops, act, s),
        is_countable(ops),
        with_time(lp, ops, o, p, next).vars < usize::MAX,
    ensures
        fits(with_time(lp, ops, o, p, next), y),
        extends(x, y),
{
    let lp1 = with_row(lp, plain_sum(o), Relation::AtMost, 1);
    let idle = Seq::new(p.len(), |i: int| Seq::<(usize, i32)>::empty());
    let start = Stage { lp: lp1, change: idle };
    lemma_time_vars(lp, ops, o, p, next);
    lemma_single(o, x, act, o.len());
    assert(plain_sum(o).take(o.len() as int) =~= plain_sum(o));
    assert forall|i: int| 0 <= i < plain_sum(o).len() implies (#[trigger] plain_sum(o)[i]).0 < lp.vars by {
        assert(o[i] < x.len());
    }
    lemma_row(lp, x, plain_sum(o), Relation::AtMost, 1);
    assert(balanced(start, x, lost_at(ops, act, s, 0)));
    let y = lemma_operators(start, x, ops, o, p, s, act, ops.len());
    let st = with_operators(start, ops, o, p, ops.len());
    lemma_shows(x, y, p, s);
    lemma_shows(x, y, next, after);
    let lost = lost_at(ops, act, s, ops.len());
    assert forall|f: int| 0 <= f < st.change.len() implies within(#[trigger] st.change[f], st.lp.vars) && total(st.change[f], y) == number(s[f])
        - number(after[f]) by {
        assert(total(st.change[f], y) == lost[f]);
        if let Some(i) = act {
            lemma_gain(ops[i], s, f);
        }
    }
    lemma_frames(st.lp, y, p, next, st.change, s, after, p.len());
    y
}

proof fn lemma_init(lp: LpView, x: Seq<int>, p: Seq<usize>, init: Seq<bool>, n: nat)
    requires
        fits(lp, x),
        shows(x, p, init),
        n <= p.len(),
    ensures
        fits(with_init(lp, p, init, n), x),
        with_init(lp, p, init, n).vars == lp.vars,
    decreases n,
{
    if n > 0 {
        lemma_init(lp, x, p, init, (n - 1) as nat);
        lemma_one(p[n - 1], x);
        assert(p[n - 1] < x.len());
        lemma_row(with_init(lp, p, init, (n - 1) as nat), x, seq![(p[n - 1], 1i32)], Relation::Equal, as_number(init[n - 1]));
    }
}

proof fn lemma_init_vars(lp: LpView, p: Seq<usize>, init: Seq<bool>, n: nat)
    ensures
        with_init(lp, p, init, n).vars == lp.vars,
    decreases n,
{
    if n > 0 {
        lemma_init_vars(lp, p, init, (n - 1) as nat);
    }
}

proof fn lemma_goals_vars(lp: LpView, goal: Seq<(usize, bool)>, p: Seq<usize>, n: nat)
    ensures
        with_goals(lp, goal, p, n).vars == lp.vars,
    decreases n,
{
    if n > 0 {
        lemma_goals_vars(lp, goal, p, (n - 1) as nat);
    }
}

proof fn lemma_goals(lp: LpView, x: Seq<int>, goal: Seq<(usize, bool)>, p: Seq<usize>, s: Seq<bool>, n: nat)
    requires
        fits(lp, x),
        shows(x, p, s),
        p.len() == s.len(),
        met(goal, s),
        n <= goal.len(),
    ensures
        fits(with_goals(lp, goal, p, n), x),
    decreases n,
{
    if n > 0 {
        lemma_goals(lp, x, goal, p, s, (n - 1) as nat);
        lemma_goals_vars(lp, goal, p, (n - 1) as nat);
        let f = goal[n - 1].0;
        if f < p.len() {
            let v = p[f as int];
            assert(v < x.len());
            lemma_one(v, x);
            lemma_row(with_goals(lp, goal, p, (n - 1) as nat), x, seq![(v, 1i32)], Relation::Equal, as_number(goal[n - 1].1));
        }
    }
}

proof fn lemma_times_vars(lp: LpView, ops: Seq<GroundOpView>, o: Seq<Seq<usize>>, p: Seq<Seq<usize>>, n: nat)
    ensures
        with_times(lp, ops, o, p, n).vars >= lp.vars,
    decreases n,
{
    if n > 0 {
        lemma_times_vars(lp, ops, o, p, (n - 1) as nat);
        lemma_time_vars(with_times(lp, ops, o, p, (n - 1) as nat), ops, o[n - 1], p[n - 1], p[n as int]);
    }
}

proof fn lemma_times(lp: LpView, x: Seq<int>, t: GroundTaskView, o: Seq<Seq<usize>>, p: Seq<Seq<usize>>, acts: Seq<Option<int>>, states: Seq<Seq<bool>>, n: nat) -> (y: Seq<int>)
    requires
        fits(lp, x),
        is_run(t, acts, states),
        runs_clear(t, acts, states),
        is_countable(t.ops),
        n <= acts.len() == o.len(),
        p.len() == states.len(),
        forall|k: int| 0 <= k < p.len() ==> (#[trigger] p[k]).len() == states[k].len() && states[k].len() == t.init.len() && shows(x, p[k], states[k]),
        forall|k: int| 0 <= k < o.len() ==> (#[trigger] o[k]).len() == t.ops.len() && shows(x, o[k], applied(acts[k], t.ops.len())),
        with_times(lp, t.ops, o, p, n).vars < usize::MAX,
    ensures
        fits(with_times(lp, t.ops, o, p, n), y),
        extends(x, y),
    decreases n,
{
    if n == 0 {
        x
    } else {
        let k = n - 1;
        let rest = with_times(lp, t.ops, o, p, k as nat);
        lemma_time_vars(rest, t.ops, o[k], p[k], p[k + 1]);
        let y = lemma_times(lp, x, t, o, p, acts, states, k as nat);
        assert(p[k + 1].len() == states[k + 1].len());
        lemma_shows(x, y, p[k], states[k]);
        lemma_shows(x, y, p[k + 1], states[k + 1]);
        lemma_shows(x, y, o[k], applied(acts[k], t.ops.len()));
        assert(is_step(t.ops, acts[k], states[k], states[k + 1]) && is_clear_at(t.ops, acts[k], states[k]));
        lemma_time(rest, y, t.ops, o[k], p[k], p[k + 1], states[k], states[k + 1], acts[k])
    }
}

/// A plan is a solution of the program at its length: idle time points and operators,
/// at most one at a time, that lead from the initial state to the goal give every
/// variable of the program a value that meets every row. So where the program has no
/// solution there is no such plan. The variables have to have numbers of their own,
/// and no two effects may clash.
pub proof fn plan_solves_the_program(t: GroundTaskView, acts: Seq<Option<int>>, states: Seq<Seq<bool>>)
    requires
        t.wf(),
        is_run(t, acts, states),
        runs_clear(t, acts, states),
        is_countable(t.ops),
        horizon_lp(t, acts.len()).vars < usize::MAX,
    ensures
        exists|x: Seq<int>| #[trigger] solves(horizon_lp(t, acts.len()), x),
{
    let l = acts.len();
    let n = t.facts.len();
    let m = t.ops.len();
    let none = LpView { vars: 0, low: 0, high: 1, rows: seq![], objective: seq![] };
    let (p, lp1) = fresh_rows(none, n, l + 1);
    let (o, lp2) = fresh_rows(lp1, m, l);
    let lp3 = with_init(lp2, p[0], t.init, n);
    let lp4 = with_times(lp3, t.ops, o, p, l);
    let lp5 = with_goals(lp4, t.goal, p[l as int], t.goal.len());
    lemma_rows_vars(none, n, l + 1);
    lemma_rows_vars(lp1, m, l);
    lemma_init_vars(lp2, p[0], t.init, n);
    lemma_times_vars(lp3, t.ops, o, p, l);
    lemma_goals_vars(lp4, t.goal, p[l as int], t.goal.len());
    assert forall|k: int| 0 <= k < states.len() implies (#[trigger] states[k]).len() == n by {
        lemma_sizes(t, acts, states, k as nat);
    }
    let used = Seq::new(l, |k: int| applied(acts[k], m));
    assert(fits(none, Seq::<int>::empty()));
    let x1 = lemma_fresh_rows(none, Seq::empty(), states, n, l + 1);
    let x2 = lemma_fresh_rows(lp1, x1, used, m, l);
    assert forall|k: int| 0 <= k < p.len() implies (#[trigger] p[k]).len() == states[k].len() && states[k].len() == t.init.len() && shows(
        x2,
        p[k],
        states[k],
    ) by {
        assert(shows(x1, p[k], states[k]));
        lemma_shows(x1, x2, p[k], states[k]);
        assert(states[k].len() == n);
    }
    assert forall|k: int| 0 <= k < o.len() implies (#[trigger] o[k]).len() == m && shows(x2, o[k], applied(acts[k], m)) by {
        assert(used[k] == applied(acts[k], m));
    }
    assert(p[0].len() == n && shows(x2, p[0], states[0]));
    lemma_init(lp2, x2, p[0], t.init, n);
    let x3 = lemma_times(lp3, x2, t, o, p, acts, states, l);
    assert(shows(x2, p[l as int], states[l as int]));
    lemma_shows(x2, x3, p[l as int], states[l as int]);
    lemma_goals(lp4, x3, t.goal, p[l as int], states[l as int], t.goal.len());
    let whole = LpView { objective: usage(o, l), ..lp5 };
    assert(whole == horizon_lp(t, l));
    assert(solves(whole, x3));
}

/// The estimate never passes a horizon at which the solver finds a solution, nor the
/// cap.
pub proof fn estimate_is_least(t: GroundTaskView, l: nat, h: nat, cap: nat)
    requires
        l <= h,
        l <= cap,
    ensures
        lp_feasible(horizon_lp(t, h)) ==> first_horizon(t, l, cap) <= h,
        l <= first_horizon(t, l, cap) <= cap,
    decreases cap - l,
{
    if l < cap && !lp_feasible(horizon_lp(t, l)) {
        if l < h {
            estimate_is_least(t, l + 1, h, cap);
        } else {
            estimate_is_least(t, l + 1, l + 1, cap);
        }
    }
}

/// The estimate is admissible: for every plan of the task that a partial plan is
/// compiled to, the program at the length of the plan has a solution, and if the
/// solver finds one the estimate, counted up from the committed steps, is no longer
/// than the plan.
pub proof fn estimate_is_admissible(
    g: Grounding,
    pv: PlanView,
    actions: Seq<StepActionView>,
    goal: FormulaView,
    acts: Seq<Option<int>>,
    states: Seq<Seq<bool>>,
    cap: nat,
)
    requires
        pv.links.len() <= usize::MAX,
        committed_ids_of(pv).no_duplicates(),
        pv.num_steps == committed_ids_of(pv).len() <= cap,
        is_numbered(compiled(g, pv, actions, goal)),
        compiled(g, pv, actions, goal).wf(),
        is_countable(compiled(g, pv, actions, goal).ops),
        horizon_lp(compiled(g, pv, actions, goal), acts.len()).vars < usize::MAX,
        is_run(compiled(g, pv, actions, goal), acts, states),
        runs_clear(compiled(g, pv, actions, goal), acts, states),
    ensures
        exists|x: Seq<int>| #[trigger] solves(horizon_lp(compiled(g, pv, actions, goal), acts.len()), x),
        lp_feasible(horizon_lp(compiled(g, pv, actions, goal), acts.len())) ==> first_horizon(
            compiled(g, pv, actions, goal),
            pv.num_steps,
            cap,
        ) <= acts.len(),
{
    let t = compiled(g, pv, actions, goal);
    plan_solves_the_program(t, acts, states);
    plan_has_every_step(g, pv, actions, goal, acts, states);
    estimate_is_least(t, pv.num_steps, acts.len(), cap);
}

} // verus!
