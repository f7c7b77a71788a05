//! The relaxed planning graph and additive cost/work heuristic values.
//!
//! The graph is built once from the problem's init atoms (cost 0) and the
//! domain's instantiated action schemas, iterating to a fixpoint over the
//! additive cost/work values of every reachable ground literal.
use std::rc::Rc;

use vstd::prelude::*;

use crate::atom_table::{lemma_place, place_of, value_in, with_value, AtomTable};
use crate::effect::Effect;
use crate::bindings::{has_object, is_ground, ground_matches, resolved, AtomPattern, Bindings};
use crate::formula::{Atom, AtomView, Formula};
use crate::graph_model::{
    absent_tuple, all_known, may_equal, may_part, resolved_atom, resolved_terms, side_id, term_objects, value_of_all, value_of_any, first_level,
    is_graph_of, reachable_actions, GraphView, Reading,
};
use crate::hvalue::{hv_min, lesser, HeuristicValue, THRESHOLD};
use crate::predicates::PredicateTable;
use crate::action::ActionSchema;
use crate::graph_ground::{graph_forms, ground_for_graph};
use crate::params::ActionCost;
use crate::search::{action_views, actions_of, all_in_scope};
use crate::step::{StepAction, StepActionView};
use crate::terms::{Object, Term};
use crate::typing::TypeContext;

verus! {

/// The relaxed planning graph.
#[derive(Debug)]
pub struct PlanningGraph {
    /// The atoms that can be reached.
    pub(crate) atoms: AtomTable,
    /// The atoms that can be negated.
    pub(crate) negs: AtomTable,
    /// The atoms true in the initial state, distinct from "reachable at zero
    /// cost" once zero-cost actions exist.
    pub(crate) init: AtomTable,
    /// The ground actions the graph was built from.
    pub(crate) actions: Vec<Rc<StepAction>>,
}

/// The atoms of a table.
pub open spec fn atoms_of(table: Seq<(AtomView, HeuristicValue)>) -> Seq<AtomView> {
    Seq::new(table.len(), |i: int| table[i].0)
}

/// What atoms are read under, if there are bindings.
pub open spec fn reading_of(bindings: Option<(&TypeContext, &Bindings)>) -> Option<Reading> {
    match bindings {
        None => None,
        Some((ctx, b)) => Some(Reading { typing: ctx@, classes: b@ }),
    }
}

/// Whether the type tables of the bindings are in order.
pub open spec fn reading_wf(bindings: Option<(&TypeContext, &Bindings)>) -> bool {
    bindings matches Some((ctx, _)) ==> ctx.wf()
}

/// An atom as the bindings resolve it.
pub fn resolve_atom(b: &Bindings, a: &Atom, step_id: usize) -> (res: Atom)
    ensures
        res@ == resolved_atom(b@, a@, step_id),
{
    let mut terms: Vec<Term> = Vec::new();
    let mut i: usize = 0;
    while i < a.terms.len()
        invariant
            i <= a.terms@.len(),
            terms@.len() == i,
            forall|k: int| 0 <= k < i ==> #[trigger] terms@[k] == resolved(b@, a.terms@[k], step_id),
        decreases a.terms@.len() - i,
    {
        terms.push(b.binding(a.terms[i], step_id));
        i = i + 1;
    }
    assert(terms@ =~= resolved_terms(b@, a.terms@, step_id));
    Atom { predicate: a.predicate, terms }
}

/// The objects that a term may stand for.
fn term_domain(ctx: &TypeContext, b: &Bindings, term: Term, step_id: usize) -> (res: Vec<Object>)
    requires
        ctx.wf(),
    ensures
        res@ == term_objects(Reading { typing: ctx@, classes: b@ }, term, step_id),
{
    match term {
        Term::Object(o) => {
            let mut res: Vec<Object> = Vec::new();
            res.push(o);
            assert(res@ =~= seq![o]);
            res
        },
        Term::Variable(v) => b.domain(ctx, v, step_id),
    }
}

/// Whether the bindings allow an equality (`equal`) or an inequality.
fn binding_consistent(ctx: &TypeContext, b: &Bindings, left: Term, lid: usize, right: Term, rid: usize, equal: bool) -> (res: bool)
    requires
        ctx.wf(),
    ensures
        res == {
            let r = Reading { typing: ctx@, classes: b@ };
            if equal {
                may_equal(r, left, lid, right, rid)
            } else {
                may_part(r, left, lid, right, rid)
            }
        },
{
    let ghost r = Reading { typing: ctx@, classes: b@ };
    match (b.binding(left, lid), b.binding(right, rid)) {
        (Term::Object(x), Term::Object(y)) => if equal {
            x == y
        } else {
            x != y
        },
        _ => {
            if !equal {
                return true;
            }
            let dl = term_domain(ctx, b, left, lid);
            let dr = term_domain(ctx, b, right, rid);
            let mut i: usize = 0;
            while i < dl.len()
                invariant
                    i <= dl@.len(),
                    equal,
                    dl@ == term_objects(r, left, lid),
                    dr@ == term_objects(r, right, rid),
                    r == (Reading { typing: ctx@, classes: b@ }),
                    !(resolved(b@, left, lid) is Object && resolved(b@, right, rid) is Object),
                    forall|k: int| 0 <= k < i ==> !dr@.contains(#[trigger] dl@[k]),
                decreases dl@.len() - i,
            {
                if has_object(&dr, dl[i]) {
                    assert(term_objects(r, left, lid).contains(dl@[i as int]));
                    return true;
                }
                i = i + 1;
            }
            proof {
                assert forall|o: Object| #[trigger] term_objects(r, left, lid).contains(o) implies !term_objects(r, right, rid).contains(o) by {
                    let k = choose|k: int| 0 <= k < dl@.len() && dl@[k] == o;
                    assert(!dr@.contains(dl@[k]));
                }
            }
            false
        },
    }
}

/// Whether every list of objects of the problem that begins with `front` misses.
spec fn all_hold(g: GraphView, r: Reading, a: AtomView, id: usize, front: Seq<Term>) -> bool {
    forall|ts: Seq<Term>|
        #[trigger] absent_tuple(g, r, a, id, ts) ==> !(front.len() <= ts.len() && ts.take(front.len() as int) == front)
}

impl PlanningGraph {
    pub closed spec fn view(&self) -> GraphView {
        GraphView { atoms: self.atoms@, negs: self.negs@, init: atoms_of(self.init@) }
    }

    /// The graph's invariant.
    pub closed spec fn wf(&self) -> bool {
        &&& self.atoms.wf()
        &&& self.negs.wf()
        &&& self.init.wf()
    }

    /// Whether an atom holds initially.
    pub fn initially(&self, a: &Atom) -> (res: bool)
        requires
            self.wf(),
        ensures
            res == self@.init.contains(a@),
    {
        proof {
            lemma_place(self.init@, a@);
            if self@.init.contains(a@) {
                let k = choose|k: int| 0 <= k < self@.init.len() && self@.init[k] == a@;
                assert(self.init@[k].0 == a@);
            }
        }
        match self.init.find(a) {
            Some(i) => {
                assert(self@.init[i as int] == a@);
                true
            },
            None => false,
        }
    }

    /// The value of a ground atom.
    pub fn ground_atom_value(&self, a: &Atom) -> (res: HeuristicValue)
        requires
            self.wf(),
        ensures
            res == self@.atom(a@),
    {
        match self.atoms.get(a) {
            Some(v) => v,
            None => HeuristicValue::of_nothing(),
        }
    }

    /// The least value of the atoms of a table that match a lifted one.
    fn least_of(&self, table: &AtomTable, ctx: &TypeContext, b: &Bindings, a: &Atom, step_id: usize) -> (res: HeuristicValue)
        requires
            self.wf(),
            table.wf(),
            ctx.wf(),
        ensures
            res == self@.least_match(table@, Reading { typing: ctx@, classes: b@ }, a@, step_id, table@.len()),
    {
        let ghost r = Reading { typing: ctx@, classes: b@ };
        let pattern = b.resolve_pattern(ctx, &a.terms, step_id);
        let row = table.row(a.predicate);
        let mut res = HeuristicValue::of_nothing();
        let mut i: usize = 0;
        let mut k: usize = 0;
        while i < table.len()
            invariant
                self.wf(),
                table.wf(),
                ctx.wf(),
                pattern.wf(),
                r == (Reading { typing: ctx@, classes: b@ }),
                forall|ground: Seq<Term>| #[trigger] pattern.accepts(ctx@, ground) == ground_matches(ctx@, b@, a.terms@, step_id, ground),
                forall|m: int| 0 <= m < row@.len() ==> (#[trigger] row@[m]) < table@.len() && table@[row@[m] as int].0.predicate == a.predicate,
                forall|j: int| 0 <= j < table@.len() && (#[trigger] table@[j]).0.predicate == a.predicate ==> row@.contains(j as usize),
                forall|m: int, n: int| 0 <= m < n < row@.len() ==> (#[trigger] row@[m]) < (#[trigger] row@[n]),
                k <= row@.len(),
                i <= table@.len(),
                forall|m: int| 0 <= m < k ==> (#[trigger] row@[m]) < i,
                forall|m: int| k <= m < row@.len() ==> i <= (#[trigger] row@[m]),
                res == self@.least_match(table@, r, a@, step_id, i as nat),
            decreases table@.len() - i,
        {
            if k == row.len() {
                proof {
                    lemma_no_matches(self@, table@, row@, r, a@, step_id, i as nat, table@.len());
                }
                return res;
            }
            let j = row[k];
            proof {
                assert forall|n: int| i <= n < j implies (#[trigger] table@[n]).0.predicate != a.predicate by {
                    if table@[n].0.predicate == a.predicate {
                        assert(row@.contains(n as usize));
                        let m = choose|m: int| 0 <= m < row@.len() && row@[m] == n as usize;
                        if m < k {
                            assert(row@[m] < i);
                        } else if m > k {
                            assert(row@[k as int] < row@[m]);
                        }
                    }
                }
                lemma_skip_matches(self@, table@, r, a@, step_id, i as nat, j as nat);
                assert(table@[j as int].0.predicate == a.predicate);
                assert forall|m: int| k < m < row@.len() implies j + 1 <= (#[trigger] row@[m]) by {
                    assert(row@[k as int] < row@[m]);
                }
            }
            let candidate = table.atom(j);
            if pattern.matches(ctx, &candidate.terms) {
                res = hv_min(res, self.ground_atom_value(candidate));
            }
            i = j + 1;
            k = k + 1;
        }
        res
    }

    /// The value of an atom: of a ground one where there are no bindings, else
    /// the least over the reachable ground atoms that unify with it.
    pub fn heuristic_value_atom(&self, atom: &Atom, step_id: usize, bindings: Option<(&TypeContext, &Bindings)>) -> (res: HeuristicValue)
        requires
            self.wf(),
            reading_wf(bindings),
        ensures
            res == self@.atom_under(reading_of(bindings), atom@, step_id),
    {
        match bindings {
            None => self.ground_atom_value(atom),
            Some((ctx, b)) => {
                let g = resolve_atom(b, atom, step_id);
                if is_ground(&g) {
                    self.ground_atom_value(&g)
                } else {
                    self.least_of(&self.atoms, ctx, b, atom, step_id)
                }
            },
        }
    }

    /// Whether some list of objects of the problem that begins with `front` makes
    /// an atom that matches `a` and does not hold initially.
    fn some_absent(&self, ctx: &TypeContext, b: &Bindings, pattern: &AtomPattern, terms: &Vec<Term>, a: &Atom, step_id: usize, front: &Vec<Term>) -> (res: bool)
        requires
            self.wf(),
            ctx.wf(),
            pattern.wf(),
            forall|ground: Seq<Term>| #[trigger] pattern.accepts(ctx@, ground) == ground_matches(ctx@, b@, a.terms@, step_id, ground),
            terms@ == resolved_terms(b@, a.terms@, step_id),
            front@.len() <= terms@.len(),
            all_known(ctx@, front@),
        ensures
            res ==> exists|ts: Seq<Term>| #[trigger] absent_tuple(self@, Reading { typing: ctx@, classes: b@ }, a@, step_id, ts),
            !res ==> all_hold(self@, Reading { typing: ctx@, classes: b@ }, a@, step_id, front@),
        decreases terms@.len() - front@.len(),
    {
        let ghost r = Reading { typing: ctx@, classes: b@ };
        if front.len() == terms.len() {
            let found = if pattern.matches(ctx, front) {
                let g = Atom { predicate: a.predicate, terms: crate::text::copy_vec(front) };
                !self.initially(&g)
            } else {
                false
            };
            proof {
                if found {
                    assert(absent_tuple(self@, r, a@, step_id, front@));
                } else {
                    assert forall|ts: Seq<Term>| #[trigger] absent_tuple(self@, r, a@, step_id, ts) implies !(front@.len() <= ts.len() && ts.take(
                        front@.len() as int,
                    ) == front@) by {
                        if front@.len() <= ts.len() && ts.take(front@.len() as int) == front@ {
                            assert(ts =~= front@);
                        }
                    }
                }
            }
            return found;
        }
        let n = ctx.num_objects();
        let at: usize = front.len();
        let mut i: usize = 0;
        while i < n
            invariant
                self.wf(),
                ctx.wf(),
                pattern.wf(),
                r == (Reading { typing: ctx@, classes: b@ }),
                forall|ground: Seq<Term>| #[trigger] pattern.accepts(ctx@, ground) == ground_matches(ctx@, b@, a.terms@, step_id, ground),
                terms@ == resolved_terms(b@, a.terms@, step_id),
                at == front@.len(),
                at < terms@.len(),
                all_known(ctx@, front@),
                n == ctx@.objects.len(),
                n <= u32::MAX,
                i <= n,
                forall|o: u32| o < i ==> all_hold(self@, r, a@, step_id, #[trigger] front@.push(Term::Object(Object(o)))),
            decreases n - i,
        {
            let o = Object(i as u32);
            let fits = match terms[at] {
                Term::Object(p) => p == o,
                Term::Variable(_) => true,
            };
            let ghost longer = front@.push(Term::Object(o));
            if fits {
                let mut inner = crate::text::copy_vec(front);
                inner.push(Term::Object(o));
                assert(inner@ =~= longer);
                if self.some_absent(ctx, b, pattern, terms, a, step_id, &inner) {
                    return true;
                }
            } else {
                proof {
                    assert forall|ts: Seq<Term>| #[trigger] absent_tuple(self@, r, a@, step_id, ts) implies !(longer.len() <= ts.len() && ts.take(
                        longer.len() as int,
                    ) == longer) by {
                        if longer.len() <= ts.len() && ts.take(longer.len() as int) == longer {
                            assert(ts[at as int] == longer[at as int]);
                            assert(fits_at(r, a@, step_id, at as int, ts));
                        }
                    }
                }
            }
            assert(all_hold(self@, r, a@, step_id, longer));
            i = i + 1;
        }
        proof {
            assert forall|ts: Seq<Term>| #[trigger] absent_tuple(self@, r, a@, step_id, ts) implies !(front@.len() <= ts.len() && ts.take(
                front@.len() as int,
            ) == front@) by {
                if front@.len() <= ts.len() && ts.take(front@.len() as int) == front@ {
                    let o = ts[at as int]->Object_0.0;
                    assert(ts[at as int] is Object && o < n);
                    let longer = front@.push(Term::Object(Object(o)));
                    assert(all_hold(self@, r, a@, step_id, longer));
                    assert(ts.take(longer.len() as int) =~= longer) by {
                        assert forall|k: int| 0 <= k < longer.len() implies ts[k] == longer[k] by {
                            if k < at {
                                assert(ts.take(front@.len() as int)[k] == ts[k]);
                            }
                        }
                    }
                }
            }
        }
        false
    }

    /// The value of the negation of an atom: of a ground one where there are no
    /// bindings. An atom false from the start is free to negate.
    pub fn heuristic_value_negation(&self, atom: &Atom, step_id: usize, bindings: Option<(&TypeContext, &Bindings)>) -> (res: HeuristicValue)
        requires
            self.wf(),
            reading_wf(bindings),
        ensures
            res == self@.negation_under(reading_of(bindings), atom@, step_id),
    {
        match bindings {
            None => match self.negs.get(atom) {
                Some(v) => v,
                None => if self.initially(atom) {
                    HeuristicValue::of_nothing()
                } else {
                    HeuristicValue::of_unit_work()
                },
            },
            Some((ctx, b)) => {
                let ghost r = Reading { typing: ctx@, classes: b@ };
                if !self.heuristic_value_atom(atom, step_id, bindings).zero() {
                    return HeuristicValue::of_zero();
                }
                let g = resolve_atom(b, atom, step_id);
                if is_ground(&g) {
                    return match self.negs.get(&g) {
                        Some(_) => self.ground_atom_value(&g),
                        None => if self.initially(&g) {
                            HeuristicValue::of_nothing()
                        } else {
                            HeuristicValue::of_unit_work()
                        },
                    };
                }
                let h = self.least_of(&self.negs, ctx, b, atom, step_id);
                if h.zero() {
                    return h;
                }
                let pattern = b.resolve_pattern(ctx, &atom.terms, step_id);
                let front: Vec<Term> = Vec::new();
                if self.some_absent(ctx, b, &pattern, &g.terms, atom, step_id, &front) {
                    hv_min(h, HeuristicValue::of_unit_work())
                } else {
                    proof {
                        assert forall|ts: Seq<Term>| !#[trigger] absent_tuple(self@, r, atom@, step_id, ts) by {
                            assert(ts.take(0) =~= front@);
                        }
                    }
                    h
                }
            },
        }
    }
}

/// What matching says of one position.
spec fn fits_at(r: Reading, a: AtomView, id: usize, i: int, ts: Seq<Term>) -> bool {
    crate::bindings::fits_term(r.typing, r.classes, a.terms[i], id, ts[i]->Object_0)
}

/// Entries of other predicates do not match.
proof fn lemma_skip_matches(g: GraphView, table: Seq<(AtomView, HeuristicValue)>, r: Reading, a: AtomView, id: usize, n: nat, m: nat)
    requires
        n <= m <= table.len(),
        forall|j: int| n <= j < m ==> (#[trigger] table[j]).0.predicate != a.predicate,
    ensures
        g.least_match(table, r, a, id, m) == g.least_match(table, r, a, id, n),
    decreases m,
{
    if n < m {
        assert(table[m - 1].0.predicate != a.predicate);
        lemma_skip_matches(g, table, r, a, id, n, (m - 1) as nat);
    }
}

proof fn lemma_no_matches(
    g: GraphView,
    table: Seq<(AtomView, HeuristicValue)>,
    row: Seq<usize>,
    r: Reading,
    a: AtomView,
    id: usize,
    n: nat,
    m: nat,
)
    requires
        n <= m <= table.len() <= usize::MAX,
        forall|j: int| 0 <= j < table.len() && (#[trigger] table[j]).0.predicate == a.predicate ==> row.contains(j as usize),
        forall|k: int| 0 <= k < row.len() ==> (#[trigger] row[k]) < n,
    ensures
        g.least_match(table, r, a, id, m) == g.least_match(table, r, a, id, n),
{
    assert forall|j: int| n <= j < m implies (#[trigger] table[j]).0.predicate != a.predicate by {
        if table[j].0.predicate == a.predicate {
            assert(row.contains(j as usize));
            let k = choose|k: int| 0 <= k < row.len() && row[k] == j as usize;
            assert(row[k] < n);
        }
    }
    lemma_skip_matches(g, table, r, a, id, n, m);
}

/// Computes `(h, hs)` for a formula, resolving atoms through `bindings` when
/// present. `hs` (the makespan companion) is computed identically in the
/// classical subset.
pub fn formula_heuristic_value(pg: &PlanningGraph, formula: &Formula, step_id: usize, bindings: Option<(&TypeContext, &Bindings)>) -> (res: (
    HeuristicValue,
    HeuristicValue,
))
    requires
        pg.wf(),
        reading_wf(bindings),
    ensures
        res.0 == pg@.formula(reading_of(bindings), formula@, step_id),
        res.1 == res.0,
    decreases formula,
{
    let h = match formula {
        Formula::True | Formula::False => HeuristicValue::of_zero(),
        Formula::Atom(atom) => pg.heuristic_value_atom(atom, step_id, bindings),
        Formula::Negation(atom) => pg.heuristic_value_negation(atom, step_id, bindings),
        Formula::Equality { left, left_id, right, right_id } => match bindings {
            None => HeuristicValue::of_zero(),
            Some((ctx, b)) => if binding_consistent(ctx, b, *left, id_of(*left_id, step_id), *right, id_of(*right_id, step_id), true) {
                HeuristicValue::of_zero()
            } else {
                HeuristicValue::of_nothing()
            },
        },
        Formula::Inequality { left, left_id, right, right_id } => match bindings {
            None => HeuristicValue::of_zero(),
            Some((ctx, b)) => if binding_consistent(ctx, b, *left, id_of(*left_id, step_id), *right, id_of(*right_id, step_id), false) {
                HeuristicValue::of_zero()
            } else {
                HeuristicValue::of_nothing()
            },
        },
        Formula::Conjunction(cs) => {
            let ghost values = pg@.formulas(reading_of(bindings), crate::formula::forms(cs@), step_id);
            let mut h = HeuristicValue::of_zero();
            let mut i: usize = 0;
            while i < cs.len()
                invariant
                    pg.wf(),
                    reading_wf(bindings),
                    *formula == Formula::Conjunction(*cs),
                    decreases_to!(formula => cs@),
                    values == pg@.formulas(reading_of(bindings), crate::formula::forms(cs@), step_id),
                    i <= cs@.len(),
                    h == value_of_all(values, i as nat),
                decreases cs@.len() - i,
            {
                if !h.infinite() {
                    let (hi, _) = formula_heuristic_value(pg, &cs[i], step_id, bindings);
                    assert(values[i as int] == hi);
                    h.add_assign(&hi);
                }
                i = i + 1;
            }
            h
        },
        Formula::Disjunction(ds) => {
            let ghost values = pg@.formulas(reading_of(bindings), crate::formula::forms(ds@), step_id);
            let mut h = HeuristicValue::of_nothing();
            let mut i: usize = 0;
            while i < ds.len()
                invariant
                    pg.wf(),
                    reading_wf(bindings),
                    *formula == Formula::Disjunction(*ds),
                    decreases_to!(formula => ds@),
                    values == pg@.formulas(reading_of(bindings), crate::formula::forms(ds@), step_id),
                    i <= ds@.len(),
                    h == value_of_any(values, i as nat),
                decreases ds@.len() - i,
            {
                if !h.zero() {
                    let (hi, _) = formula_heuristic_value(pg, &ds[i], step_id, bindings);
                    assert(values[i as int] == hi);
                    h = hv_min(h, hi);
                }
                i = i + 1;
            }
            h
        },
        Formula::Exists { params: _, body } => formula_heuristic_value(pg, body, step_id, bindings).0,
        Formula::Forall { params: _, body } => formula_heuristic_value(pg, body, step_id, bindings).0,
    };
    (h, h)
}

/// The step of a side of an (in)equality.
fn id_of(id: Option<usize>, step_id: usize) -> (res: usize)
    ensures
        res == side_id(id, step_id),
{
    match id {
        Some(i) => i,
        None => step_id,
    }
}

/// The weight of a value: less for a lesser one.
spec fn weight(v: HeuristicValue) -> nat {
    (v.add_cost + v.add_work + v.makespan) as nat
}

/// The weight of a table.
spec fn total(table: Seq<(AtomView, HeuristicValue)>) -> nat
    decreases table.len(),
{
    if table.len() == 0 {
        0
    } else {
        total(table.drop_last()) + weight(table.last().1)
    }
}

proof fn lemma_total_update(table: Seq<(AtomView, HeuristicValue)>, i: int, x: (AtomView, HeuristicValue))
    requires
        0 <= i < table.len(),
    ensures
        total(table.update(i, x)) + weight(table[i].1) == total(table) + weight(x.1),
    decreases table.len(),
{
    let longer = table.update(i, x);
    if i == table.len() - 1 {
        assert(longer.drop_last() =~= table.drop_last());
    } else {
        assert(longer.drop_last() =~= table.drop_last().update(i, x));
        lemma_total_update(table.drop_last(), i, x);
    }
}

/// A lesser value weighs less.
proof fn lemma_weight(v: HeuristicValue, old: HeuristicValue)
    ensures
        lesser(v, old) != old ==> weight(lesser(v, old)) < weight(old),
{
}

/// Whether graph `h` has at least the literals of `g`, and where it has no more
/// weighs no more; strictly so if they are to differ.
spec fn no_worse(g: GraphView, h: GraphView, differ: bool) -> bool {
    &&& h.init == g.init
    &&& g.atoms.len() <= h.atoms.len()
    &&& g.negs.len() <= h.negs.len()
    &&& h.atoms.len() == g.atoms.len() && h.negs.len() == g.negs.len() ==> {
        if differ {
            total(h.atoms) + total(h.negs) < total(g.atoms) + total(g.negs)
        } else {
            h == g
        }
    }
    &&& !differ ==> h == g
}

proof fn lemma_no_worse(f: GraphView, g: GraphView, h: GraphView, first: bool, second: bool)
    requires
        no_worse(f, g, first),
        no_worse(g, h, second),
    ensures
        no_worse(f, h, first || second),
{
}

/// A table with a value set to the lesser of two.
proof fn lemma_set_lesser(table: Seq<(AtomView, HeuristicValue)>, a: AtomView, v: HeuristicValue, old: HeuristicValue)
    requires
        value_in(table, a) == Some(old),
    ensures
        with_value(table, a, lesser(v, old)).len() == table.len(),
        lesser(v, old) == old ==> with_value(table, a, lesser(v, old)) == table,
        lesser(v, old) != old ==> total(with_value(table, a, lesser(v, old))) < total(table),
{
    lemma_place(table, a);
    let i = place_of(table, a)->0;
    lemma_total_update(table, i, (a, lesser(v, old)));
    lemma_weight(v, old);
    assert(table[i] == (a, old));
    if lesser(v, old) == old {
        assert(table.update(i, (a, old)) =~= table);
    }
}

impl PlanningGraph {
    /// Adds what an effect leads to; whether that changes anything.
    fn add_effect(&mut self, base: &PlanningGraph, pre: HeuristicValue, cost: u128, e: &Effect) -> (changed: bool)
        requires
            old(self).wf(),
            base.wf(),
        ensures
            final(self).wf(),
            final(self)@ == old(self)@.after_effect(base@, pre, cost, e@),
            no_worse(old(self)@, final(self)@, changed),
    {
        let ghost before = self@;
        let (cond, _) = formula_heuristic_value(base, &e.condition, 0, None);
        let a = e.literal.atom();
        if cond.infinite() {
            return false;
        }
        let mut v = cond;
        v.add_assign(&pre);
        v.increase_makespan(THRESHOLD);
        v.increase_cost(cost);
        v.increment_work();
        assert(v == cond.plus(pre).after(cost));
        if e.literal.negative() {
            match self.negs.get(a) {
                Some(old_value) => {
                    let least = hv_min(v, old_value);
                    proof {
                        lemma_set_lesser(self.negs@, a@, v, old_value);
                    }
                    if least == old_value {
                        return false;
                    }
                    self.negs.set(a, least);
                    true
                },
                None => {
                    if !self.initially(a) {
                        return false;
                    }
                    self.negs.set(a, v);
                    true
                },
            }
        } else {
            match self.atoms.get(a) {
                Some(old_value) => {
                    let least = hv_min(v, old_value);
                    proof {
                        lemma_set_lesser(self.atoms@, a@, v, old_value);
                    }
                    if least == old_value {
                        return false;
                    }
                    self.atoms.set(a, least);
                    true
                },
                None => {
                    self.atoms.set(a, v);
                    true
                },
            }
        }
    }

    /// Adds what an action leads to; whether that changes anything.
    fn add_action(&mut self, base: &PlanningGraph, a: &StepAction) -> (changed: bool)
        requires
            old(self).wf(),
            base.wf(),
        ensures
            final(self).wf(),
            final(self)@ == old(self)@.after_action(base@, a@),
            no_worse(old(self)@, final(self)@, changed),
    {
        let ghost before = self@;
        let (pre, _) = formula_heuristic_value(base, &a.precondition, 0, None);
        if pre.infinite() {
            return false;
        }
        let cost = a.cost as u128;
        let mut changed = false;
        let mut i: usize = 0;
        while i < a.effects.len()
            invariant
                self.wf(),
                base.wf(),
                i <= a.effects@.len(),
                self@ == before.after_effects(base@, pre, cost, a@.effects, i as nat),
                no_worse(before, self@, changed),
            decreases a.effects@.len() - i,
        {
            let ghost mid = self@;
            let more = self.add_effect(base, pre, cost, &a.effects[i]);
            proof {
                lemma_no_worse(before, mid, self@, changed, more);
                assert(a@.effects[i as int] == a.effects@[i as int]@);
            }
            changed = changed || more;
            i = i + 1;
        }
        changed
    }

    /// Adds the next level of the graph; whether that changes anything.
    fn add_level(&mut self, base: &PlanningGraph, actions: &Vec<Rc<StepAction>>) -> (changed: bool)
        requires
            old(self).wf(),
            base.wf(),
            old(self)@ == base@,
        ensures
            final(self).wf(),
            final(self)@ == base@.next_level(action_views(actions@)),
            no_worse(base@, final(self)@, changed),
    {
        let mut changed = false;
        let mut i: usize = 0;
        while i < actions.len()
            invariant
                self.wf(),
                base.wf(),
                i <= actions@.len(),
                self@ == base@.after_actions(base@, action_views(actions@), i as nat),
                no_worse(base@, self@, changed),
            decreases actions@.len() - i,
        {
            let ghost mid = self@;
            let more = self.add_action(base, &actions[i]);
            proof {
                lemma_no_worse(base@, mid, self@, changed, more);
                assert(action_views(actions@)[i as int] == actions@[i as int]@);
            }
            changed = changed || more;
            i = i + 1;
        }
        changed
    }

    /// Level zero of the graph.
    fn start(predicates: &PredicateTable, init_action: &StepAction) -> (res: PlanningGraph)
        requires
            predicates.wf(),
        ensures
            res.wf(),
            res@ == first_level(predicates.dynamics(), init_action@.effects, init_action@.effects.len()),
    {
        let mut res = PlanningGraph { atoms: AtomTable::new(), negs: AtomTable::new(), init: AtomTable::new(), actions: Vec::new() };
        let ghost d = predicates.dynamics();
        let mut i: usize = 0;
        assert(res@ =~= first_level(d, init_action@.effects, 0));
        while i < init_action.effects.len()
            invariant
                predicates.wf(),
                d == predicates.dynamics(),
                res.wf(),
                i <= init_action.effects@.len(),
                res@ == first_level(d, init_action@.effects, i as nat),
            decreases init_action.effects@.len() - i,
        {
            let ghost before = res@;
            let e = &init_action.effects[i];
            let a = e.literal.atom();
            assert(init_action@.effects[i as int] == e@);
            if !e.literal.negative() && !res.initially(a) {
                let ghost table = res.init@;
                proof {
                    lemma_place(table, a@);
                    if place_of(table, a@) is Some {
                        assert(atoms_of(table)[place_of(table, a@)->0] == a@);
                    }
                }
                res.init.set(a, HeuristicValue::of_zero());
                assert(atoms_of(res.init@) =~= before.init.push(a@));
            }
            if res.atoms.get(a).is_none() {
                if predicates.is_static(a.predicate) {
                    res.atoms.set(a, HeuristicValue::of_zero());
                } else {
                    res.atoms.set(a, HeuristicValue::of_unit_work());
                }
            }
            i = i + 1;
        }
        res
    }

    fn copy(&self) -> (res: PlanningGraph)
        requires
            self.wf(),
        ensures
            res.wf(),
            res@ == self@,
    {
        PlanningGraph { atoms: self.atoms.copy(), negs: self.negs.copy(), init: self.init.copy(), actions: Vec::new() }
    }

    /// The actions the graph was built from.
    pub closed spec fn steps(&self) -> Seq<StepActionView> {
        action_views(self.actions@)
    }

    /// Builds the relaxed planning graph from `init_action` (which carries the
    /// init atoms as positive effects) and the ground action instantiations.
    pub fn build(predicates: &PredicateTable, init_action: &StepAction, actions: Vec<Rc<StepAction>>) -> (res: PlanningGraph)
        requires
            predicates.wf(),
        ensures
            res.wf(),
            res.steps() == action_views(actions@),
            is_graph_of(res@, predicates.dynamics(), init_action@, action_views(actions@)),
    {
        let ghost views = action_views(actions@);
        let mut cur = PlanningGraph::start(predicates, init_action);
        let ghost start = cur@;
        let ghost mut n: nat = 0;
        loop
            invariant
                cur.wf(),
                views == action_views(actions@),
                cur@ == start.level(views, n),
            ensures
                cur.wf(),
                cur@ == start.level(views, n),
                cur@.next_level(views) == cur@,
            decreases usize::MAX - cur.atoms@.len() + (usize::MAX - cur.negs@.len()), total(cur.atoms@) + total(cur.negs@),
        {
            let mut next = cur.copy();
            let changed = next.add_level(&cur, &actions);
            if !changed {
                break;
            }
            proof {
                cur.atoms.lemma_wf();
                cur.negs.lemma_wf();
                next.atoms.lemma_wf();
                next.negs.lemma_wf();
                n = n + 1;
            }
            cur = next;
        }
        cur.actions = actions;
        proof {
            assert(cur@ == start.level(views, n) && cur@.next_level(views) == cur@);
        }
        cur
    }

    /// Builds the relaxed planning graph from `init_action` and a set of action
    /// `schemas`: that of their groundings over the objects of the problem, with
    /// the effects of quantified variables for all objects. It keeps the groundings
    /// whose precondition is within reach.
    pub fn build_from_schemas(
        predicates: &PredicateTable,
        init_action: &StepAction,
        schemas: &Vec<ActionSchema>,
        ctx: &TypeContext,
        cost_model: ActionCost,
        task_costs: bool,
    ) -> (res: PlanningGraph)
        requires
            predicates.wf(),
            ctx.wf(),
            all_in_scope(schemas@),
        ensures
            res.wf(),
            exists|all: Seq<StepActionView>|
                {
                    &&& #[trigger] is_graph_of(res@, predicates.dynamics(), init_action@, all)
                    &&& res.steps() == reachable_actions(res@, all, all.len())
                    &&& actions_of(ctx@, schemas@, true, schemas@.len()).len() <= usize::MAX - 2 ==> all == graph_forms(
                        ctx@,
                        cost_model,
                        task_costs,
                        actions_of(ctx@, schemas@, true, schemas@.len()),
                    )
                },
    {
        let actions = ground_for_graph(ctx, schemas, cost_model, task_costs);
        let ghost all = action_views(actions@);
        let mut graph = PlanningGraph::build(predicates, init_action, actions);
        let ghost g = graph@;
        let mut kept: Vec<Rc<StepAction>> = Vec::new();
        let mut i: usize = 0;
        assert(action_views(kept@) =~= seq![]);
        while i < graph.actions.len()
            invariant
                graph.wf(),
                graph@ == g,
                action_views(graph.actions@) == all,
                i <= graph.actions@.len(),
                action_views(kept@) == reachable_actions(g, all, i as nat),
            decreases graph.actions@.len() - i,
        {
            assert(all[i as int] == graph.actions@[i as int]@);
            let (pre, _) = formula_heuristic_value(&graph, &graph.actions[i].precondition, 0, None);
            if !pre.infinite() {
                let ghost before = kept@;
                kept.push(graph.actions[i].clone());
                assert(action_views(kept@) =~= action_views(before).push(all[i as int]));
            }
            i = i + 1;
        }
        graph.actions = kept;
        assert(is_graph_of(graph@, predicates.dynamics(), init_action@, all));
        graph
    }

    /// The number of actions the graph keeps.
    pub fn num_actions(&self) -> (res: usize)
        ensures
            res == self.steps().len(),
    {
        self.actions.len()
    }

    /// An action the graph was built from.
    pub fn action(&self, i: usize) -> (res: &Rc<StepAction>)
        requires
            i < self.steps().len(),
        ensures
            res@ == self.steps()[i as int],
    {
        &self.actions[i]
    }

    /// The number of atoms that can be reached.
    pub fn num_atoms(&self) -> (res: usize)
        ensures
            res == self@.atoms.len(),
    {
        self.atoms.len()
    }

    /// An atom that can be reached.
    pub fn atom_at(&self, i: usize) -> (res: &Atom)
        requires
            i < self@.atoms.len(),
        ensures
            res@ == self@.atoms[i as int].0,
    {
        self.atoms.atom(i)
    }
}

} // verus!
