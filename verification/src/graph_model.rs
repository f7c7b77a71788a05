//! What the relaxed planning graph says of atoms, negations and formulas.
use vstd::prelude::*;

use crate::atom_table::{value_in, with_value};
use crate::bindings::{ground_matches, resolved, unbarred, Class};
use crate::effect::EffectView;
use crate::formula::{AtomView, FormulaView};
use crate::hvalue::{lesser, no_value, unit_work, zero_value, HeuristicValue};
use crate::predicates::Predicate;
use crate::step::StepActionView;
use crate::terms::{Object, Term};
use crate::typing::Typing;

verus! {

/// The mathematical form of a graph: the values of the atoms that can be reached
/// and of the atoms that can be negated, and the atoms that hold initially.
#[verifier::ext_equal]
pub struct GraphView {
    pub atoms: Seq<(AtomView, HeuristicValue)>,
    pub negs: Seq<(AtomView, HeuristicValue)>,
    pub init: Seq<AtomView>,
}

/// What lifted atoms are read under: the types and the classes of the bindings.
pub struct Reading {
    pub typing: Typing,
    pub classes: Seq<Class>,
}

/// The terms of an atom as the bindings resolve them.
pub open spec fn resolved_terms(classes: Seq<Class>, terms: Seq<Term>, id: usize) -> Seq<Term> {
    Seq::new(terms.len(), |i: int| resolved(classes, terms[i], id))
}

/// An atom as the bindings resolve it.
pub open spec fn resolved_atom(classes: Seq<Class>, a: AtomView, id: usize) -> AtomView {
    AtomView { predicate: a.predicate, terms: resolved_terms(classes, a.terms, id) }
}

/// Whether a ground atom matches a lifted one.
pub open spec fn atom_matches(r: Reading, a: AtomView, id: usize, g: AtomView) -> bool {
    g.predicate == a.predicate && ground_matches(r.typing, r.classes, a.terms, id, g.terms)
}

/// Whether every term is an object of the problem.
pub open spec fn all_known(t: Typing, terms: Seq<Term>) -> bool {
    forall|i: int| 0 <= i < terms.len() ==> (#[trigger] terms[i]) is Object && terms[i]->Object_0.0 < t.objects.len()
}

/// Whether the terms make an atom that matches `a` and does not hold initially.
pub open spec fn absent_tuple(g: GraphView, r: Reading, a: AtomView, id: usize, terms: Seq<Term>) -> bool {
    &&& all_known(r.typing, terms)
    &&& ground_matches(r.typing, r.classes, a.terms, id, terms)
    &&& !g.init.contains(AtomView { predicate: a.predicate, terms })
}

/// The objects that a term may stand for.
pub open spec fn term_objects(r: Reading, t: Term, id: usize) -> Seq<Object> {
    match t {
        Term::Object(o) => seq![o],
        Term::Variable(v) => unbarred(r.classes, (v, id), r.typing.range(r.typing.var_ty(v, id))),
    }
}

/// Whether two terms may stand for the same object.
pub open spec fn may_equal(r: Reading, left: Term, lid: usize, right: Term, rid: usize) -> bool {
    match (resolved(r.classes, left, lid), resolved(r.classes, right, rid)) {
        (Term::Object(a), Term::Object(b)) => a == b,
        _ => exists|o: Object| #[trigger] term_objects(r, left, lid).contains(o) && term_objects(r, right, rid).contains(o),
    }
}

/// Whether two terms may stand for different objects.
pub open spec fn may_part(r: Reading, left: Term, lid: usize, right: Term, rid: usize) -> bool {
    match (resolved(r.classes, left, lid), resolved(r.classes, right, rid)) {
        (Term::Object(a), Term::Object(b)) => a != b,
        _ => true,
    }
}

/// The step of a side of an (in)equality.
pub open spec fn side_id(id: Option<usize>, step_id: usize) -> usize {
    match id {
        Some(i) => i,
        None => step_id,
    }
}

/// The values of a conjunction's parts added up until one is out of reach.
pub open spec fn value_of_all(values: Seq<HeuristicValue>, n: nat) -> HeuristicValue
    decreases n,
{
    if n == 0 {
        zero_value()
    } else {
        let h = value_of_all(values, (n - 1) as nat);
        if h.is_infinite() {
            h
        } else {
            h.plus(values[n - 1])
        }
    }
}

/// The least of the values of a disjunction's parts up to the first free one.
pub open spec fn value_of_any(values: Seq<HeuristicValue>, n: nat) -> HeuristicValue
    decreases n,
{
    if n == 0 {
        no_value()
    } else {
        let h = value_of_any(values, (n - 1) as nat);
        if h.is_zero() {
            h
        } else {
            lesser(h, values[n - 1])
        }
    }
}

impl GraphView {
    /// The value of a ground atom.
    pub open spec fn atom(self, a: AtomView) -> HeuristicValue {
        match value_in(self.atoms, a) {
            Some(v) => v,
            None => no_value(),
        }
    }

    /// The value of the negation of a ground atom: free where the atom is false
    /// initially.
    pub open spec fn negation(self, a: AtomView) -> HeuristicValue {
        match value_in(self.negs, a) {
            Some(v) => v,
            None => if self.init.contains(a) {
                no_value()
            } else {
                unit_work()
            },
        }
    }

    /// The least value of the atoms among the first `n` of a table that match.
    pub open spec fn least_match(self, table: Seq<(AtomView, HeuristicValue)>, r: Reading, a: AtomView, id: usize, n: nat) -> HeuristicValue
        decreases n,
    {
        if n == 0 {
            no_value()
        } else {
            let h = self.least_match(table, r, a, id, (n - 1) as nat);
            if atom_matches(r, a, id, table[n - 1].0) {
                lesser(h, self.atom(table[n - 1].0))
            } else {
                h
            }
        }
    }

    /// The value of a lifted atom: the least among the reachable atoms it
    /// matches.
    pub open spec fn lifted_atom(self, r: Reading, a: AtomView, id: usize) -> HeuristicValue {
        let g = resolved_atom(r.classes, a, id);
        if g.ground() {
            self.atom(g)
        } else {
            self.least_match(self.atoms, r, a, id, self.atoms.len())
        }
    }

    /// The value of the negation of a lifted atom.
    pub open spec fn lifted_negation(self, r: Reading, a: AtomView, id: usize) -> HeuristicValue {
        let g = resolved_atom(r.classes, a, id);
        if !self.lifted_atom(r, a, id).is_zero() {
            zero_value()
        } else if g.ground() {
            if value_in(self.negs, g) is Some {
                self.atom(g)
            } else {
                self.negation(g)
            }
        } else {
            let h = self.least_match(self.negs, r, a, id, self.negs.len());
            if !h.is_zero() && exists|ts: Seq<Term>| #[trigger] absent_tuple(self, r, a, id, ts) {
                lesser(h, unit_work())
            } else {
                h
            }
        }
    }

    /// The value of an atom, ground where there are no bindings.
    pub open spec fn atom_under(self, r: Option<Reading>, a: AtomView, id: usize) -> HeuristicValue {
        match r {
            None => self.atom(a),
            Some(r) => self.lifted_atom(r, a, id),
        }
    }

    /// The value of a negation, ground where there are no bindings.
    pub open spec fn negation_under(self, r: Option<Reading>, a: AtomView, id: usize) -> HeuristicValue {
        match r {
            None => self.negation(a),
            Some(r) => self.lifted_negation(r, a, id),
        }
    }

    /// The values of a list of formulas.
    pub open spec fn formulas(self, r: Option<Reading>, fs: Seq<FormulaView>, id: usize) -> Seq<HeuristicValue>
        decreases fs, 0nat,
    {
        Seq::new(
            fs.len(),
            |i: int|
                if 0 <= i < fs.len() {
                    self.formula(r, fs[i], id)
                } else {
                    zero_value()
                },
        )
    }

    /// The value of a formula.
    pub open spec fn formula(self, r: Option<Reading>, f: FormulaView, id: usize) -> HeuristicValue
        decreases f, 1nat,
    {
        match f {
            FormulaView::True | FormulaView::False => zero_value(),
            FormulaView::Atom(a) => self.atom_under(r, a, id),
            FormulaView::Negation(a) => self.negation_under(r, a, id),
            FormulaView::Equality(left, left_id, right, right_id) => match r {
                None => zero_value(),
                Some(r) => if may_equal(r, left, side_id(left_id, id), right, side_id(right_id, id)) {
                    zero_value()
                } else {
                    no_value()
                },
            },
            FormulaView::Inequality(left, left_id, right, right_id) => match r {
                None => zero_value(),
                Some(r) => if may_part(r, left, side_id(left_id, id), right, side_id(right_id, id)) {
                    zero_value()
                } else {
                    no_value()
                },
            },
            FormulaView::Conjunction(cs) => value_of_all(self.formulas(r, cs, id), cs.len()),
            FormulaView::Disjunction(ds) => value_of_any(self.formulas(r, ds, id), ds.len()),
            FormulaView::Exists(_, body) => self.formula(r, *body, id),
            FormulaView::Forall(_, body) => self.formula(r, *body, id),
        }
    }

    /// The graph after effect `e` of an action whose precondition has value `pre`,
    /// read at level `base`: a positive literal gets the value of reaching it this
    /// way if it is new or cheaper, and so does a negative one of an atom that
    /// holds initially.
    pub open spec fn after_effect(self, base: GraphView, pre: HeuristicValue, cost: u128, e: EffectView) -> GraphView {
        let cond = base.formula(None, e.condition, 0);
        let a = e.literal.atom;
        if cond.is_infinite() {
            self
        } else {
            let v = cond.plus(pre).after(cost);
            if e.literal.negative {
                match value_in(self.negs, a) {
                    Some(old) => GraphView { negs: with_value(self.negs, a, lesser(v, old)), ..self },
                    None => if self.init.contains(a) {
                        GraphView { negs: with_value(self.negs, a, v), ..self }
                    } else {
                        self
                    },
                }
            } else {
                match value_in(self.atoms, a) {
                    Some(old) => GraphView { atoms: with_value(self.atoms, a, lesser(v, old)), ..self },
                    None => GraphView { atoms: with_value(self.atoms, a, v), ..self },
                }
            }
        }
    }

    /// The graph after the first `n` effects.
    pub open spec fn after_effects(self, base: GraphView, pre: HeuristicValue, cost: u128, effects: Seq<EffectView>, n: nat) -> GraphView
        decreases n,
    {
        if n == 0 {
            self
        } else {
            self.after_effects(base, pre, cost, effects, (n - 1) as nat).after_effect(base, pre, cost, effects[n - 1])
        }
    }

    /// The graph after an action: as it was where the precondition is out of
    /// reach.
    pub open spec fn after_action(self, base: GraphView, a: StepActionView) -> GraphView {
        let pre = base.formula(None, a.precondition, 0);
        if pre.is_infinite() {
            self
        } else {
            self.after_effects(base, pre, a.cost as u128, a.effects, a.effects.len())
        }
    }

    /// The graph after the first `n` actions.
    pub open spec fn after_actions(self, base: GraphView, actions: Seq<StepActionView>, n: nat) -> GraphView
        decreases n,
    {
        if n == 0 {
            self
        } else {
            self.after_actions(base, actions, (n - 1) as nat).after_action(base, actions[n - 1])
        }
    }

    /// The next level of the graph.
    pub open spec fn next_level(self, actions: Seq<StepActionView>) -> GraphView {
        self.after_actions(self, actions, actions.len())
    }

    /// The level `n` levels on.
    pub open spec fn level(self, actions: Seq<StepActionView>, n: nat) -> GraphView
        decreases n,
    {
        if n == 0 {
            self
        } else {
            self.level(actions, (n - 1) as nat).next_level(actions)
        }
    }
}

/// Level zero: the initial atoms, static ones without work.
pub open spec fn first_level(dynamic: Set<Predicate>, effects: Seq<EffectView>, n: nat) -> GraphView
    decreases n,
{
    if n == 0 {
        GraphView { atoms: seq![], negs: seq![], init: seq![] }
    } else {
        let g = first_level(dynamic, effects, (n - 1) as nat);
        let l = effects[n - 1].literal;
        let v = if dynamic.contains(l.atom.predicate) {
            unit_work()
        } else {
            zero_value()
        };
        GraphView {
            atoms: if value_in(g.atoms, l.atom) is Some {
                g.atoms
            } else {
                with_value(g.atoms, l.atom, v)
            },
            negs: g.negs,
            init: if l.negative || g.init.contains(l.atom) {
                g.init
            } else {
                g.init.push(l.atom)
            },
        }
    }
}

/// Whether `g` is the graph that `actions` lead to from level zero of `init`: the
/// level that the next one equals.
pub open spec fn is_graph_of(g: GraphView, dynamic: Set<Predicate>, init: StepActionView, actions: Seq<StepActionView>) -> bool {
    let start = first_level(dynamic, init.effects, init.effects.len());
    exists|n: nat| g == #[trigger] start.level(actions, n) && g.next_level(actions) == g
}

/// Those of the first `n` actions whose precondition is within reach.
pub open spec fn reachable_actions(g: GraphView, actions: Seq<StepActionView>, n: nat) -> Seq<StepActionView>
    decreases n,
{
    if n == 0 {
        seq![]
    } else {
        let rest = reachable_actions(g, actions, (n - 1) as nat);
        if g.formula(None, actions[n - 1].precondition, 0).is_infinite() {
            rest
        } else {
            rest.push(actions[n - 1])
        }
    }
}

/// There is only one such graph.
pub proof fn graph_is_unique(
    g: GraphView,
    h: GraphView,
    dynamic: Set<Predicate>,
    init: StepActionView,
    actions: Seq<StepActionView>,
)
    requires
        is_graph_of(g, dynamic, init, actions),
        is_graph_of(h, dynamic, init, actions),
    ensures
        g == h,
{
    let start = first_level(dynamic, init.effects, init.effects.len());
    let n = choose|n: nat| g == #[trigger] start.level(actions, n) && g.next_level(actions) == g;
    let m = choose|m: nat| h == #[trigger] start.level(actions, m) && h.next_level(actions) == h;
    if n <= m {
        lemma_level_stays(start, actions, n, m);
    } else {
        lemma_level_stays(start, actions, m, n);
    }
}

/// A level that the next one equals stays.
proof fn lemma_level_stays(start: GraphView, actions: Seq<StepActionView>, n: nat, m: nat)
    requires
        n <= m,
        start.level(actions, n).next_level(actions) == start.level(actions, n),
    ensures
        start.level(actions, m) == start.level(actions, n),
    decreases m,
{
    if n < m {
        lemma_level_stays(start, actions, n, (m - 1) as nat);
    }
}

} // verus!
