//! What grounding keeps: ground formulas mean what the formulas mean for the objects, and
//! every instance of a schema over objects of the right types is there.
use vstd::prelude::*;

use crate::action::ActionSchema;
use crate::effect::EffectView;
use crate::formula::{AtomView, FormulaView};
use crate::formula_laws::{conjoined_is_exact, disjoined_is_exact, slot, World};
use crate::instantiate::{consistent, ground, ground_all, ground_atom, ground_term};
use crate::search::{actions_of, grounded, in_scope, unbound, with_groundings, with_objects};
use crate::step::StepActionView;
use crate::terms::{Object, Term, Variable};
use crate::typing::Typing;

verus! {

/// The object that a substitution gives a variable.
pub open spec fn given(subst: Seq<Option<Object>>, v: Variable) -> Option<Object> {
    if v.0 < subst.len() {
        subst[v.0 as int]
    } else {
        None
    }
}

/// The world in which the variables of a substitution stand for its objects.
pub open spec fn world_under(w: World, subst: Seq<Option<Object>>) -> World {
    World {
        facts: w.facts,
        values: |v: Variable, id: Option<usize>|
            match given(subst, v) {
                Some(o) => o,
                None => (w.values)(v, id),
            },
        ranges: w.ranges,
    }
}

/// Whether no quantifier of a formula binds a variable that a substitution gives.
pub open spec fn is_clear_of(f: FormulaView, subst: Seq<Option<Object>>) -> bool
    decreases f,
{
    match f {
        FormulaView::Conjunction(cs) => forall|i: int| 0 <= i < cs.len() ==> is_clear_of(#[trigger] cs[i], subst),
        FormulaView::Disjunction(ds) => forall|i: int| 0 <= i < ds.len() ==> is_clear_of(#[trigger] ds[i], subst),
        FormulaView::Exists(params, body) => is_clear_of(*body, subst) && forall|i: int|
            0 <= i < params.len() ==> given(subst, #[trigger] params[i]) is None,
        FormulaView::Forall(params, body) => is_clear_of(*body, subst) && forall|i: int|
            0 <= i < params.len() ==> given(subst, #[trigger] params[i]) is None,
        _ => true,
    }
}

proof fn lemma_ground_value(w: World, t: Term, id: Option<usize>, subst: Seq<Option<Object>>)
    ensures
        w.value(ground_term(t, subst), id) == world_under(w, subst).value(t, id),
{
}

proof fn lemma_ground_fact(w: World, a: AtomView, subst: Seq<Option<Object>>)
    ensures
        w.fact(ground_atom(a, subst)) == world_under(w, subst).fact(a),
{
    assert(w.fact(ground_atom(a, subst)).1 =~= world_under(w, subst).fact(a).1);
}

proof fn lemma_slot_given(params: Seq<Variable>, subst: Seq<Option<Object>>, v: Variable)
    requires
        forall|i: int| 0 <= i < params.len() ==> given(subst, #[trigger] params[i]) is None,
    ensures
        slot(params, v) is Some ==> given(subst, v) is None,
    decreases params.len(),
{
    if params.len() > 0 {
        let front = params.drop_last();
        assert forall|i: int| 0 <= i < front.len() implies given(subst, #[trigger] front[i]) is None by {
            assert(front[i] == params[i]);
        }
        lemma_slot_given(front, subst, v);
        assert(given(subst, params[params.len() - 1]) is None);
    }
}

proof fn lemma_with_under(w: World, params: Seq<Variable>, os: Seq<Object>, subst: Seq<Option<Object>>)
    requires
        forall|i: int| 0 <= i < params.len() ==> given(subst, #[trigger] params[i]) is None,
    ensures
        world_under(w, subst).with(params, os) == world_under(w.with(params, os), subst),
{
    let a = world_under(w, subst).with(params, os);
    let b = world_under(w.with(params, os), subst);
    assert forall|v: Variable, id: Option<usize>| #[trigger] (a.values)(v, id) == (b.values)(v, id) by {
        lemma_slot_given(params, subst, v);
    }
    assert(a.values =~= b.values);
}

/// A ground formula holds exactly where the formula does once its variables stand for the
/// objects.
pub proof fn grounding_is_exact(w: World, f: FormulaView, subst: Seq<Option<Object>>)
    requires
        is_clear_of(f, subst),
    ensures
        w.holds(ground(f, subst)) == world_under(w, subst).holds(f),
    decreases f, 0nat,
{
    let u = world_under(w, subst);
    match f {
        FormulaView::Atom(a) => lemma_ground_fact(w, a, subst),
        FormulaView::Negation(a) => lemma_ground_fact(w, a, subst),
        FormulaView::Equality(l, li, r, ri) => {
            lemma_ground_value(w, l, li, subst);
            lemma_ground_value(w, r, ri, subst);
        },
        FormulaView::Inequality(l, li, r, ri) => {
            lemma_ground_value(w, l, li, subst);
            lemma_ground_value(w, r, ri, subst);
        },
        FormulaView::Conjunction(cs) => {
            let gs = ground_all(cs, subst);
            conjoined_is_exact(w, gs);
            assert forall|i: int| 0 <= i < cs.len() implies w.holds(#[trigger] gs[i]) == u.holds(cs[i]) by {
                grounding_is_exact(w, cs[i], subst);
            }
            if u.holds(f) {
                assert forall|i: int| 0 <= i < gs.len() implies w.holds(#[trigger] gs[i]) by {
                    assert(u.holds(cs[i]));
                }
            }
            if w.holds_all(gs) {
                assert forall|i: int| 0 <= i < cs.len() implies u.holds(#[trigger] cs[i]) by {
                    assert(w.holds(gs[i]));
                }
            }
        },
        FormulaView::Disjunction(ds) => {
            let gs = ground_all(ds, subst);
            disjoined_is_exact(w, gs);
            assert forall|i: int| 0 <= i < ds.len() implies w.holds(#[trigger] gs[i]) == u.holds(ds[i]) by {
                grounding_is_exact(w, ds[i], subst);
            }
            if u.holds(f) {
                let i = choose|i: int| 0 <= i < ds.len() && u.holds(#[trigger] ds[i]);
                assert(w.holds(gs[i]));
            }
            if w.holds_any(gs) {
                let i = choose|i: int| 0 <= i < gs.len() && w.holds(#[trigger] gs[i]);
                assert(u.holds(ds[i]));
            }
        },
        FormulaView::Exists(params, body) => {
            lemma_ground_body(w, params, *body, subst);
        },
        FormulaView::Forall(params, body) => {
            lemma_ground_body(w, params, *body, subst);
        },
        _ => {},
    }
}

proof fn lemma_ground_body(w: World, params: Seq<Variable>, body: FormulaView, subst: Seq<Option<Object>>)
    requires
        is_clear_of(body, subst),
        forall|i: int| 0 <= i < params.len() ==> given(subst, #[trigger] params[i]) is None,
    ensures
        w.holds_for_some(params, ground(body, subst)) == world_under(w, subst).holds_for_some(params, body),
        w.holds_for_all(params, ground(body, subst)) == world_under(w, subst).holds_for_all(params, body),
    decreases body, 1nat,
{
    let u = world_under(w, subst);
    let g = ground(body, subst);
    assert forall|os: Seq<Object>| u.fits(params, os) == #[trigger] w.fits(params, os) && w.with(params, os).holds(g) == u.with(params, os).holds(body) by {
        lemma_with_under(w, params, os, subst);
        grounding_is_exact(w.with(params, os), body, subst);
    }
    if w.holds_for_some(params, g) {
        let os = choose|os: Seq<Object>| #[trigger] w.fits(params, os) && w.with(params, os).holds(g);
        assert(u.fits(params, os));
    }
    if u.holds_for_some(params, body) {
        let os = choose|os: Seq<Object>| #[trigger] u.fits(params, os) && u.with(params, os).holds(body);
        assert(w.fits(params, os));
    }
    if w.holds_for_all(params, g) {
        assert forall|os: Seq<Object>| #[trigger] u.fits(params, os) implies u.with(params, os).holds(body) by {
            assert(w.fits(params, os));
        }
    }
    if u.holds_for_all(params, body) {
        assert forall|os: Seq<Object>| #[trigger] w.fits(params, os) implies w.with(params, os).holds(g) by {
            assert(u.fits(params, os));
        }
    }
}

/// Whether a substitution decides the (in)equalities among the conjuncts of a formula.
pub open spec fn is_decided(f: FormulaView, subst: Seq<Option<Object>>) -> bool
    decreases f,
{
    match f {
        FormulaView::Conjunction(cs) => forall|i: int| 0 <= i < cs.len() ==> is_decided(#[trigger] cs[i], subst),
        FormulaView::Equality(l, _, r, _) => ground_term(l, subst) is Object && ground_term(r, subst) is Object,
        FormulaView::Inequality(l, _, r, _) => ground_term(l, subst) is Object && ground_term(r, subst) is Object,
        _ => true,
    }
}

/// Only instances that can never take place are left out: where a precondition holds for
/// the objects of a substitution that decides its (in)equalities, they are consistent.
pub proof fn inconsistent_instances_never_take_place(w: World, f: FormulaView, subst: Seq<Option<Object>>)
    requires
        is_decided(f, subst),
        world_under(w, subst).holds(f),
    ensures
        consistent(f, subst),
    decreases f,
{
    match f {
        FormulaView::Conjunction(cs) => {
            assert forall|i: int| 0 <= i < cs.len() implies consistent(#[trigger] cs[i], subst) by {
                assert(world_under(w, subst).holds(cs[i]));
                inconsistent_instances_never_take_place(w, cs[i], subst);
            }
        },
        FormulaView::Equality(l, li, r, ri) => {
            lemma_ground_value(w, l, li, subst);
            lemma_ground_value(w, r, ri, subst);
        },
        FormulaView::Inequality(l, li, r, ri) => {
            lemma_ground_value(w, l, li, subst);
            lemma_ground_value(w, r, ri, subst);
        },
        _ => {},
    }
}

/// A substitution with the first `n` parameters of a schema standing for objects.
pub open spec fn filled(s: ActionSchema, os: Seq<Object>, n: nat) -> Seq<Option<Object>>
    decreases n,
{
    if n == 0 {
        unbound(s.var_types@.len())
    } else {
        filled(s, os, (n - 1) as nat).update(s.parameters@[n - 1].0 as int, Some(os[n - 1]))
    }
}

/// Whether objects are of the types of a schema's parameters.
pub open spec fn are_arguments(t: Typing, s: ActionSchema, os: Seq<Object>) -> bool {
    os.len() == s.parameters@.len() && forall|i: int|
        0 <= i < os.len() ==> t.range(s.var_types@[s.parameters@[i].0 as int]).contains(#[trigger] os[i])
}

/// Whether an action is the ground one of a schema for some objects, but for its number.
pub open spec fn is_instance(t: Typing, s: ActionSchema, os: Seq<Object>, a: StepActionView) -> bool {
    &&& are_arguments(t, s, os)
    &&& consistent(s.precondition@, filled(s, os, os.len()))
    &&& a == grounded(s, filled(s, os, os.len()), a.id)
}

proof fn lemma_objects_grow(t: Typing, out: Seq<StepActionView>, s: ActionSchema, k: nat, subst: Seq<Option<Object>>, os: Seq<Object>, m: nat, n: nat)
    requires
        m <= n,
    ensures
        with_objects(t, out, s, k, subst, os, m).len() <= with_objects(t, out, s, k, subst, os, n).len(),
        forall|i: int|
            0 <= i < with_objects(t, out, s, k, subst, os, m).len() ==> #[trigger] with_objects(t, out, s, k, subst, os, n)[i] == with_objects(
                t,
                out,
                s,
                k,
                subst,
                os,
                m,
            )[i],
    decreases s.parameters@.len() - k, 0nat, n,
{
    if m < n && k < s.parameters@.len() {
        lemma_objects_grow(t, out, s, k, subst, os, m, (n - 1) as nat);
        let before = with_objects(t, out, s, k, subst, os, (n - 1) as nat);
        lemma_groundings_grow(t, before, s, k + 1, subst.update(s.parameters@[k as int].0 as int, Some(os[n - 1])));
    }
}

proof fn lemma_groundings_grow(t: Typing, out: Seq<StepActionView>, s: ActionSchema, k: nat, subst: Seq<Option<Object>>)
    ensures
        out.len() <= with_groundings(t, out, s, k, subst).len(),
        forall|i: int| 0 <= i < out.len() ==> #[trigger] with_groundings(t, out, s, k, subst)[i] == out[i],
    decreases s.parameters@.len() - k, 1nat, 0nat,
{
    if k < s.parameters@.len() {
        let os = t.range(s.var_types@[s.parameters@[k as int].0 as int]);
        lemma_objects_grow(t, out, s, k, subst, os, 0, os.len());
    }
}

/// Every instance of a schema is among its groundings.
proof fn lemma_grounded_there(t: Typing, out: Seq<StepActionView>, s: ActionSchema, k: nat, os: Seq<Object>) -> (i: int)
    requires
        k <= s.parameters@.len(),
        are_arguments(t, s, os),
        consistent(s.precondition@, filled(s, os, os.len())),
    ensures
        out.len() <= i < with_groundings(t, out, s, k, filled(s, os, k)).len(),
        is_instance(t, s, os, with_groundings(t, out, s, k, filled(s, os, k))[i]),
    decreases s.parameters@.len() - k,
{
    let subst = filled(s, os, k);
    if k >= s.parameters@.len() {
        assert(subst == filled(s, os, os.len()));
        out.len() as int
    } else {
        let all = t.range(s.var_types@[s.parameters@[k as int].0 as int]);
        assert(all.contains(os[k as int]));
        let j = choose|j: int| 0 <= j < all.len() && all[j] == os[k as int];
        let before = with_objects(t, out, s, k, subst, all, j as nat);
        lemma_objects_grow(t, out, s, k, subst, all, 0, j as nat);
        let i = lemma_grounded_there(t, before, s, k + 1, os);
        assert(filled(s, os, k + 1) == subst.update(s.parameters@[k as int].0 as int, Some(all[j])));
        lemma_objects_grow(t, out, s, k, subst, all, (j + 1) as nat, all.len());
        assert(with_objects(t, out, s, k, subst, all, (j + 1) as nat) == with_groundings(t, before, s, k + 1, filled(s, os, k + 1)));
        i
    }
}

proof fn lemma_filled_prefix(s: ActionSchema, os: Seq<Object>, o: Object, n: nat)
    requires
        n <= os.len(),
    ensures
        filled(s, os.push(o), n) == filled(s, os, n),
    decreases n,
{
    if n > 0 {
        lemma_filled_prefix(s, os, o, (n - 1) as nat);
        assert(os.push(o)[n - 1] == os[n - 1]);
    }
}

/// Whether objects are of the types of the first parameters of a schema.
spec fn are_first_arguments(t: Typing, s: ActionSchema, os: Seq<Object>) -> bool {
    os.len() <= s.parameters@.len() && forall|i: int|
        0 <= i < os.len() ==> t.range(s.var_types@[s.parameters@[i].0 as int]).contains(#[trigger] os[i])
}

proof fn lemma_only_objects(t: Typing, out: Seq<StepActionView>, s: ActionSchema, os: Seq<Object>, n: nat, i: int) -> (all: Seq<Object>)
    requires
        os.len() < s.parameters@.len(),
        are_first_arguments(t, s, os),
        n <= t.range(s.var_types@[s.parameters@[os.len() as int].0 as int]).len(),
        out.len() <= i < with_objects(
            t,
            out,
            s,
            os.len(),
            filled(s, os, os.len()),
            t.range(s.var_types@[s.parameters@[os.len() as int].0 as int]),
            n,
        ).len(),
    ensures
        is_instance(
            t,
            s,
            all,
            with_objects(
                t,
                out,
                s,
                os.len(),
                filled(s, os, os.len()),
                t.range(s.var_types@[s.parameters@[os.len() as int].0 as int]),
                n,
            )[i],
        ),
    decreases s.parameters@.len() - os.len(), 0nat, n,
{
    let k = os.len();
    let subst = filled(s, os, k);
    let range = t.range(s.var_types@[s.parameters@[k as int].0 as int]);
    let before = with_objects(t, out, s, k, subst, range, (n - 1) as nat);
    let o = range[n - 1];
    let more = os.push(o);
    lemma_filled_prefix(s, os, o, k);
    assert(filled(s, more, k + 1) == subst.update(s.parameters@[k as int].0 as int, Some(o)));
    lemma_groundings_grow(t, before, s, k + 1, filled(s, more, k + 1));
    if i < before.len() {
        lemma_only_objects(t, out, s, os, (n - 1) as nat, i)
    } else {
        assert forall|j: int| 0 <= j < more.len() implies t.range(s.var_types@[s.parameters@[j].0 as int]).contains(#[trigger] more[j]) by {
            if j < k {
                assert(more[j] == os[j]);
            } else {
                assert(range[n - 1] == more[j]);
            }
        }
        lemma_only_instances(t, before, s, more, i)
    }
}

proof fn lemma_only_instances(t: Typing, out: Seq<StepActionView>, s: ActionSchema, os: Seq<Object>, i: int) -> (all: Seq<Object>)
    requires
        are_first_arguments(t, s, os),
        out.len() <= i < with_groundings(t, out, s, os.len(), filled(s, os, os.len())).len(),
    ensures
        is_instance(t, s, all, with_groundings(t, out, s, os.len(), filled(s, os, os.len()))[i]),
    decreases s.parameters@.len() - os.len(), 1nat, 0nat,
{
    let k = os.len();
    if k >= s.parameters@.len() {
        os
    } else {
        lemma_only_objects(t, out, s, os, t.range(s.var_types@[s.parameters@[k as int].0 as int]).len(), i)
    }
}

/// Whether no parameter of a schema occurs twice.
pub open spec fn has_distinct_parameters(s: ActionSchema) -> bool {
    forall|i: int, j: int| 0 <= i < j < s.parameters@.len() ==> (#[trigger] s.parameters@[i]).0 != (#[trigger] s.parameters@[j]).0
}

proof fn lemma_filled(s: ActionSchema, os: Seq<Object>, n: nat)
    requires
        in_scope(s),
        has_distinct_parameters(s),
        os.len() == s.parameters@.len(),
        n <= os.len(),
    ensures
        filled(s, os, n).len() == s.var_types@.len(),
        forall|i: int| 0 <= i < n ==> filled(s, os, n)[(#[trigger] s.parameters@[i]).0 as int] == Some(os[i]),
    decreases n,
{
    if n > 0 {
        lemma_filled(s, os, (n - 1) as nat);
        assert(s.parameters@[n - 1].0 < s.var_types@.len());
        assert forall|i: int| 0 <= i < n implies filled(s, os, n)[(#[trigger] s.parameters@[i]).0 as int] == Some(os[i]) by {
            assert(s.parameters@[i].0 < s.var_types@.len());
            if i < n - 1 {
                assert(s.parameters@[i].0 != s.parameters@[n - 1].0);
            }
        }
    }
}

/// Whether two effects do the same once the variables of the first stand for objects: under
/// the same conditions, at the same time and for the same quantified variables, the same
/// fact comes or goes.
pub open spec fn effects_agree(e: EffectView, g: EffectView, subst: Seq<Option<Object>>) -> bool {
    &&& g.parameters == e.parameters
    &&& g.when == e.when
    &&& g.literal.negative == e.literal.negative
    &&& forall|w: World| #[trigger] w.fact(g.literal.atom) == world_under(w, subst).fact(e.literal.atom)
    &&& forall|w: World| #[trigger] w.holds(g.condition) == world_under(w, subst).holds(e.condition)
    &&& forall|w: World| #[trigger] w.holds(g.link_condition) == world_under(w, subst).holds(e.link_condition)
}

/// Whether an action does what a schema does for some objects: it names them, has the cost
/// of the schema, can take place exactly where the schema can for them, and has its effects.
pub open spec fn acts_as(s: ActionSchema, os: Seq<Object>, a: StepActionView) -> bool {
    let subst = filled(s, os, os.len());
    &&& a.name == s.name@
    &&& a.parameters.len() == 0
    &&& a.arguments == os
    &&& a.cost == s.cost
    &&& a.var_types == s.var_types@
    &&& forall|w: World| #[trigger] w.holds(a.precondition) == world_under(w, subst).holds(s.precondition@)
    &&& a.effects.len() == s.effects@.len()
    &&& forall|i: int| 0 <= i < a.effects.len() ==> effects_agree(s.effects@[i]@, #[trigger] a.effects[i], subst)
}

/// A schema whose parameters are distinct and in its scope, and are bound by no quantifier
/// inside it.
pub open spec fn is_plain_schema(s: ActionSchema, subst: Seq<Option<Object>>) -> bool {
    &&& in_scope(s)
    &&& has_distinct_parameters(s)
    &&& is_clear_of(s.precondition@, subst)
    &&& forall|i: int|
        0 <= i < s.effects@.len() ==> is_clear_of((#[trigger] s.effects@[i])@.condition, subst) && is_clear_of(
            s.effects@[i]@.link_condition,
            subst,
        )
}

proof fn lemma_acts_as(t: Typing, s: ActionSchema, os: Seq<Object>, a: StepActionView)
    requires
        is_instance(t, s, os, a),
        is_plain_schema(s, filled(s, os, os.len())),
    ensures
        acts_as(s, os, a),
{
    let subst = filled(s, os, os.len());
    lemma_filled(s, os, os.len());
    assert(a.arguments =~= os);
    assert forall|w: World| #[trigger] w.holds(a.precondition) == world_under(w, subst).holds(s.precondition@) by {
        grounding_is_exact(w, s.precondition@, subst);
    }
    assert forall|i: int| 0 <= i < a.effects.len() implies effects_agree(s.effects@[i]@, #[trigger] a.effects[i], subst) by {
        let e = s.effects@[i]@;
        let g = a.effects[i];
        assert(is_clear_of(s.effects@[i]@.condition, subst));
        assert forall|w: World| #[trigger] w.fact(g.literal.atom) == world_under(w, subst).fact(e.literal.atom) by {
            lemma_ground_fact(w, e.literal.atom, subst);
        }
        assert forall|w: World| #[trigger] w.holds(g.condition) == world_under(w, subst).holds(e.condition) by {
            grounding_is_exact(w, e.condition, subst);
        }
        assert forall|w: World| #[trigger] w.holds(g.link_condition) == world_under(w, subst).holds(e.link_condition) by {
            grounding_is_exact(w, e.link_condition, subst);
        }
    }
}

proof fn lemma_actions_prefix(t: Typing, schemas: Seq<ActionSchema>, m: nat, n: nat)
    requires
        m <= n,
    ensures
        actions_of(t, schemas, true, m).len() <= actions_of(t, schemas, true, n).len(),
        forall|i: int|
            0 <= i < actions_of(t, schemas, true, m).len() ==> #[trigger] actions_of(t, schemas, true, n)[i] == actions_of(t, schemas, true, m)[i],
    decreases n,
{
    if m < n {
        lemma_actions_prefix(t, schemas, m, (n - 1) as nat);
        let s = schemas[n - 1];
        lemma_groundings_grow(t, actions_of(t, schemas, true, (n - 1) as nat), s, 0, unbound(s.var_types@.len()));
    }
}

/// Grounding leaves out nothing that can happen: wherever the precondition of a schema holds
/// for objects of the types of its parameters, one of the ground actions does what the
/// schema does for them.
pub proof fn every_possible_instance_is_an_action(t: Typing, schemas: Seq<ActionSchema>, m: int, os: Seq<Object>, w: World) -> (i: int)
    requires
        0 <= m < schemas.len(),
        are_arguments(t, schemas[m], os),
        is_plain_schema(schemas[m], filled(schemas[m], os, os.len())),
        is_decided(schemas[m].precondition@, filled(schemas[m], os, os.len())),
        world_under(w, filled(schemas[m], os, os.len())).holds(schemas[m].precondition@),
    ensures
        0 <= i < actions_of(t, schemas, true, schemas.len()).len(),
        acts_as(schemas[m], os, actions_of(t, schemas, true, schemas.len())[i]),
{
    let s = schemas[m];
    inconsistent_instances_never_take_place(w, s.precondition@, filled(s, os, os.len()));
    let out = actions_of(t, schemas, true, m as nat);
    let i = lemma_grounded_there(t, out, s, 0, os);
    let here = actions_of(t, schemas, true, (m + 1) as nat);
    lemma_acts_as(t, s, os, here[i]);
    lemma_actions_prefix(t, schemas, (m + 1) as nat, schemas.len());
    i
}

/// Grounding makes up nothing: every ground action does what some schema does for objects
/// of the types of its parameters.
pub proof fn every_action_is_an_instance(t: Typing, schemas: Seq<ActionSchema>, n: nat, i: int) -> (found: (int, Seq<Object>))
    requires
        n <= schemas.len(),
        forall|m: int, os: Seq<Object>|
            0 <= m < schemas.len() && #[trigger] are_arguments(t, schemas[m], os) ==> is_plain_schema(
                schemas[m],
                filled(schemas[m], os, os.len()),
            ),
        0 <= i < actions_of(t, schemas, true, n).len(),
    ensures
        0 <= found.0 < n,
        are_arguments(t, schemas[found.0], found.1),
        acts_as(schemas[found.0], found.1, actions_of(t, schemas, true, n)[i]),
    decreases n,
{
    let out = actions_of(t, schemas, true, (n - 1) as nat);
    let s = schemas[n - 1];
    lemma_groundings_grow(t, out, s, 0, unbound(s.var_types@.len()));
    if i < out.len() {
        every_action_is_an_instance(t, schemas, (n - 1) as nat, i)
    } else {
        let none = Seq::<Object>::empty();
        assert(filled(s, none, 0) == unbound(s.var_types@.len()));
        let os = lemma_only_instances(t, out, s, none, i);
        lemma_acts_as(t, s, os, actions_of(t, schemas, true, n)[i]);
        (n - 1, os)
    }
}

} // verus!
