//! What PDDL syntax means, and that lowering keeps it.
use vstd::prelude::*;

use crate::ast::{AstAction, AstAtomic, AstEffect, AstGoal, AstInit, AstPrecondition, AstPrimitive, AstTerm, AstType, AstTyped};
use crate::effect::EffectView;
use crate::formula::{both, negated, AtomView, FormulaView};
use crate::formula_laws::{conjunction_is_exact, disjunction_is_exact, negation_is_exact, slot, World};
use crate::lower_model::{
    action_in, all_strengthened, arguments_in, atomic_in, effect_in, effects_in, fresh_scope, goal_in, goals_in, init_in, literal_effect, names_of,
    literal_form, members_of, precondition_in, preconditions_in, primitive_in, primitives_in, sorted_with, term_in, terms_in, type_in,
    variable_named, variables_in, with_predicate, with_type, AtomicView, InitView, LowerScope, LowerView, SchemaView,
};
use crate::names::{lemma_found, lemma_position, position_of};
use crate::predicates::Predicate;
use crate::terms::{Object, Term, Variable};
use crate::types::{all_parts, parts, type_names, Type, TypeView};

verus! {

/// What the names of a domain and a problem stand for: the facts that hold, by
/// the names of their predicates, the object of each name and the objects of each
/// type.
pub struct Reading {
    pub facts: Set<(Seq<char>, Seq<Object>)>,
    pub objects: spec_fn(Seq<char>) -> Object,
    pub members: spec_fn(Seq<char>) -> Set<Object>,
}

/// The last of the first `n` variables of a typed list that has a name.
pub open spec fn last_named(decls: Seq<AstTyped>, n: nat, name: Seq<char>) -> Option<int>
    decreases n,
{
    if n == 0 {
        None
    } else if decls[n - 1].name@ == name {
        Some(n - 1)
    } else {
        last_named(decls, (n - 1) as nat, name)
    }
}

/// What variables stand for where those of a typed list stand for `os`.
pub open spec fn binding(env: spec_fn(Seq<char>) -> Object, decls: Seq<AstTyped>, os: Seq<Object>) -> spec_fn(Seq<char>) -> Object {
    |name: Seq<char>|
        match last_named(decls, decls.len(), name) {
            Some(i) => os[i],
            None => env(name),
        }
}

impl Reading {
    /// Whether an object is of a type: of one of those of an alternative, and of
    /// `object` where it names none.
    pub open spec fn is_of(self, o: Object, ty: AstType) -> bool {
        match ty {
            AstType::Exactly(name) => (self.members)(name@).contains(o),
            AstType::Either(names) => if names@.len() == 0 {
                (self.members)("object"@).contains(o)
            } else {
                exists|k: int| 0 <= k < names@.len() && (self.members)((#[trigger] names@[k])@).contains(o)
            },
        }
    }

    /// Whether `os` are objects of the types of a typed list.
    pub open spec fn fits(self, decls: Seq<AstTyped>, os: Seq<Object>) -> bool {
        os.len() == decls.len() && forall|i: int| 0 <= i < os.len() ==> self.is_of(#[trigger] os[i], decls[i].ty)
    }

    /// What a term stands for.
    pub open spec fn value(self, env: spec_fn(Seq<char>) -> Object, t: AstTerm) -> Object {
        match t {
            AstTerm::Variable(name) => env(name@),
            AstTerm::Name(name) => (self.objects)(name@),
            AstTerm::Function => arbitrary(),
        }
    }

    /// What a list of terms stands for.
    pub open spec fn values(self, env: spec_fn(Seq<char>) -> Object, ts: Seq<AstTerm>) -> Seq<Object> {
        Seq::new(ts.len(), |i: int| self.value(env, ts[i]))
    }

    /// Whether an atomic formula holds.
    pub open spec fn is_true(self, env: spec_fn(Seq<char>) -> Object, a: AstAtomic) -> bool {
        match a {
            AstAtomic::Predicate(name, args) => self.facts.contains((name@, self.values(env, args@))),
            AstAtomic::Equality(l, r) => self.value(env, l) == self.value(env, r),
        }
    }

    /// Whether a goal description holds.
    pub open spec fn holds(self, env: spec_fn(Seq<char>) -> Object, g: AstGoal) -> bool
        decreases g, 0nat,
    {
        match g {
            AstGoal::Atomic(a) => self.is_true(env, a),
            AstGoal::NotAtomic(a) => !self.is_true(env, a),
            AstGoal::And(gs) => forall|i: int| 0 <= i < gs@.len() ==> self.holds(env, #[trigger] gs@[i]),
            AstGoal::Or(gs) => exists|i: int| 0 <= i < gs@.len() && self.holds(env, #[trigger] gs@[i]),
            AstGoal::Not(g) => !self.holds(env, *g),
            AstGoal::Imply(a, b) => self.holds(env, *a) ==> self.holds(env, *b),
            AstGoal::Exists(vars, body) => self.holds_for_some(env, vars@, *body),
            AstGoal::ForAll(vars, body) => self.holds_for_all(env, vars@, *body),
            AstGoal::FluentComparison => arbitrary(),
        }
    }

    /// Whether a goal description holds for some objects of the types of a typed
    /// list.
    pub open spec fn holds_for_some(self, env: spec_fn(Seq<char>) -> Object, vars: Seq<AstTyped>, body: AstGoal) -> bool
        decreases body, 1nat,
    {
        exists|os: Seq<Object>| #[trigger] self.fits(vars, os) && self.holds(binding(env, vars, os), body)
    }

    /// Whether a goal description holds for all objects of the types of a typed
    /// list.
    pub open spec fn holds_for_all(self, env: spec_fn(Seq<char>) -> Object, vars: Seq<AstTyped>, body: AstGoal) -> bool
        decreases body, 1nat,
    {
        forall|os: Seq<Object>| #[trigger] self.fits(vars, os) ==> self.holds(binding(env, vars, os), body)
    }

    /// Whether a part of a precondition holds.
    pub open spec fn is_met(self, env: spec_fn(Seq<char>) -> Object, p: AstPrecondition) -> bool
        decreases p, 0nat,
    {
        match p {
            AstPrecondition::Goal(g) => self.holds(env, g),
            AstPrecondition::Preference => arbitrary(),
            AstPrecondition::ForAll(vars, body) => self.is_met_for_all(env, vars@, body@),
        }
    }

    /// Whether every part of a precondition holds.
    pub open spec fn are_met(self, env: spec_fn(Seq<char>) -> Object, ps: Seq<AstPrecondition>) -> bool
        decreases ps, 0nat,
    {
        forall|i: int| 0 <= i < ps.len() ==> self.is_met(env, #[trigger] ps[i])
    }

    /// Whether every part of a precondition holds for all objects of the types of
    /// a typed list.
    pub open spec fn is_met_for_all(self, env: spec_fn(Seq<char>) -> Object, vars: Seq<AstTyped>, body: Seq<AstPrecondition>) -> bool
        decreases body, 1nat,
    {
        forall|os: Seq<Object>| #[trigger] self.fits(vars, os) ==> self.are_met(binding(env, vars, os), body)
    }
}

/// Whether an object is of one of some types.
pub open spec fn is_among(extent: spec_fn(Type) -> Set<Object>, ts: Seq<Type>, o: Object) -> bool {
    exists|k: int| 0 <= k < ts.len() && extent(#[trigger] ts[k]).contains(o)
}

/// Whether the types of a table have the objects of their names, and unions those
/// of their components.
pub open spec fn types_agree(r: Reading, extent: spec_fn(Type) -> Set<Object>, table: Seq<TypeView>) -> bool {
    &&& forall|name: Seq<char>|
        match #[trigger] position_of(type_names(table), name) {
            Some(i) => extent(Type(i as u32)) == (r.members)(name),
            None => true,
        }
    &&& forall|i: int, o: Object|
        0 <= i < table.len() && (#[trigger] table[i]).components.len() > 0 ==> (#[trigger] extent(Type(i as u32)).contains(o) <==> is_among(
            extent,
            table[i].components,
            o,
        ))
}

/// Whether a world is one that a reading speaks of, by the tables that lowering
/// has made: its facts, objects and ranges are those of the names.
pub open spec fn agree(r: Reading, w: World, extent: spec_fn(Type) -> Set<Object>, cx: LowerScope, s: LowerView) -> bool {
    &&& forall|name: Seq<char>|
        match #[trigger] cx.object(name) {
            Some(o) => (r.objects)(name) == o,
            None => true,
        }
    &&& forall|i: int, os: Seq<Object>|
        0 <= i < s.names.len() ==> (#[trigger] w.facts.contains((Predicate(i as u32), os)) <==> r.facts.contains((s.names[i], os)))
    &&& types_agree(r, extent, s.types)
    &&& forall|v: int| 0 <= v < s.vars.len() ==> #[trigger] (w.ranges)(Variable(v as u32)) == extent(s.vars[v])
}

/// Whether the variables in scope stand for the same in a world and by name.
pub open spec fn sees(env: spec_fn(Seq<char>) -> Object, w: World, scope: Seq<(Seq<char>, Variable)>) -> bool {
    forall|name: Seq<char>|
        match #[trigger] variable_named(scope, name) {
            Some(v) => env(name) == (w.values)(v, None),
            None => true,
        }
}

/// Whether the first type is `object` and only variables that there are are in
/// scope.
pub open spec fn is_ready(s: LowerView) -> bool {
    &&& s.types.len() > 0
    &&& s.types[0].name == "object"@
    &&& s.vars.len() <= u32::MAX
    &&& forall|i: int| 0 <= i < s.scope.len() ==> (#[trigger] s.scope[i]).1.0 < s.vars.len()
}

/// Whether tables have kept their entries.
pub open spec fn grows(a: LowerView, b: LowerView) -> bool {
    &&& a.types.len() <= b.types.len()
    &&& a.types == b.types.take(a.types.len() as int)
    &&& a.names.len() <= b.names.len()
    &&& a.names == b.names.take(a.names.len() as int)
    &&& a.vars.len() <= b.vars.len()
    &&& a.vars == b.vars.take(a.vars.len() as int)
}

proof fn lemma_grows_on(a: LowerView, b: LowerView, c: LowerView)
    requires
        grows(a, b),
        grows(b, c),
    ensures
        grows(a, c),
{
    assert(c.types.take(a.types.len() as int) == b.types.take(a.types.len() as int));
    assert(c.names.take(a.names.len() as int) == b.names.take(a.names.len() as int));
    assert(c.vars.take(a.vars.len() as int) == b.vars.take(a.vars.len() as int));
}

proof fn lemma_grows_same(a: LowerView)
    ensures
        grows(a, a),
{
    assert(a.types.take(a.types.len() as int) == a.types);
    assert(a.names.take(a.names.len() as int) == a.names);
    assert(a.vars.take(a.vars.len() as int) == a.vars);
}

proof fn lemma_position_kept(a: Seq<Seq<char>>, b: Seq<Seq<char>>, name: Seq<char>)
    requires
        a.len() <= b.len(),
        a == b.take(a.len() as int),
        position_of(a, name) is Some,
    ensures
        position_of(b, name) == position_of(a, name),
    decreases b.len(),
{
    if a.len() == b.len() {
        assert(a == b);
    } else {
        let front = b.drop_last();
        assert(a == front.take(a.len() as int));
        lemma_position_kept(a, front, name);
    }
}

proof fn lemma_types_agree(r: Reading, extent: spec_fn(Type) -> Set<Object>, a: Seq<TypeView>, b: Seq<TypeView>)
    requires
        types_agree(r, extent, b),
        a.len() <= b.len(),
        a == b.take(a.len() as int),
    ensures
        types_agree(r, extent, a),
{
    assert forall|name: Seq<char>|
        match #[trigger] position_of(type_names(a), name) {
            Some(i) => extent(Type(i as u32)) == (r.members)(name),
            None => true,
        } by {
        if position_of(type_names(a), name) is Some {
            assert(type_names(a) == type_names(b).take(a.len() as int));
            lemma_position_kept(type_names(a), type_names(b), name);
        }
    }
    assert forall|i: int, o: Object|
        0 <= i < a.len() && (#[trigger] a[i]).components.len() > 0 implies (#[trigger] extent(Type(i as u32)).contains(o) <==> is_among(
        extent,
        a[i].components,
        o,
    )) by {
        assert(a[i] == b[i]);
    }
}

proof fn lemma_agree(r: Reading, w: World, extent: spec_fn(Type) -> Set<Object>, cx: LowerScope, a: LowerView, b: LowerView)
    requires
        agree(r, w, extent, cx, b),
        grows(a, b),
    ensures
        agree(r, w, extent, cx, a),
{
    lemma_types_agree(r, extent, a.types, b.types);
    assert forall|i: int, os: Seq<Object>| 0 <= i < a.names.len() implies (#[trigger] w.facts.contains((Predicate(i as u32), os)) <==> r.facts.contains(
        (a.names[i], os),
    )) by {
        assert(a.names[i] == b.names[i]);
    }
    assert forall|v: int| 0 <= v < a.vars.len() implies #[trigger] (w.ranges)(Variable(v as u32)) == extent(a.vars[v]) by {
        assert(a.vars[v] == b.vars[v]);
    }
}

proof fn lemma_named_type(s: LowerView, name: Seq<char>, t: Type, s2: LowerView)
    requires
        with_type(s, name) == Ok::<(Type, LowerView), crate::lower_error::Fault>((t, s2)),
    ensures
        grows(s, s2),
        s2 == (LowerView { types: s2.types, ..s }),
        t.0 < s2.types.len(),
        position_of(type_names(s2.types), name) == Some(t.0 as int),
{
    lemma_grows_same(s);
    lemma_position(type_names(s.types), name);
    if position_of(type_names(s.types), name) is None {
        assert(s2.types.take(s.types.len() as int) == s.types);
        assert(s2.names.take(s.names.len() as int) == s.names);
        assert(type_names(s2.types) == type_names(s.types).push(name));
        assert(type_names(s2.types).drop_last() == type_names(s.types));
        assert(type_names(s2.types).last() == name);
    }
}

proof fn lemma_sorted_with(ts: Seq<Type>, t: Type)
    ensures
        forall|x: Type| #[trigger] sorted_with(ts, t).contains(x) <==> ts.contains(x) || x == t,
        sorted_with(ts, t).len() > 0,
    decreases ts.len(),
{
    assert forall|x: Type| #[trigger] sorted_with(ts, t).contains(x) <==> ts.contains(x) || x == t by {
        if ts.len() == 0 {
            if x == t {
                assert(sorted_with(ts, t)[0] == x);
            }
        } else if ts.last() == t {
            assert(ts[ts.len() - 1] == t);
        } else if ts.last().0 < t.0 {
            lemma_push_has(ts, t, x);
        } else {
            lemma_sorted_with(ts.drop_last(), t);
            lemma_push_has(sorted_with(ts.drop_last(), t), ts.last(), x);
            lemma_push_has(ts.drop_last(), ts.last(), x);
            assert(ts.drop_last().push(ts.last()) == ts);
        }
    }
    if ts.len() > 0 && ts.last() != t && !(ts.last().0 < t.0) {
        lemma_sorted_with(ts.drop_last(), t);
    }
}

proof fn lemma_push_has(s: Seq<Type>, x: Type, t: Type)
    ensures
        s.push(x).contains(t) <==> s.contains(t) || t == x,
{
    if s.contains(t) {
        let k = choose|k: int| 0 <= k < s.len() && s[k] == t;
        assert(s.push(x)[k] == t);
    }
    if t == x {
        assert(s.push(x)[s.len() as int] == t);
    }
}

proof fn lemma_members(s: LowerView, names: Seq<String>, n: nat, ts: Seq<Type>, s2: LowerView)
    requires
        n <= names.len(),
        members_of(s, names, n) == Ok::<(Seq<Type>, LowerView), crate::lower_error::Fault>((ts, s2)),
    ensures
        grows(s, s2),
        s2 == (LowerView { types: s2.types, ..s }),
        n > 0 ==> ts.len() > 0,
        forall|x: Type| ts.contains(x) ==> #[trigger] x.0 < s2.types.len(),
        forall|x: Type| #[trigger] ts.contains(x) ==> exists|k: int|
            0 <= k < n && position_of(type_names(s2.types), (#[trigger] names[k])@) == Some(x.0 as int),
        forall|k: int| 0 <= k < n ==> (position_of(type_names(s2.types), (#[trigger] names[k])@) matches Some(i) && ts.contains(Type(i as u32))),
    decreases n,
{
    lemma_grows_same(s);
    if n > 0 {
        let (ts1, s1) = members_of(s, names, (n - 1) as nat)->Ok_0;
        lemma_members(s, names, (n - 1) as nat, ts1, s1);
        let (t, _) = with_type(s1, names[n - 1]@)->Ok_0;
        lemma_named_type(s1, names[n - 1]@, t, s2);
        lemma_grows_on(s, s1, s2);
        lemma_sorted_with(ts1, t);
        assert(type_names(s1.types) == type_names(s2.types).take(s1.types.len() as int));
        assert forall|x: Type| #[trigger] ts.contains(x) implies exists|k: int|
            0 <= k < n && position_of(type_names(s2.types), (#[trigger] names[k])@) == Some(x.0 as int) by {
            if x == t {
                assert(names[n - 1] == names[n - 1]);
            } else {
                let k = choose|k: int| 0 <= k < n - 1 && position_of(type_names(s1.types), (#[trigger] names[k])@) == Some(x.0 as int);
                lemma_position_kept(type_names(s1.types), type_names(s2.types), names[k]@);
            }
        }
        assert forall|k: int| 0 <= k < n implies (position_of(type_names(s2.types), (#[trigger] names[k])@) matches Some(i) && ts.contains(
            Type(i as u32),
        )) by {
            if k < n - 1 {
                lemma_position_kept(type_names(s1.types), type_names(s2.types), names[k]@);
            }
        }
        assert forall|x: Type| ts.contains(x) implies #[trigger] x.0 < s2.types.len() by {
            if x != t {
                assert(ts1.contains(x));
            }
        }
    }
}

proof fn lemma_parts(r: Reading, extent: spec_fn(Type) -> Set<Object>, table: Seq<TypeView>, ts: Seq<Type>, o: Object)
    requires
        types_agree(r, extent, table),
        forall|k: int| 0 <= k < ts.len() ==> (#[trigger] ts[k]).0 < table.len(),
    ensures
        is_among(extent, all_parts(table, ts), o) <==> is_among(extent, ts, o),
    decreases ts.len(),
{
    if ts.len() > 0 {
        let front = ts.drop_last();
        let t = ts.last();
        assert forall|k: int| 0 <= k < front.len() implies (#[trigger] front[k]).0 < table.len() by {
            assert(front[k] == ts[k]);
        }
        lemma_parts(r, extent, table, front, o);
        let a = all_parts(table, front);
        let b = parts(table, t);
        let ab = a + b;
        assert(ts[ts.len() - 1] == t);
        assert(is_among(extent, b, o) <==> extent(t).contains(o)) by {
            let e = table[t.0 as int];
            if e.components.len() > 0 {
                assert(extent(Type((t.0 as int) as u32)).contains(o) <==> is_among(extent, e.components, o));
            } else {
                assert(b[0] == t);
            }
        }
        if is_among(extent, ab, o) {
            let k = choose|k: int| 0 <= k < ab.len() && extent(#[trigger] ab[k]).contains(o);
            if k < a.len() {
                assert(a[k] == ab[k]);
                let j = choose|j: int| 0 <= j < front.len() && extent(#[trigger] front[j]).contains(o);
                assert(ts[j] == front[j]);
            } else {
                assert(b[k - a.len()] == ab[k]);
            }
        }
        if is_among(extent, ts, o) {
            let k = choose|k: int| 0 <= k < ts.len() && extent(#[trigger] ts[k]).contains(o);
            if k < front.len() {
                assert(front[k] == ts[k]);
                let j = choose|j: int| 0 <= j < a.len() && extent(#[trigger] a[j]).contains(o);
                assert(ab[j] == a[j]);
            } else {
                let j = choose|j: int| 0 <= j < b.len() && extent(#[trigger] b[j]).contains(o);
                assert(ab[a.len() + j] == b[j]);
            }
        }
    }
}

proof fn lemma_type(s: LowerView, ty: AstType, t: Type, s2: LowerView)
    requires
        is_ready(s),
        type_in(s, ty) == Ok::<(Type, LowerView), crate::lower_error::Fault>((t, s2)),
    ensures
        grows(s, s2),
        s2 == (LowerView { types: s2.types, ..s }),
        forall|r: Reading, extent: spec_fn(Type) -> Set<Object>, o: Object|
            types_agree(r, extent, s2.types) ==> (#[trigger] extent(t).contains(o) <==> #[trigger] r.is_of(o, ty)),
{
    match ty {
        AstType::Exactly(name) => {
            lemma_named_type(s, name@, t, s2);
        },
        AstType::Either(names) => {
            let (ts, s1) = members_of(s, names@, names@.len())->Ok_0;
            lemma_members(s, names@, names@.len(), ts, s1);
            if ts.len() > 1 {
                assert(s2.types.take(s1.types.len() as int) == s1.types);
                assert(s2.names.take(s1.names.len() as int) == s1.names);
                assert(s2.vars.take(s1.vars.len() as int) == s1.vars);
            } else {
                lemma_grows_same(s1);
            }
            lemma_grows_on(s, s1, s2);
            assert forall|r: Reading, extent: spec_fn(Type) -> Set<Object>, o: Object| types_agree(r, extent, s2.types) implies (#[trigger] extent(
                t,
            ).contains(o) <==> #[trigger] r.is_of(o, ty)) by {
                lemma_types_agree(r, extent, s1.types, s2.types);
                if ts.len() == 0 {
                    lemma_found(type_names(s2.types), "object"@, 0);
                    lemma_position(type_names(s2.types), "object"@);
                } else {
                    lemma_either(r, extent, names@, s1.types, ts, o);
                    if ts.len() == 1 {
                        if extent(t).contains(o) {
                            assert(extent(ts[0]).contains(o));
                        }
                    } else {
                        assert forall|k: int| 0 <= k < ts.len() implies (#[trigger] ts[k]).0 < s1.types.len() by {
                            assert(ts.contains(ts[k]));
                        }
                        lemma_parts(r, extent, s1.types, ts, o);
                        let i = s1.types.len() as int;
                        assert(s2.types[i].components == all_parts(s1.types, ts));
                        lemma_some_parts(s1.types, ts);
                        assert(extent(Type(i as u32)).contains(o) <==> is_among(extent, s2.types[i].components, o));
                    }
                }
            }
        },
    }
}

proof fn lemma_some_parts(table: Seq<TypeView>, ts: Seq<Type>)
    requires
        ts.len() > 0,
    ensures
        all_parts(table, ts).len() > 0,
{
}

proof fn lemma_either(r: Reading, extent: spec_fn(Type) -> Set<Object>, names: Seq<String>, table: Seq<TypeView>, ts: Seq<Type>, o: Object)
    requires
        types_agree(r, extent, table),
        forall|x: Type| #[trigger] ts.contains(x) ==> exists|k: int|
            0 <= k < names.len() && position_of(type_names(table), (#[trigger] names[k])@) == Some(x.0 as int),
        forall|k: int|
            0 <= k < names.len() ==> (position_of(type_names(table), (#[trigger] names[k])@) matches Some(i) && ts.contains(Type(i as u32))),
    ensures
        is_among(extent, ts, o) <==> exists|k: int| 0 <= k < names.len() && (r.members)((#[trigger] names[k])@).contains(o),
{
    if is_among(extent, ts, o) {
        let j = choose|j: int| 0 <= j < ts.len() && extent(#[trigger] ts[j]).contains(o);
        assert(ts.contains(ts[j]));
        let k = choose|k: int| 0 <= k < names.len() && position_of(type_names(table), (#[trigger] names[k])@) == Some(ts[j].0 as int);
        assert((r.members)(names[k]@) == extent(Type((ts[j].0 as int) as u32)));
    }
    if exists|k: int| 0 <= k < names.len() && (r.members)((#[trigger] names[k])@).contains(o) {
        let k = choose|k: int| 0 <= k < names.len() && (r.members)((#[trigger] names[k])@).contains(o);
        let i = position_of(type_names(table), names[k]@)->0;
        let j = choose|j: int| 0 <= j < ts.len() && ts[j] == Type(i as u32);
        assert(extent(ts[j]).contains(o));
    }
}

/// Whether lowering has added a typed list's variables, and nothing else but
/// types.
spec fn adds_variables(s: LowerView, decls: Seq<AstTyped>, n: nat, vs: Seq<Variable>, s2: LowerView) -> bool {
    &&& grows(s, s2)
    &&& is_ready(s2)
    &&& s2 == (LowerView { types: s2.types, vars: s2.vars, scope: s2.scope, ..s })
    &&& vs.len() == n
    &&& s2.vars.len() == s.vars.len() + n
    &&& forall|i: int| 0 <= i < n ==> (#[trigger] vs[i]).0 == s.vars.len() + i
    &&& forall|name: Seq<char>| #[trigger]
        variable_named(s2.scope, name) == (match last_named(decls, n, name) {
            Some(i) => Some(vs[i]),
            None => variable_named(s.scope, name),
        })
}

proof fn lemma_variables(s: LowerView, decls: Seq<AstTyped>, n: nat, vs: Seq<Variable>, s2: LowerView)
    requires
        is_ready(s),
        n <= decls.len(),
        variables_in(s, decls, n) == Ok::<(Seq<Variable>, LowerView), crate::lower_error::Fault>((vs, s2)),
    ensures
        adds_variables(s, decls, n, vs, s2),
        forall|r: Reading, extent: spec_fn(Type) -> Set<Object>, i: int, o: Object|
            types_agree(r, extent, s2.types) && 0 <= i < n ==> (#[trigger] extent(s2.vars[s.vars.len() + i]).contains(o) <==> #[trigger] r.is_of(
                o,
                decls[i].ty,
            )),
    decreases n,
{
    lemma_grows_same(s);
    if n > 0 {
        let (vs1, s1) = variables_in(s, decls, (n - 1) as nat)->Ok_0;
        lemma_variables(s, decls, (n - 1) as nat, vs1, s1);
        let ty = decls[n - 1].ty;
        let name0 = decls[n - 1].name@;
        let (t, sm) = type_in(s1, ty)->Ok_0;
        lemma_type(s1, ty, t, sm);
        assert(is_ready(sm)) by {
            assert(s1.types[0] == sm.types[0]);
        }
        assert(grows(sm, s2)) by {
            assert(s2.types.take(sm.types.len() as int) == sm.types);
            assert(s2.names.take(sm.names.len() as int) == sm.names);
            assert(s2.vars.take(sm.vars.len() as int) == sm.vars);
        }
        lemma_grows_on(s, s1, sm);
        lemma_grows_on(s, sm, s2);
        let v = Variable(s1.vars.len() as u32);
        assert(s2.scope == s1.scope.push((name0, v)));
        assert(is_ready(s2)) by {
            assert forall|i: int| 0 <= i < s2.scope.len() implies (#[trigger] s2.scope[i]).1.0 < s2.vars.len() by {
                if i < s1.scope.len() {
                    assert(s2.scope[i] == s1.scope[i]);
                }
            }
        }
        assert forall|name: Seq<char>| #[trigger]
            variable_named(s2.scope, name) == (match last_named(decls, n, name) {
                Some(i) => Some(vs[i]),
                None => variable_named(s.scope, name),
            }) by {
            assert(s2.scope.drop_last() == s1.scope);
            assert(s2.scope.last() == (name0, v));
            assert(variable_named(s1.scope, name) == (match last_named(decls, (n - 1) as nat, name) {
                Some(i) => Some(vs1[i]),
                None => variable_named(s.scope, name),
            }));
            lemma_last_named(decls, (n - 1) as nat, name);
        }
        assert forall|r: Reading, extent: spec_fn(Type) -> Set<Object>, i: int, o: Object|
            types_agree(r, extent, s2.types) && 0 <= i < n implies (#[trigger] extent(s2.vars[s.vars.len() + i]).contains(o) <==> #[trigger] r.is_of(
            o,
            decls[i].ty,
        )) by {
            assert(s2.types == sm.types);
            if i < n - 1 {
                lemma_types_agree(r, extent, s1.types, sm.types);
                assert(s2.vars[s.vars.len() + i] == s1.vars[s.vars.len() + i]);
                assert(extent(s1.vars[s.vars.len() + i]).contains(o) <==> r.is_of(o, decls[i].ty));
            } else {
                assert(s2.vars[s.vars.len() + i] == t);
                assert(extent(t).contains(o) <==> r.is_of(o, ty));
            }
        }
    }
}

proof fn lemma_last_named(decls: Seq<AstTyped>, n: nat, name: Seq<char>)
    ensures
        match last_named(decls, n, name) {
            Some(i) => 0 <= i < n && decls[i].name@ == name,
            None => true,
        },
    decreases n,
{
    if n > 0 {
        lemma_last_named(decls, (n - 1) as nat, name);
    }
}

proof fn lemma_slot_of(vs: Seq<Variable>, first: nat, v: Variable)
    requires
        forall|i: int| 0 <= i < vs.len() ==> (#[trigger] vs[i]).0 == first + i,
    ensures
        slot(vs, v) == (if first <= v.0 < first + vs.len() {
            Some(v.0 - first)
        } else {
            None
        }),
    decreases vs.len(),
{
    if vs.len() > 0 {
        let front = vs.drop_last();
        assert forall|i: int| 0 <= i < front.len() implies (#[trigger] front[i]).0 == first + i by {
            assert(front[i] == vs[i]);
        }
        lemma_slot_of(front, first, v);
        assert(vs[vs.len() - 1].0 == first + vs.len() - 1);
    }
}

proof fn lemma_variable_named(scope: Seq<(Seq<char>, Variable)>, name: Seq<char>) -> (i: int)
    requires
        variable_named(scope, name) is Some,
    ensures
        0 <= i < scope.len(),
        scope[i].1 == variable_named(scope, name)->0,
    decreases scope.len(),
{
    if scope.last().0 == name {
        scope.len() - 1
    } else {
        let i = lemma_variable_named(scope.drop_last(), name);
        assert(scope.drop_last()[i] == scope[i]);
        i
    }
}

/// In the scope of a typed list, objects bound by name and objects that the
/// variables stand for are the same.
proof fn lemma_bound(
    r: Reading,
    env: spec_fn(Seq<char>) -> Object,
    w: World,
    extent: spec_fn(Type) -> Set<Object>,
    cx: LowerScope,
    s: LowerView,
    decls: Seq<AstTyped>,
    vs: Seq<Variable>,
    s1: LowerView,
    s2: LowerView,
    os: Seq<Object>,
)
    requires
        is_ready(s),
        variables_in(s, decls, decls.len()) == Ok::<(Seq<Variable>, LowerView), crate::lower_error::Fault>((vs, s1)),
        grows(s1, s2),
        agree(r, w, extent, cx, s2),
        sees(env, w, s.scope),
    ensures
        r.fits(decls, os) == w.fits(vs, os),
        r.fits(decls, os) ==> sees(binding(env, decls, os), w.with(vs, os), s1.scope),
        agree(r, w.with(vs, os), extent, cx, s2),
{
    let n = decls.len();
    lemma_variables(s, decls, n, vs, s1);
    lemma_agree(r, w, extent, cx, s1, s2);
    if os.len() == n {
        assert forall|i: int| 0 <= i < n implies (#[trigger] (w.ranges)(vs[i]).contains(os[i]) <==> r.is_of(os[i], decls[i].ty)) by {
            let v = s.vars.len() + i;
            assert(vs[i] == Variable(v as u32));
            assert((w.ranges)(Variable(v as u32)) == extent(s1.vars[v]));
            assert(extent(s1.vars[s.vars.len() + i]).contains(os[i]) <==> r.is_of(os[i], decls[i].ty));
        }
        if r.fits(decls, os) {
            assert forall|i: int| 0 <= i < os.len() implies (w.ranges)(vs[i]).contains(#[trigger] os[i]) by {
                assert(r.is_of(os[i], decls[i].ty));
            }
        }
        if w.fits(vs, os) {
            assert forall|i: int| 0 <= i < os.len() implies r.is_of(#[trigger] os[i], decls[i].ty) by {
                assert((w.ranges)(vs[i]).contains(os[i]));
            }
        }
    }
    if r.fits(decls, os) {
        let e2 = binding(env, decls, os);
        let w2 = w.with(vs, os);
        assert forall|name: Seq<char>|
            match #[trigger] variable_named(s1.scope, name) {
                Some(v) => e2(name) == (w2.values)(v, None),
                None => true,
            } by {
            if variable_named(s1.scope, name) is Some {
                let v = variable_named(s1.scope, name)->0;
                lemma_last_named(decls, n, name);
                lemma_slot_of(vs, s.vars.len(), v);
                match last_named(decls, n, name) {
                    Some(i) => {
                        assert(v == vs[i]);
                        assert(slot(vs, v) == Some(i));
                    },
                    None => {
                        assert(variable_named(s.scope, name) == Some(v));
                        let i = lemma_variable_named(s.scope, name);
                        assert(v.0 < s.vars.len());
                    },
                }
            }
        }
    }
}

proof fn lemma_predicate(s: LowerView, name: Seq<char>, p: Predicate, s2: LowerView)
    requires
        with_predicate(s, name) == Ok::<(Predicate, LowerView), crate::lower_error::Fault>((p, s2)),
    ensures
        grows(s, s2),
        s2 == (LowerView { names: s2.names, signatures: s2.signatures, ..s }),
        p.0 < s2.names.len(),
        s2.names[p.0 as int] == name,
{
    lemma_grows_same(s);
    lemma_position(s.names, name);
    if position_of(s.names, name) is None {
        assert(s2.names.take(s.names.len() as int) == s.names);
        assert(s2.types.take(s.types.len() as int) == s.types);
        assert(s2.vars.take(s.vars.len() as int) == s.vars);
    }
}

proof fn lemma_term(r: Reading, env: spec_fn(Seq<char>) -> Object, w: World, extent: spec_fn(Type) -> Set<Object>, cx: LowerScope, s: LowerView, t: AstTerm)
    requires
        agree(r, w, extent, cx, s),
        sees(env, w, s.scope),
        term_in(cx, s, t) is Ok,
    ensures
        w.value(term_in(cx, s, t)->Ok_0, None) == r.value(env, t),
{
}

proof fn lemma_terms(
    r: Reading,
    env: spec_fn(Seq<char>) -> Object,
    w: World,
    extent: spec_fn(Type) -> Set<Object>,
    cx: LowerScope,
    s: LowerView,
    ts: Seq<AstTerm>,
    n: nat,
)
    requires
        agree(r, w, extent, cx, s),
        sees(env, w, s.scope),
        n <= ts.len(),
        terms_in(cx, s, ts, n) is Ok,
    ensures
        terms_in(cx, s, ts, n)->Ok_0.len() == n,
        forall|i: int| 0 <= i < n ==> w.value(#[trigger] terms_in(cx, s, ts, n)->Ok_0[i], None) == r.value(env, ts[i]),
    decreases n,
{
    if n > 0 {
        lemma_terms(r, env, w, extent, cx, s, ts, (n - 1) as nat);
        lemma_term(r, env, w, extent, cx, s, ts[n - 1]);
    }
}

proof fn lemma_atomic_grows(cx: LowerScope, s: LowerView, a: AstAtomic, f: AtomicView, s2: LowerView)
    requires
        atomic_in(cx, s, a) == Ok::<(AtomicView, LowerView), crate::lower_error::Fault>((f, s2)),
        is_ready(s),
    ensures
        grows(s, s2),
        is_ready(s2),
        s2 == (LowerView { names: s2.names, signatures: s2.signatures, ..s }),
{
    lemma_grows_same(s);
    if let AstAtomic::Predicate(name, args) = a {
        let (p, s1) = with_predicate(s, name@)->Ok_0;
        lemma_predicate(s, name@, p, s1);
    }
}

/// What a lowered atom says is what the atom says.
proof fn lemma_fact(
    r: Reading,
    env: spec_fn(Seq<char>) -> Object,
    w: World,
    extent: spec_fn(Type) -> Set<Object>,
    cx: LowerScope,
    s: LowerView,
    name: String,
    args: Vec<AstTerm>,
    f: AtomicView,
    s2: LowerView,
)
    requires
        is_ready(s),
        atomic_in(cx, s, AstAtomic::Predicate(name, args)) == Ok::<(AtomicView, LowerView), crate::lower_error::Fault>((f, s2)),
        agree(r, w, extent, cx, s2),
        sees(env, w, s.scope),
    ensures
        f matches AtomicView::Atom(a) && a.predicate.0 < s2.names.len() && s2.names[a.predicate.0 as int] == name@ && w.fact(a) == (
            a.predicate,
            r.values(env, args@),
        ),
{
    let (p, s1) = with_predicate(s, name@)->Ok_0;
    lemma_predicate(s, name@, p, s1);
    lemma_terms(r, env, w, extent, cx, s1, args@, args@.len());
    let a = f->Atom_0;
    assert(w.fact(a).1 == r.values(env, args@));
}

proof fn lemma_atomic(
    r: Reading,
    env: spec_fn(Seq<char>) -> Object,
    w: World,
    extent: spec_fn(Type) -> Set<Object>,
    cx: LowerScope,
    s: LowerView,
    a: AstAtomic,
    f: AtomicView,
    s2: LowerView,
)
    requires
        is_ready(s),
        atomic_in(cx, s, a) == Ok::<(AtomicView, LowerView), crate::lower_error::Fault>((f, s2)),
        agree(r, w, extent, cx, s2),
        sees(env, w, s.scope),
    ensures
        w.holds(literal_form(f, false)) == r.is_true(env, a),
        w.holds(literal_form(f, true)) == !r.is_true(env, a),
{
    match a {
        AstAtomic::Predicate(name, args) => {
            lemma_fact(r, env, w, extent, cx, s, name, args, f, s2);
            let b = f->Atom_0;
            let i = b.predicate.0 as int;
            assert(b.predicate == Predicate(i as u32));
            let os = r.values(env, args@);
            assert(w.facts.contains((Predicate(i as u32), os)) <==> r.facts.contains((s2.names[i], os)));
        },
        AstAtomic::Equality(x, y) => {
            lemma_term(r, env, w, extent, cx, s, x);
            lemma_term(r, env, w, extent, cx, s, y);
        },
    }
}

/// Whether lowering has only added to the tables of types, predicates and
/// variables.
spec fn only_adds(s: LowerView, s2: LowerView) -> bool {
    &&& grows(s, s2)
    &&& is_ready(s2)
    &&& s2 == (LowerView { types: s2.types, names: s2.names, signatures: s2.signatures, vars: s2.vars, ..s })
}

proof fn lemma_goal_adds(cx: LowerScope, s: LowerView, g: AstGoal, f: FormulaView, s2: LowerView)
    requires
        is_ready(s),
        goal_in(cx, s, g) == Ok::<(FormulaView, LowerView), crate::lower_error::Fault>((f, s2)),
    ensures
        only_adds(s, s2),
    decreases g, 0nat,
{
    lemma_grows_same(s);
    match g {
        AstGoal::Atomic(a) => {
            let (f1, s1) = atomic_in(cx, s, a)->Ok_0;
            lemma_atomic_grows(cx, s, a, f1, s1);
        },
        AstGoal::NotAtomic(a) => {
            let (f1, s1) = atomic_in(cx, s, a)->Ok_0;
            lemma_atomic_grows(cx, s, a, f1, s1);
        },
        AstGoal::And(gs) => {
            lemma_goals_add(cx, s, gs@, true, gs@.len(), f, s2);
        },
        AstGoal::Or(gs) => {
            lemma_goals_add(cx, s, gs@, false, gs@.len(), f, s2);
        },
        AstGoal::Not(h) => {
            let (f1, s1) = goal_in(cx, s, *h)->Ok_0;
            lemma_goal_adds(cx, s, *h, f1, s1);
        },
        AstGoal::Imply(a, b) => {
            let (f1, s1) = goal_in(cx, s, *a)->Ok_0;
            lemma_goal_adds(cx, s, *a, f1, s1);
            let (f2, s3) = goal_in(cx, s1, *b)->Ok_0;
            lemma_goal_adds(cx, s1, *b, f2, s3);
            lemma_grows_on(s, s1, s3);
        },
        AstGoal::Exists(vars, body) => {
            let (vs, s1) = variables_in(s, vars@, vars@.len())->Ok_0;
            lemma_variables(s, vars@, vars@.len(), vs, s1);
            let (f1, s3) = goal_in(cx, s1, *body)->Ok_0;
            lemma_goal_adds(cx, s1, *body, f1, s3);
            lemma_grows_on(s, s1, s3);
            assert(grows(s, s2));
        },
        AstGoal::ForAll(vars, body) => {
            let (vs, s1) = variables_in(s, vars@, vars@.len())->Ok_0;
            lemma_variables(s, vars@, vars@.len(), vs, s1);
            let (f1, s3) = goal_in(cx, s1, *body)->Ok_0;
            lemma_goal_adds(cx, s1, *body, f1, s3);
            lemma_grows_on(s, s1, s3);
            assert(grows(s, s2));
        },
        AstGoal::FluentComparison => {},
    }
}

proof fn lemma_goals_add(cx: LowerScope, s: LowerView, gs: Seq<AstGoal>, conjoined: bool, n: nat, f: FormulaView, s2: LowerView)
    requires
        is_ready(s),
        n <= gs.len(),
        goals_in(cx, s, gs, conjoined, n) == Ok::<(FormulaView, LowerView), crate::lower_error::Fault>((f, s2)),
    ensures
        only_adds(s, s2),
    decreases gs, n,
{
    lemma_grows_same(s);
    if n > 0 {
        let (f1, s1) = goals_in(cx, s, gs, conjoined, (n - 1) as nat)->Ok_0;
        lemma_goals_add(cx, s, gs, conjoined, (n - 1) as nat, f1, s1);
        let (f2, s3) = goal_in(cx, s1, gs[n - 1])->Ok_0;
        lemma_goal_adds(cx, s1, gs[n - 1], f2, s3);
        lemma_grows_on(s, s1, s3);
    }
}

/// A lowered goal description holds in a world exactly where the goal description
/// does, read by the names that stand in it.
pub proof fn goals_keep_their_meaning(
    r: Reading,
    env: spec_fn(Seq<char>) -> Object,
    w: World,
    extent: spec_fn(Type) -> Set<Object>,
    cx: LowerScope,
    s: LowerView,
    g: AstGoal,
    f: FormulaView,
    s2: LowerView,
)
    requires
        is_ready(s),
        goal_in(cx, s, g) == Ok::<(FormulaView, LowerView), crate::lower_error::Fault>((f, s2)),
        agree(r, w, extent, cx, s2),
        sees(env, w, s.scope),
    ensures
        w.holds(f) == r.holds(env, g),
    decreases g, 0nat,
{
    match g {
        AstGoal::Atomic(a) => {
            let (f1, s1) = atomic_in(cx, s, a)->Ok_0;
            lemma_atomic(r, env, w, extent, cx, s, a, f1, s1);
        },
        AstGoal::NotAtomic(a) => {
            let (f1, s1) = atomic_in(cx, s, a)->Ok_0;
            lemma_atomic(r, env, w, extent, cx, s, a, f1, s1);
        },
        AstGoal::And(gs) => {
            lemma_listed(r, env, w, extent, cx, s, gs@, true, gs@.len(), f, s2);
        },
        AstGoal::Or(gs) => {
            lemma_listed(r, env, w, extent, cx, s, gs@, false, gs@.len(), f, s2);
        },
        AstGoal::Not(h) => {
            let (f1, s1) = goal_in(cx, s, *h)->Ok_0;
            goals_keep_their_meaning(r, env, w, extent, cx, s, *h, f1, s1);
            negation_is_exact(w, f1);
        },
        AstGoal::Imply(a, b) => {
            let (f1, s1) = goal_in(cx, s, *a)->Ok_0;
            let (f2, s3) = goal_in(cx, s1, *b)->Ok_0;
            lemma_goal_adds(cx, s, *a, f1, s1);
            lemma_goal_adds(cx, s1, *b, f2, s3);
            lemma_agree(r, w, extent, cx, s1, s3);
            goals_keep_their_meaning(r, env, w, extent, cx, s, *a, f1, s1);
            goals_keep_their_meaning(r, env, w, extent, cx, s1, *b, f2, s3);
            negation_is_exact(w, f1);
            disjunction_is_exact(w, negated(f1), f2);
        },
        AstGoal::Exists(vars, body) => {
            let (vs, s1) = variables_in(s, vars@, vars@.len())->Ok_0;
            let (f1, s3) = goal_in(cx, s1, *body)->Ok_0;
            lemma_quantified(r, env, w, extent, cx, s, vars@, *body, vs, s1, f1, s3);
        },
        AstGoal::ForAll(vars, body) => {
            let (vs, s1) = variables_in(s, vars@, vars@.len())->Ok_0;
            let (f1, s3) = goal_in(cx, s1, *body)->Ok_0;
            lemma_quantified(r, env, w, extent, cx, s, vars@, *body, vs, s1, f1, s3);
        },
        AstGoal::FluentComparison => {},
    }
}

proof fn lemma_quantified(
    r: Reading,
    env: spec_fn(Seq<char>) -> Object,
    w: World,
    extent: spec_fn(Type) -> Set<Object>,
    cx: LowerScope,
    s: LowerView,
    vars: Seq<AstTyped>,
    body: AstGoal,
    vs: Seq<Variable>,
    s1: LowerView,
    f: FormulaView,
    s2: LowerView,
)
    requires
        is_ready(s),
        variables_in(s, vars, vars.len()) == Ok::<(Seq<Variable>, LowerView), crate::lower_error::Fault>((vs, s1)),
        goal_in(cx, s1, body) == Ok::<(FormulaView, LowerView), crate::lower_error::Fault>((f, s2)),
        agree(r, w, extent, cx, s2),
        sees(env, w, s.scope),
    ensures
        w.holds_for_some(vs, f) == r.holds_for_some(env, vars, body),
        w.holds_for_all(vs, f) == r.holds_for_all(env, vars, body),
    decreases body, 1nat,
{
    lemma_variables(s, vars, vars.len(), vs, s1);
    lemma_goal_adds(cx, s1, body, f, s2);
    assert forall|os: Seq<Object>|
        r.fits(vars, os) == w.fits(vs, os) && (r.fits(vars, os) ==> #[trigger] w.with(vs, os).holds(f) == #[trigger] r.holds(
            binding(env, vars, os),
            body,
        )) by {
        lemma_bound(r, env, w, extent, cx, s, vars, vs, s1, s2, os);
        if r.fits(vars, os) {
            goals_keep_their_meaning(r, binding(env, vars, os), w.with(vs, os), extent, cx, s1, body, f, s2);
        }
    }
    if w.holds_for_some(vs, f) {
        let os = choose|os: Seq<Object>| #[trigger] w.fits(vs, os) && w.with(vs, os).holds(f);
        assert(r.holds(binding(env, vars, os), body) == w.with(vs, os).holds(f));
        assert(r.fits(vars, os));
    }
    if r.holds_for_some(env, vars, body) {
        let os = choose|os: Seq<Object>| #[trigger] r.fits(vars, os) && r.holds(binding(env, vars, os), body);
        assert(r.holds(binding(env, vars, os), body) == w.with(vs, os).holds(f));
        assert(w.fits(vs, os));
    }
    if w.holds_for_all(vs, f) {
        assert forall|os: Seq<Object>| #[trigger] r.fits(vars, os) implies r.holds(binding(env, vars, os), body) by {
            assert(r.holds(binding(env, vars, os), body) == w.with(vs, os).holds(f));
            assert(w.fits(vs, os));
        }
    }
    if r.holds_for_all(env, vars, body) {
        assert forall|os: Seq<Object>| #[trigger] w.fits(vs, os) implies w.with(vs, os).holds(f) by {
            lemma_bound(r, env, w, extent, cx, s, vars, vs, s1, s2, os);
            assert(r.holds(binding(env, vars, os), body) == w.with(vs, os).holds(f));
        }
    }
}

proof fn lemma_listed(
    r: Reading,
    env: spec_fn(Seq<char>) -> Object,
    w: World,
    extent: spec_fn(Type) -> Set<Object>,
    cx: LowerScope,
    s: LowerView,
    gs: Seq<AstGoal>,
    conjoined: bool,
    n: nat,
    f: FormulaView,
    s2: LowerView,
)
    requires
        is_ready(s),
        n <= gs.len(),
        goals_in(cx, s, gs, conjoined, n) == Ok::<(FormulaView, LowerView), crate::lower_error::Fault>((f, s2)),
        agree(r, w, extent, cx, s2),
        sees(env, w, s.scope),
    ensures
        conjoined ==> w.holds(f) == (forall|i: int| 0 <= i < n ==> r.holds(env, #[trigger] gs[i])),
        !conjoined ==> w.holds(f) == (exists|i: int| 0 <= i < n && r.holds(env, #[trigger] gs[i])),
    decreases gs, n,
{
    if n > 0 {
        let (f1, s1) = goals_in(cx, s, gs, conjoined, (n - 1) as nat)->Ok_0;
        let (f2, s3) = goal_in(cx, s1, gs[n - 1])->Ok_0;
        lemma_goals_add(cx, s, gs, conjoined, (n - 1) as nat, f1, s1);
        lemma_goal_adds(cx, s1, gs[n - 1], f2, s3);
        lemma_agree(r, w, extent, cx, s1, s3);
        lemma_listed(r, env, w, extent, cx, s, gs, conjoined, (n - 1) as nat, f1, s1);
        goals_keep_their_meaning(r, env, w, extent, cx, s1, gs[n - 1], f2, s3);
        conjunction_is_exact(w, f1, f2);
        disjunction_is_exact(w, f1, f2);
        if conjoined {
            if w.holds(f) {
                assert forall|i: int| 0 <= i < n implies r.holds(env, #[trigger] gs[i]) by {
                    if i == n - 1 {
                        assert(gs[i] == gs[n - 1]);
                    }
                }
            }
            if forall|i: int| 0 <= i < n ==> r.holds(env, #[trigger] gs[i]) {
                assert(r.holds(env, gs[n - 1]));
            }
        } else {
            if w.holds(f2) {
                assert(r.holds(env, gs[n - 1]));
            }
        }
    }
}

proof fn lemma_precondition_adds(cx: LowerScope, s: LowerView, p: AstPrecondition, f: FormulaView, s2: LowerView)
    requires
        is_ready(s),
        precondition_in(cx, s, p) == Ok::<(FormulaView, LowerView), crate::lower_error::Fault>((f, s2)),
    ensures
        only_adds(s, s2),
    decreases p, 0nat,
{
    match p {
        AstPrecondition::Goal(g) => {
            lemma_goal_adds(cx, s, g, f, s2);
        },
        AstPrecondition::Preference => {},
        AstPrecondition::ForAll(vars, body) => {
            let (vs, s1) = variables_in(s, vars@, vars@.len())->Ok_0;
            lemma_variables(s, vars@, vars@.len(), vs, s1);
            let (f1, s3) = preconditions_in(cx, s1, body@, body@.len())->Ok_0;
            lemma_preconditions_add(cx, s1, body@, body@.len(), f1, s3);
            lemma_grows_on(s, s1, s3);
            assert(grows(s, s2));
        },
    }
}

proof fn lemma_preconditions_add(cx: LowerScope, s: LowerView, ps: Seq<AstPrecondition>, n: nat, f: FormulaView, s2: LowerView)
    requires
        is_ready(s),
        n <= ps.len(),
        preconditions_in(cx, s, ps, n) == Ok::<(FormulaView, LowerView), crate::lower_error::Fault>((f, s2)),
    ensures
        only_adds(s, s2),
    decreases ps, n,
{
    lemma_grows_same(s);
    if n > 0 {
        let (f1, s1) = preconditions_in(cx, s, ps, (n - 1) as nat)->Ok_0;
        lemma_preconditions_add(cx, s, ps, (n - 1) as nat, f1, s1);
        let (f2, s3) = precondition_in(cx, s1, ps[n - 1])->Ok_0;
        lemma_precondition_adds(cx, s1, ps[n - 1], f2, s3);
        lemma_grows_on(s, s1, s3);
    }
}

proof fn lemma_precondition(
    r: Reading,
    env: spec_fn(Seq<char>) -> Object,
    w: World,
    extent: spec_fn(Type) -> Set<Object>,
    cx: LowerScope,
    s: LowerView,
    p: AstPrecondition,
    f: FormulaView,
    s2: LowerView,
)
    requires
        is_ready(s),
        precondition_in(cx, s, p) == Ok::<(FormulaView, LowerView), crate::lower_error::Fault>((f, s2)),
        agree(r, w, extent, cx, s2),
        sees(env, w, s.scope),
    ensures
        w.holds(f) == r.is_met(env, p),
    decreases p, 0nat,
{
    match p {
        AstPrecondition::Goal(g) => {
            goals_keep_their_meaning(r, env, w, extent, cx, s, g, f, s2);
        },
        AstPrecondition::Preference => {},
        AstPrecondition::ForAll(vars, body) => {
            let (vs, s1) = variables_in(s, vars@, vars@.len())->Ok_0;
            let (f1, s3) = preconditions_in(cx, s1, body@, body@.len())->Ok_0;
            lemma_variables(s, vars@, vars@.len(), vs, s1);
            lemma_preconditions_add(cx, s1, body@, body@.len(), f1, s3);
            assert(agree(r, w, extent, cx, s3));
            assert forall|os: Seq<Object>|
                r.fits(vars@, os) == w.fits(vs, os) && (r.fits(vars@, os) ==> #[trigger] w.with(vs, os).holds(f1) == #[trigger] r.are_met(
                    binding(env, vars@, os),
                    body@,
                )) by {
                lemma_bound(r, env, w, extent, cx, s, vars@, vs, s1, s3, os);
                if r.fits(vars@, os) {
                    preconditions_keep_their_meaning(r, binding(env, vars@, os), w.with(vs, os), extent, cx, s1, body@, body@.len(), f1, s3);
                }
            }
            if w.holds_for_all(vs, f1) {
                assert forall|os: Seq<Object>| #[trigger] r.fits(vars@, os) implies r.are_met(binding(env, vars@, os), body@) by {
                    assert(r.are_met(binding(env, vars@, os), body@) == w.with(vs, os).holds(f1));
                    assert(w.fits(vs, os));
                }
                assert(r.is_met_for_all(env, vars@, body@));
            }
            if r.is_met_for_all(env, vars@, body@) {
                assert forall|os: Seq<Object>| #[trigger] w.fits(vs, os) implies w.with(vs, os).holds(f1) by {
                    lemma_bound(r, env, w, extent, cx, s, vars@, vs, s1, s3, os);
                    assert(r.are_met(binding(env, vars@, os), body@) == w.with(vs, os).holds(f1));
                }
            }
            assert(w.holds(f) == w.holds_for_all(vs, f1));
        },
    }
}

/// A lowered precondition or problem goal holds in a world exactly where every
/// part of it does, read by the names that stand in it.
pub proof fn preconditions_keep_their_meaning(
    r: Reading,
    env: spec_fn(Seq<char>) -> Object,
    w: World,
    extent: spec_fn(Type) -> Set<Object>,
    cx: LowerScope,
    s: LowerView,
    ps: Seq<AstPrecondition>,
    n: nat,
    f: FormulaView,
    s2: LowerView,
)
    requires
        is_ready(s),
        n <= ps.len(),
        preconditions_in(cx, s, ps, n) == Ok::<(FormulaView, LowerView), crate::lower_error::Fault>((f, s2)),
        agree(r, w, extent, cx, s2),
        sees(env, w, s.scope),
    ensures
        w.holds(f) == (forall|i: int| 0 <= i < n ==> r.is_met(env, #[trigger] ps[i])),
        n == ps.len() ==> w.holds(f) == r.are_met(env, ps),
    decreases ps, n,
{
    if n > 0 {
        let (f1, s1) = preconditions_in(cx, s, ps, (n - 1) as nat)->Ok_0;
        let (f2, s3) = precondition_in(cx, s1, ps[n - 1])->Ok_0;
        lemma_preconditions_add(cx, s, ps, (n - 1) as nat, f1, s1);
        lemma_precondition_adds(cx, s1, ps[n - 1], f2, s3);
        lemma_agree(r, w, extent, cx, s1, s3);
        preconditions_keep_their_meaning(r, env, w, extent, cx, s, ps, (n - 1) as nat, f1, s1);
        lemma_precondition(r, env, w, extent, cx, s1, ps[n - 1], f2, s3);
        conjunction_is_exact(w, f1, f2);
        if w.holds(f) {
            assert forall|i: int| 0 <= i < n implies r.is_met(env, #[trigger] ps[i]) by {
                if i == n - 1 {
                    assert(ps[i] == ps[n - 1]);
                }
            }
        }
        if forall|i: int| 0 <= i < n ==> r.is_met(env, #[trigger] ps[i]) {
            assert(r.is_met(env, ps[n - 1]));
        }
    }
}

/// A literal: whether it is negated, the name of its predicate and its objects.
pub struct Outcome {
    pub negative: bool,
    pub name: Seq<char>,
    pub objects: Seq<Object>,
}

impl Reading {
    /// Whether a primitive effect makes a literal true.
    pub open spec fn makes(self, env: spec_fn(Seq<char>) -> Object, p: AstPrimitive, l: Outcome) -> bool {
        match p {
            AstPrimitive::Add(AstAtomic::Predicate(name, args)) => !l.negative && l.name == name@ && l.objects == self.values(env, args@),
            AstPrimitive::Delete(AstAtomic::Predicate(name, args)) => l.negative && l.name == name@ && l.objects == self.values(env, args@),
            _ => false,
        }
    }

    /// Whether an effect makes a literal true: under a guard only where the guard
    /// holds, under a quantifier for each choice of objects.
    pub open spec fn causes(self, env: spec_fn(Seq<char>) -> Object, e: AstEffect, l: Outcome) -> bool
        decreases e, 0nat,
    {
        match e {
            AstEffect::Primitive(p) => self.makes(env, p, l),
            AstEffect::ForAll(vars, es) => self.causes_for_some(env, vars@, es@, l),
            AstEffect::When(g, ps) => self.holds(env, g) && exists|i: int| 0 <= i < ps@.len() && self.makes(env, #[trigger] ps@[i], l),
        }
    }

    /// Whether some effect of a list makes a literal true.
    pub open spec fn some_cause(self, env: spec_fn(Seq<char>) -> Object, es: Seq<AstEffect>, l: Outcome) -> bool
        decreases es, 0nat,
    {
        exists|i: int| 0 <= i < es.len() && self.causes(env, #[trigger] es[i], l)
    }

    /// Whether effects make a literal true for some objects of the types of a typed
    /// list.
    pub open spec fn causes_for_some(self, env: spec_fn(Seq<char>) -> Object, vars: Seq<AstTyped>, es: Seq<AstEffect>, l: Outcome) -> bool
        decreases es, 1nat,
    {
        exists|os: Seq<Object>| #[trigger] self.fits(vars, os) && self.some_cause(binding(env, vars, os), es, l)
    }
}

/// Whether a lowered effect makes a literal true in a world where its first `k`
/// parameters stand for what they do: for some objects of the others its condition
/// holds and its literal says so.
pub open spec fn yields(w: World, names: Seq<Seq<char>>, e: EffectView, k: nat, l: Outcome) -> bool {
    exists|os: Seq<Object>| #[trigger] yields_for(w, names, e, k, os, l)
}

/// Whether a lowered effect makes a literal true where its parameters behind the
/// first `k` stand for `os`.
pub open spec fn yields_for(w: World, names: Seq<Seq<char>>, e: EffectView, k: nat, os: Seq<Object>, l: Outcome) -> bool {
    let rest = e.parameters.skip(k as int);
    let w2 = w.with(rest, os);
    &&& w.fits(rest, os)
    &&& w2.holds(e.condition)
    &&& e.literal.negative == l.negative
    &&& e.literal.atom.predicate.0 < names.len()
    &&& names[e.literal.atom.predicate.0 as int] == l.name
    &&& w2.fact(e.literal.atom).1 == l.objects
}

/// Whether some effect of a list from position `from` on makes a literal true.
pub open spec fn some_yields(w: World, names: Seq<Seq<char>>, es: Seq<EffectView>, from: nat, k: nat, l: Outcome) -> bool {
    exists|j: int| from <= j < es.len() && yields(w, names, #[trigger] es[j], k, l)
}

/// Whether lowering effects has kept those there were, and each new one has the
/// given parameters first.
spec fn adds_effects(s: LowerView, s2: LowerView, params: Seq<Variable>) -> bool {
    &&& grows(s, s2)
    &&& is_ready(s2)
    &&& s2.scope == s.scope
    &&& s.effects.len() <= s2.effects.len()
    &&& forall|j: int| 0 <= j < s.effects.len() ==> #[trigger] s2.effects[j] == s.effects[j]
    &&& forall|j: int|
        s.effects.len() <= j < s2.effects.len() ==> (#[trigger] s2.effects[j]).parameters.len() >= params.len() && s2.effects[j].parameters.take(
            params.len() as int,
        ) == params && s2.effects[j].literal.atom.predicate.0 < s2.names.len()
}

proof fn lemma_adds_on(a: LowerView, b: LowerView, c: LowerView, params: Seq<Variable>)
    requires
        adds_effects(a, b, params),
        adds_effects(b, c, params),
    ensures
        adds_effects(a, c, params),
{
    lemma_grows_on(a, b, c);
    assert forall|j: int| a.effects.len() <= j < c.effects.len() implies (#[trigger] c.effects[j]).parameters.len() >= params.len()
        && c.effects[j].parameters.take(params.len() as int) == params && c.effects[j].literal.atom.predicate.0 < c.names.len() by {
        if j < b.effects.len() {
            assert(c.effects[j] == b.effects[j]);
        }
    }
    assert forall|j: int| 0 <= j < a.effects.len() implies #[trigger] c.effects[j] == a.effects[j] by {
        assert(b.effects[j] == a.effects[j]);
    }
}

proof fn lemma_with_none(w: World, os: Seq<Object>)
    ensures
        w.with(seq![], os) == w,
{
    assert(w.with(seq![], os).values =~= w.values);
}

proof fn lemma_slot_append(a: Seq<Variable>, b: Seq<Variable>, v: Variable)
    ensures
        slot(a + b, v) == (match slot(b, v) {
            Some(i) => Some(a.len() + i),
            None => slot(a, v),
        }),
        match slot(b, v) {
            Some(i) => 0 <= i < b.len(),
            None => true,
        },
    decreases b.len(),
{
    if b.len() > 0 {
        assert((a + b).drop_last() == a + b.drop_last());
        assert((a + b).last() == b.last());
        lemma_slot_append(a, b.drop_last(), v);
    } else {
        assert(a + b == a);
    }
}

proof fn lemma_slot_in(a: Seq<Variable>, v: Variable)
    ensures
        match slot(a, v) {
            Some(i) => 0 <= i < a.len(),
            None => true,
        },
    decreases a.len(),
{
    if a.len() > 0 {
        lemma_slot_in(a.drop_last(), v);
    }
}

proof fn lemma_with_append(w: World, a: Seq<Variable>, b: Seq<Variable>, x: Seq<Object>, y: Seq<Object>)
    requires
        x.len() == a.len(),
        y.len() == b.len(),
    ensures
        w.with(a + b, x + y) == w.with(a, x).with(b, y),
        w.fits(a + b, x + y) == (w.fits(a, x) && w.fits(b, y)),
{
    let u = w.with(a + b, x + y);
    let t = w.with(a, x).with(b, y);
    assert forall|v: Variable, id: Option<usize>| #[trigger] (u.values)(v, id) == (t.values)(v, id) by {
        lemma_slot_append(a, b, v);
        lemma_slot_in(a, v);
    }
    assert(u.values =~= t.values);
    if w.fits(a + b, x + y) {
        assert forall|i: int| 0 <= i < x.len() implies (w.ranges)(a[i]).contains(#[trigger] x[i]) by {
            assert((w.ranges)((a + b)[i]).contains((x + y)[i]));
        }
        assert forall|i: int| 0 <= i < y.len() implies (w.ranges)(b[i]).contains(#[trigger] y[i]) by {
            assert((w.ranges)((a + b)[a.len() + i]).contains((x + y)[x.len() + i]));
        }
    }
}

/// An effect takes place for some objects of the parameters behind the first `k`
/// exactly where it does for some of the next ones and some of the rest.
proof fn lemma_yields_bound(w: World, names: Seq<Seq<char>>, e: EffectView, k: nat, vs: Seq<Variable>, l: Outcome)
    requires
        k + vs.len() <= e.parameters.len(),
        e.parameters.skip(k as int).take(vs.len() as int) == vs,
    ensures
        yields(w, names, e, k, l) <==> exists|os: Seq<Object>| #[trigger] w.fits(vs, os) && yields(w.with(vs, os), names, e, k + vs.len(), l),
{
    let all = e.parameters.skip(k as int);
    let m = vs.len() as int;
    let rest = e.parameters.skip(k + m);
    assert(all == vs + rest);
    if yields(w, names, e, k, l) {
        let os = choose|os: Seq<Object>| #[trigger] yields_for(w, names, e, k, os, l);
        assert(os == os.take(m) + os.skip(m));
        lemma_with_append(w, vs, rest, os.take(m), os.skip(m));
        assert(yields_for(w.with(vs, os.take(m)), names, e, k + vs.len(), os.skip(m), l));
        assert(w.fits(vs, os.take(m)));
    }
    if exists|os: Seq<Object>| #[trigger] w.fits(vs, os) && yields(w.with(vs, os), names, e, k + vs.len(), l) {
        let os = choose|os: Seq<Object>| #[trigger] w.fits(vs, os) && yields(w.with(vs, os), names, e, k + vs.len(), l);
        let rs = choose|rs: Seq<Object>| #[trigger] yields_for(w.with(vs, os), names, e, k + vs.len(), rs, l);
        lemma_with_append(w, vs, rest, os, rs);
        assert(yields_for(w, names, e, k, os + rs, l));
    }
}

proof fn lemma_split(w: World, names: Seq<Seq<char>>, s: LowerView, s1: LowerView, s2: LowerView, params: Seq<Variable>, l: Outcome)
    requires
        adds_effects(s, s1, params),
        adds_effects(s1, s2, params),
    ensures
        some_yields(w, names, s2.effects, s.effects.len(), params.len(), l) == (some_yields(w, names, s1.effects, s.effects.len(), params.len(), l)
            || some_yields(w, names, s2.effects, s1.effects.len(), params.len(), l)),
{
    let k = params.len();
    if some_yields(w, names, s2.effects, s.effects.len(), k, l) {
        let j = choose|j: int| s.effects.len() <= j < s2.effects.len() && yields(w, names, #[trigger] s2.effects[j], k, l);
        if j < s1.effects.len() {
            assert(s1.effects[j] == s2.effects[j]);
        }
    }
    if some_yields(w, names, s1.effects, s.effects.len(), k, l) {
        let j = choose|j: int| s.effects.len() <= j < s1.effects.len() && yields(w, names, #[trigger] s1.effects[j], k, l);
        assert(s1.effects[j] == s2.effects[j]);
    }
}

proof fn lemma_adds_none(s: LowerView, s2: LowerView, params: Seq<Variable>)
    requires
        is_ready(s),
        s2.types == s.types,
        s2.names == s.names,
        s2.vars == s.vars,
        s2.scope == s.scope,
        s2.effects == s.effects,
    ensures
        adds_effects(s, s2, params),
{
    lemma_grows_same(s);
}

/// A world with its reading, and the tables by which they are compared.
pub struct Setting {
    pub reading: Reading,
    pub env: spec_fn(Seq<char>) -> Object,
    pub world: World,
    pub extent: spec_fn(Type) -> Set<Object>,
    pub cx: LowerScope,
    /// What lowering leaves in the end.
    pub tables: LowerView,
}

impl Setting {
    /// Whether the reading is one of the world, as seen from a scope.
    pub open spec fn is_seen(self, s: LowerView) -> bool {
        &&& is_ready(s)
        &&& agree(self.reading, self.world, self.extent, self.cx, self.tables)
        &&& sees(self.env, self.world, s.scope)
    }
}

proof fn lemma_primitive_adds(cx: LowerScope, s: LowerView, p: AstPrimitive, params: Seq<Variable>, cond: FormulaView, s2: LowerView)
    requires
        is_ready(s),
        primitive_in(cx, s, p, params, cond) == Ok::<LowerView, crate::lower_error::Fault>(s2),
    ensures
        adds_effects(s, s2, params),
{
    match p {
        AstPrimitive::Add(a) => {
            lemma_literal_adds(cx, s, a, false, params, cond, s2);
        },
        AstPrimitive::Delete(a) => {
            lemma_literal_adds(cx, s, a, true, params, cond, s2);
        },
        _ => {
            lemma_adds_none(s, s2, params);
        },
    }
}

proof fn lemma_literal_adds(cx: LowerScope, s: LowerView, a: AstAtomic, negative: bool, params: Seq<Variable>, cond: FormulaView, s2: LowerView)
    requires
        is_ready(s),
        literal_effect(cx, s, a, negative, params, cond) == Ok::<LowerView, crate::lower_error::Fault>(s2),
    ensures
        adds_effects(s, s2, params),
{
    let (f, s1) = atomic_in(cx, s, a)->Ok_0;
    lemma_atomic_grows(cx, s, a, f, s1);
    let (p, s0) = with_predicate(s, a->Predicate_0@)->Ok_0;
    lemma_predicate(s, a->Predicate_0@, p, s0);
    assert(params.take(params.len() as int) == params);
    assert(grows(s, s2));
}

proof fn lemma_literal(
    c: Setting,
    s: LowerView,
    a: AstAtomic,
    negative: bool,
    params: Seq<Variable>,
    cond: FormulaView,
    s2: LowerView,
    l: Outcome,
)
    requires
        c.is_seen(s),
        literal_effect(c.cx, s, a, negative, params, cond) == Ok::<LowerView, crate::lower_error::Fault>(s2),
        grows(s2, c.tables),
    ensures
        some_yields(c.world, c.tables.names, s2.effects, s.effects.len(), params.len(), l) == (c.world.holds(cond) && a is Predicate && l.negative
            == negative && l.name == a->Predicate_0@ && l.objects == c.reading.values(c.env, a->Predicate_1@)),
{
    let w = c.world;
    let names = c.tables.names;
    let (f, s1) = atomic_in(c.cx, s, a)->Ok_0;
    lemma_agree(c.reading, w, c.extent, c.cx, s2, c.tables);
    assert(agree(c.reading, w, c.extent, c.cx, s1)) by {
        lemma_grows_same(s1);
        assert(grows(s1, s2));
        lemma_agree(c.reading, w, c.extent, c.cx, s1, s2);
    }
    lemma_fact(c.reading, c.env, w, c.extent, c.cx, s, a->Predicate_0, a->Predicate_1, f, s1);
    lemma_atomic_grows(c.cx, s, a, f, s1);
    let n = s.effects.len() as int;
    let e = s2.effects[n];
    let k = params.len();
    let rest = e.parameters.skip(k as int);
    assert(rest == Seq::<Variable>::empty());
    assert(names[e.literal.atom.predicate.0 as int] == s2.names[e.literal.atom.predicate.0 as int]);
    assert forall|os: Seq<Object>| w.with(rest, os) == w && (#[trigger] w.fits(rest, os) == (os.len() == 0)) by {
        lemma_with_none(w, os);
    }
    if some_yields(w, names, s2.effects, s.effects.len(), k, l) {
        let j = choose|j: int| n <= j < s2.effects.len() && yields(w, names, #[trigger] s2.effects[j], k, l);
        assert(j == n);
        let os = choose|os: Seq<Object>| #[trigger] yields_for(w, names, e, k, os, l);
        assert(w.fits(rest, os));
    }
    if w.holds(cond) && l.negative == negative && l.name == a->Predicate_0@ && l.objects == c.reading.values(c.env, a->Predicate_1@) {
        let os = Seq::<Object>::empty();
        assert(w.fits(rest, os));
        assert(yields_for(w, names, e, k, os, l));
        assert(yields(w, names, s2.effects[n], k, l));
    }
}

proof fn lemma_primitive(c: Setting, s: LowerView, p: AstPrimitive, params: Seq<Variable>, cond: FormulaView, s2: LowerView, l: Outcome)
    requires
        c.is_seen(s),
        primitive_in(c.cx, s, p, params, cond) == Ok::<LowerView, crate::lower_error::Fault>(s2),
        grows(s2, c.tables),
    ensures
        some_yields(c.world, c.tables.names, s2.effects, s.effects.len(), params.len(), l) == (c.world.holds(cond) && c.reading.makes(c.env, p, l)),
{
    match p {
        AstPrimitive::Add(a) => {
            lemma_literal(c, s, a, false, params, cond, s2, l);
        },
        AstPrimitive::Delete(a) => {
            lemma_literal(c, s, a, true, params, cond, s2, l);
        },
        _ => {},
    }
}

proof fn lemma_primitives(c: Setting, s: LowerView, ps: Seq<AstPrimitive>, n: nat, params: Seq<Variable>, cond: FormulaView, s2: LowerView)
    requires
        is_ready(s),
        n <= ps.len(),
        primitives_in(c.cx, s, ps, n, params, cond) == Ok::<LowerView, crate::lower_error::Fault>(s2),
    ensures
        adds_effects(s, s2, params),
        forall|l: Outcome|
            c.is_seen(s) && grows(s2, c.tables) ==> #[trigger] some_yields(
                c.world,
                c.tables.names,
                s2.effects,
                s.effects.len(),
                params.len(),
                l,
            ) == (c.world.holds(cond) && exists|i: int| 0 <= i < n && c.reading.makes(c.env, #[trigger] ps[i], l)),
    decreases n,
{
    if n == 0 {
        lemma_adds_none(s, s, params);
    } else {
        let s1 = primitives_in(c.cx, s, ps, (n - 1) as nat, params, cond)->Ok_0;
        lemma_primitives(c, s, ps, (n - 1) as nat, params, cond, s1);
        lemma_primitive_adds(c.cx, s1, ps[n - 1], params, cond, s2);
        lemma_adds_on(s, s1, s2, params);
        assert forall|l: Outcome| c.is_seen(s) && grows(s2, c.tables) implies #[trigger] some_yields(
            c.world,
            c.tables.names,
            s2.effects,
            s.effects.len(),
            params.len(),
            l,
        ) == (c.world.holds(cond) && exists|i: int| 0 <= i < n && c.reading.makes(c.env, #[trigger] ps[i], l)) by {
            lemma_grows_on(s1, s2, c.tables);
            lemma_primitive(c, s1, ps[n - 1], params, cond, s2, l);
            lemma_split(c.world, c.tables.names, s, s1, s2, params, l);
            if c.reading.makes(c.env, ps[n - 1], l) {
                assert(0 <= n - 1 < n);
            }
            assert((exists|i: int| 0 <= i < n && c.reading.makes(c.env, #[trigger] ps[i], l)) == ((exists|i: int|
                0 <= i < n - 1 && c.reading.makes(c.env, #[trigger] ps[i], l)) || c.reading.makes(c.env, ps[n - 1], l)));
            assert(some_yields(c.world, c.tables.names, s1.effects, s.effects.len(), params.len(), l) == (c.world.holds(cond) && exists|i: int|
                0 <= i < n - 1 && c.reading.makes(c.env, #[trigger] ps[i], l)));
        }
    }
}

proof fn lemma_effect_adds(cx: LowerScope, s: LowerView, e: AstEffect, params: Seq<Variable>, s2: LowerView)
    requires
        is_ready(s),
        effect_in(cx, s, e, params, FormulaView::True) == Ok::<LowerView, crate::lower_error::Fault>(s2),
    ensures
        adds_effects(s, s2, params),
    decreases e, 0nat,
{
    match e {
        AstEffect::Primitive(p) => {
            lemma_primitive_adds(cx, s, p, params, FormulaView::True, s2);
        },
        AstEffect::ForAll(vars, inner) => {
            let (vs, s1) = variables_in(s, vars@, vars@.len())->Ok_0;
            let s3 = effects_in(cx, s1, inner@, inner@.len(), params + vs, FormulaView::True)->Ok_0;
            lemma_variables(s, vars@, vars@.len(), vs, s1);
            lemma_effects_add(cx, s1, inner@, inner@.len(), params + vs, s3);
            lemma_grows_on(s, s1, s3);
            assert(grows(s, s2));
            assert forall|j: int| s.effects.len() <= j < s2.effects.len() implies (#[trigger] s2.effects[j]).parameters.len() >= params.len()
                && s2.effects[j].parameters.take(params.len() as int) == params && s2.effects[j].literal.atom.predicate.0 < s2.names.len() by {
                assert(s3.effects[j].parameters.take((params + vs).len() as int).take(params.len() as int) == s3.effects[j].parameters.take(
                    params.len() as int,
                ));
                assert((params + vs).take(params.len() as int) == params);
            }
        },
        AstEffect::When(g, ps) => {
            let (f, s1) = goal_in(cx, s, g)->Ok_0;
            lemma_goal_adds(cx, s, g, f, s1);
            let cond = both(FormulaView::True, f);
            let c = Setting { reading: arbitrary(), env: arbitrary(), world: arbitrary(), extent: arbitrary(), cx, tables: s2 };
            lemma_primitives(c, s1, ps@, ps@.len(), params, cond, s2);
            lemma_grows_on(s, s1, s2);
        },
    }
}

proof fn lemma_effects_add(cx: LowerScope, s: LowerView, es: Seq<AstEffect>, n: nat, params: Seq<Variable>, s2: LowerView)
    requires
        is_ready(s),
        n <= es.len(),
        effects_in(cx, s, es, n, params, FormulaView::True) == Ok::<LowerView, crate::lower_error::Fault>(s2),
    ensures
        adds_effects(s, s2, params),
    decreases es, n,
{
    if n == 0 {
        lemma_adds_none(s, s, params);
    } else {
        let s1 = effects_in(cx, s, es, (n - 1) as nat, params, FormulaView::True)->Ok_0;
        lemma_effects_add(cx, s, es, (n - 1) as nat, params, s1);
        lemma_effect_adds(cx, s1, es[n - 1], params, s2);
        lemma_adds_on(s, s1, s2, params);
    }
}

proof fn lemma_effect(c: Setting, s: LowerView, e: AstEffect, params: Seq<Variable>, s2: LowerView, l: Outcome)
    requires
        c.is_seen(s),
        effect_in(c.cx, s, e, params, FormulaView::True) == Ok::<LowerView, crate::lower_error::Fault>(s2),
        grows(s2, c.tables),
    ensures
        some_yields(c.world, c.tables.names, s2.effects, s.effects.len(), params.len(), l) == c.reading.causes(c.env, e, l),
    decreases e, 0nat,
{
    match e {
        AstEffect::Primitive(p) => {
            lemma_primitive(c, s, p, params, FormulaView::True, s2, l);
        },
        AstEffect::ForAll(vars, inner) => {
            let (vs, s1) = variables_in(s, vars@, vars@.len())->Ok_0;
            let s3 = effects_in(c.cx, s1, inner@, inner@.len(), params + vs, FormulaView::True)->Ok_0;
            lemma_variables(s, vars@, vars@.len(), vs, s1);
            lemma_effects_add(c.cx, s1, inner@, inner@.len(), params + vs, s3);
            assert(grows(s3, c.tables));
            lemma_grows_on(s1, s3, c.tables);
            let names = c.tables.names;
            let w = c.world;
            let k = params.len();
            let k2 = (params + vs).len();
            assert forall|os: Seq<Object>|
                c.reading.fits(vars@, os) == w.fits(vs, os) && (w.fits(vs, os) ==> #[trigger] some_yields(
                    w.with(vs, os),
                    names,
                    s3.effects,
                    s1.effects.len(),
                    k2,
                    l,
                ) == #[trigger] c.reading.some_cause(binding(c.env, vars@, os), inner@, l)) by {
                lemma_bound(c.reading, c.env, w, c.extent, c.cx, s, vars@, vs, s1, c.tables, os);
                if w.fits(vs, os) {
                    let c2 = Setting { env: binding(c.env, vars@, os), world: w.with(vs, os), ..c };
                    lemma_effects(c2, s1, inner@, inner@.len(), params + vs, s3, l);
                }
            }
            assert forall|j: int| s.effects.len() <= j < s2.effects.len() implies (yields(w, names, #[trigger] s2.effects[j], k, l) <==> exists|
                os: Seq<Object>,
            | #[trigger] w.fits(vs, os) && yields(w.with(vs, os), names, s2.effects[j], k2, l)) by {
                let e1 = s3.effects[j];
                assert(e1.parameters.skip(k as int).take(vs.len() as int) == e1.parameters.take(k2 as int).skip(k as int));
                assert((params + vs).skip(k as int) == vs);
                lemma_yields_bound(w, names, e1, k, vs, l);
            }
            if some_yields(w, names, s2.effects, s.effects.len(), k, l) {
                let j = choose|j: int| s.effects.len() <= j < s2.effects.len() && yields(w, names, #[trigger] s2.effects[j], k, l);
                let os = choose|os: Seq<Object>| #[trigger] w.fits(vs, os) && yields(w.with(vs, os), names, s2.effects[j], k2, l);
                assert(yields(w.with(vs, os), names, s3.effects[j], k2, l));
                assert(some_yields(w.with(vs, os), names, s3.effects, s1.effects.len(), k2, l));
                assert(c.reading.some_cause(binding(c.env, vars@, os), inner@, l));
                assert(c.reading.fits(vars@, os));
            }
            if c.reading.causes(c.env, e, l) {
                let os = choose|os: Seq<Object>| #[trigger] c.reading.fits(vars@, os) && c.reading.some_cause(binding(c.env, vars@, os), inner@, l);
                lemma_bound(c.reading, c.env, w, c.extent, c.cx, s, vars@, vs, s1, c.tables, os);
                assert(some_yields(w.with(vs, os), names, s3.effects, s1.effects.len(), k2, l));
                let j = choose|j: int| s1.effects.len() <= j < s3.effects.len() && yields(w.with(vs, os), names, #[trigger] s3.effects[j], k2, l);
                assert(w.fits(vs, os));
                assert(yields(w, names, s2.effects[j], k, l));
            }
        },
        AstEffect::When(g, ps) => {
            let (f, s1) = goal_in(c.cx, s, g)->Ok_0;
            lemma_goal_adds(c.cx, s, g, f, s1);
            let cond = both(FormulaView::True, f);
            lemma_primitives(c, s1, ps@, ps@.len(), params, cond, s2);
            lemma_grows_on(s1, s2, c.tables);
            lemma_agree(c.reading, c.world, c.extent, c.cx, s1, c.tables);
            goals_keep_their_meaning(c.reading, c.env, c.world, c.extent, c.cx, s, g, f, s1);
            conjunction_is_exact(c.world, FormulaView::True, f);
            assert(c.is_seen(s1));
            assert(some_yields(c.world, c.tables.names, s2.effects, s1.effects.len(), params.len(), l) == (c.world.holds(cond) && exists|i: int|
                0 <= i < ps@.len() && c.reading.makes(c.env, #[trigger] ps@[i], l)));
        },
    }
}

proof fn lemma_effects(c: Setting, s: LowerView, es: Seq<AstEffect>, n: nat, params: Seq<Variable>, s2: LowerView, l: Outcome)
    requires
        c.is_seen(s),
        n <= es.len(),
        effects_in(c.cx, s, es, n, params, FormulaView::True) == Ok::<LowerView, crate::lower_error::Fault>(s2),
        grows(s2, c.tables),
    ensures
        some_yields(c.world, c.tables.names, s2.effects, s.effects.len(), params.len(), l) == (exists|i: int|
            0 <= i < n && c.reading.causes(c.env, #[trigger] es[i], l)),
        n == es.len() ==> some_yields(c.world, c.tables.names, s2.effects, s.effects.len(), params.len(), l) == c.reading.some_cause(c.env, es, l),
    decreases es, n,
{
    if n > 0 {
        let s1 = effects_in(c.cx, s, es, (n - 1) as nat, params, FormulaView::True)->Ok_0;
        lemma_effects_add(c.cx, s, es, (n - 1) as nat, params, s1);
        lemma_effect_adds(c.cx, s1, es[n - 1], params, s2);
        lemma_grows_on(s1, s2, c.tables);
        lemma_effects(c, s, es, (n - 1) as nat, params, s1, l);
        lemma_effect(c, s1, es[n - 1], params, s2, l);
        lemma_split(c.world, c.tables.names, s, s1, s2, params, l);
        assert((exists|i: int| 0 <= i < n && c.reading.causes(c.env, #[trigger] es[i], l)) == ((exists|i: int|
            0 <= i < n - 1 && c.reading.causes(c.env, #[trigger] es[i], l)) || c.reading.causes(c.env, es[n - 1], l)));
    }
}

/// A lowered action does what its definition says. Its precondition holds in a
/// world exactly where every part of the defined one does. Its effects make a
/// literal true exactly where those of the definition do: a literal under
/// `(when g e)` exactly where `g` holds, and one under `forall` for all objects of
/// the types of its variables.
pub proof fn actions_keep_their_meaning(c: Setting, s: LowerView, a: AstAction, id: usize, schema: SchemaView, s2: LowerView, l: Outcome)
    requires
        s.types.len() > 0,
        s.types[0].name == "object"@,
        action_in(c.cx, s, a, id) == Ok::<(SchemaView, LowerView), crate::lower_error::Fault>((schema, s2)),
        agree(c.reading, c.world, c.extent, c.cx, s2),
        c.tables == s2,
        sees(c.env, c.world, s2.scope),
    ensures
        c.world.holds(schema.precondition) == c.reading.are_met(c.env, a.precondition@),
        some_yields(c.world, s2.names, schema.effects, 0, 0, l) == c.reading.some_cause(c.env, a.effects@, l),
{
    let s0 = fresh_scope(s);
    let (vs, s1) = variables_in(s0, a.parameters@, a.parameters@.len())->Ok_0;
    lemma_variables(s0, a.parameters@, a.parameters@.len(), vs, s1);
    let (f, sp) = preconditions_in(c.cx, s1, a.precondition@, a.precondition@.len())->Ok_0;
    lemma_preconditions_add(c.cx, s1, a.precondition@, a.precondition@.len(), f, sp);
    lemma_effects_add(c.cx, sp, a.effects@, a.effects@.len(), seq![], s2);
    lemma_agree(c.reading, c.world, c.extent, c.cx, sp, s2);
    preconditions_keep_their_meaning(
        c.reading,
        c.env,
        c.world,
        c.extent,
        c.cx,
        s1,
        a.precondition@,
        a.precondition@.len(),
        f,
        sp,
    );
    lemma_grows_same(s2);
    lemma_effects(c, sp, a.effects@, a.effects@.len(), seq![], s2, l);
    let es = schema.effects;
    assert(es == all_strengthened(s2.effects, f));
    assert forall|j: int| 0 <= j < es.len() implies yields(c.world, s2.names, #[trigger] es[j], 0, l) == yields(
        c.world,
        s2.names,
        s2.effects[j],
        0,
        l,
    ) by {
        let x = es[j];
        let y = s2.effects[j];
        if yields(c.world, s2.names, x, 0, l) {
            let os = choose|os: Seq<Object>| #[trigger] yields_for(c.world, s2.names, x, 0, os, l);
            assert(yields_for(c.world, s2.names, y, 0, os, l));
        }
        if yields(c.world, s2.names, y, 0, l) {
            let os = choose|os: Seq<Object>| #[trigger] yields_for(c.world, s2.names, y, 0, os, l);
            assert(yields_for(c.world, s2.names, x, 0, os, l));
        }
    }
    if some_yields(c.world, s2.names, es, 0, 0, l) {
        let j = choose|j: int| 0 <= j < es.len() && yields(c.world, s2.names, #[trigger] es[j], 0, l);
        assert(yields(c.world, s2.names, s2.effects[j], 0, l));
    }
    if some_yields(c.world, s2.names, s2.effects, 0, 0, l) {
        let j = choose|j: int| 0 <= j < s2.effects.len() && yields(c.world, s2.names, #[trigger] s2.effects[j], 0, l);
        assert(yields(c.world, s2.names, es[j], 0, l));
    }
}

/// Whether a list of names denotes objects.
pub open spec fn denotes(cx: LowerScope, names: Seq<String>, os: Seq<Object>) -> bool {
    &&& os.len() == names.len()
    &&& forall|k: int| 0 <= k < os.len() ==> cx.object(names[k]@) == Some(#[trigger] os[k])
}

/// Whether an element of an initial state states a fact.
pub open spec fn states_fact(cx: LowerScope, e: AstInit, name: Seq<char>, os: Seq<Object>) -> bool {
    e matches AstInit::Atom { negated, predicate, arguments } && !negated && predicate@ == name && denotes(cx, arguments@, os)
}

/// Whether a ground atom says that a predicate holds of objects.
pub open spec fn says(names: Seq<Seq<char>>, a: AtomView, name: Seq<char>, os: Seq<Object>) -> bool {
    &&& a.predicate.0 < names.len()
    &&& names[a.predicate.0 as int] == name
    &&& a.terms == Seq::new(os.len(), |k: int| Term::Object(os[k]))
}

proof fn lemma_arguments(cx: LowerScope, names: Seq<String>, n: nat)
    requires
        n <= names.len(),
        arguments_in(cx, names, n) is Ok,
    ensures
        arguments_in(cx, names, n)->Ok_0.len() == n,
        forall|k: int|
            0 <= k < n ==> (cx.object(names[k]@) matches Some(o) && #[trigger] arguments_in(cx, names, n)->Ok_0[k] == Term::Object(o)),
    decreases n,
{
    if n > 0 {
        lemma_arguments(cx, names, (n - 1) as nat);
    }
}

/// An initial state has exactly the atoms that its elements state, each once, and
/// none for those they deny.
pub proof fn initial_states_keep_their_meaning(cx: LowerScope, s: LowerView, es: Seq<AstInit>, n: nat, i: InitView, s2: LowerView)
    requires
        n <= es.len(),
        init_in(cx, s, es, n) == Ok::<(InitView, LowerView), crate::lower_error::Fault>((i, s2)),
    ensures
        grows(s, s2),
        i.atoms.no_duplicates(),
        forall|k: int| 0 <= k < i.atoms.len() ==> (#[trigger] i.atoms[k]).predicate.0 < s2.names.len(),
        forall|name: Seq<char>, os: Seq<Object>| #[trigger]
            is_said(s2.names, i.atoms, name, os) <==> exists|j: int| 0 <= j < n && states_fact(cx, #[trigger] es[j], name, os),
    decreases n,
{
    lemma_grows_same(s);
    if n > 0 {
        let (i1, s1) = init_in(cx, s, es, (n - 1) as nat)->Ok_0;
        initial_states_keep_their_meaning(cx, s, es, (n - 1) as nat, i1, s1);
        let e = es[n - 1];
        assert(grows(s1, s2)) by {
            lemma_grows_same(s1);
            if let AstInit::Atom { negated, predicate, arguments } = e {
                let (p, sp) = with_predicate(s1, predicate@)->Ok_0;
                lemma_predicate(s1, predicate@, p, sp);
            }
        }
        lemma_grows_on(s, s1, s2);
        assert forall|name: Seq<char>, os: Seq<Object>| #[trigger] is_said(s2.names, i.atoms, name, os) <==> exists|j: int|
            0 <= j < n && states_fact(cx, #[trigger] es[j], name, os) by {
            assert(is_said(s2.names, i1.atoms, name, os) == is_said(s1.names, i1.atoms, name, os)) by {
                assert forall|k: int| 0 <= k < i1.atoms.len() implies says(s2.names, #[trigger] i1.atoms[k], name, os) == says(
                    s1.names,
                    i1.atoms[k],
                    name,
                    os,
                ) by {
                    assert(s1.names[i1.atoms[k].predicate.0 as int] == s2.names[i1.atoms[k].predicate.0 as int]);
                }
            }
            assert((exists|j: int| 0 <= j < n && states_fact(cx, #[trigger] es[j], name, os)) == ((exists|j: int|
                0 <= j < n - 1 && states_fact(cx, #[trigger] es[j], name, os)) || states_fact(cx, es[n - 1], name, os)));
            if let AstInit::Atom { negated, predicate, arguments } = e {
                let (p, sp) = with_predicate(s1, predicate@)->Ok_0;
                lemma_predicate(s1, predicate@, p, sp);
                lemma_arguments(cx, arguments@, arguments@.len());
                let terms = arguments_in(cx, arguments@, arguments@.len())->Ok_0;
                let atom = AtomView { predicate: p, terms };
                if !negated {
                    assert(says(s2.names, atom, name, os) == states_fact(cx, e, name, os)) by {
                        let given = Seq::new(os.len(), |k: int| Term::Object(os[k]));
                        if denotes(cx, arguments@, os) {
                            assert(terms == given);
                        }
                        if terms == given {
                            assert forall|k: int| 0 <= k < os.len() implies cx.object(arguments@[k]@) == Some(#[trigger] os[k]) by {
                                assert(terms[k] == given[k]);
                            }
                        }
                    }
                    if i1.atoms.contains(atom) {
                        let k = choose|k: int| 0 <= k < i1.atoms.len() && i1.atoms[k] == atom;
                        assert(says(s2.names, atom, name, os) ==> says(s2.names, i1.atoms[k], name, os));
                    } else {
                        let m = i1.atoms.len() as int;
                        assert(i.atoms == i1.atoms.push(atom));
                        if says(s2.names, atom, name, os) {
                            assert(says(s2.names, i.atoms[m], name, os));
                        }
                        if is_said(s2.names, i1.atoms, name, os) {
                            let k = choose|k: int| 0 <= k < m && says(s2.names, #[trigger] i1.atoms[k], name, os);
                            assert(says(s2.names, i.atoms[k], name, os));
                        }
                        if is_said(s2.names, i.atoms, name, os) {
                            let k = choose|k: int| 0 <= k < i.atoms.len() && says(s2.names, #[trigger] i.atoms[k], name, os);
                            if k < m {
                                assert(says(s2.names, i1.atoms[k], name, os));
                            }
                        }
                    }
                }
            } else {
                assert(i.atoms == i1.atoms);
            }
        }
        assert(i.atoms.no_duplicates() && forall|k: int| 0 <= k < i.atoms.len() ==> (#[trigger] i.atoms[k]).predicate.0 < s2.names.len()) by {
            assert forall|k: int| 0 <= k < i1.atoms.len() implies (#[trigger] i1.atoms[k]).predicate.0 < s2.names.len() by {}
            if let AstInit::Atom { negated, predicate, arguments } = e {
                let (p, sp) = with_predicate(s1, predicate@)->Ok_0;
                lemma_predicate(s1, predicate@, p, sp);
                let terms = arguments_in(cx, arguments@, arguments@.len())->Ok_0;
                let atom = AtomView { predicate: p, terms };
                if !negated && !i1.atoms.contains(atom) {
                    assert(i.atoms == i1.atoms.push(atom));
                    assert forall|a: int, b: int| 0 <= a < b < i.atoms.len() implies i.atoms[a] != i.atoms[b] by {
                        if b == i1.atoms.len() {
                            assert(i1.atoms.contains(i1.atoms[a]));
                        }
                    }
                }
            }
        }
    }
}

/// Whether an atom of a list says that a predicate holds of objects.
pub open spec fn is_said(names: Seq<Seq<char>>, atoms: Seq<AtomView>, name: Seq<char>, os: Seq<Object>) -> bool {
    exists|k: int| 0 <= k < atoms.len() && says(names, #[trigger] atoms[k], name, os)
}

/// A name denotes an object that has it: one of the problem where there is one,
/// else one of the domain; and it denotes nothing exactly where none has it.
pub proof fn names_denote_their_objects(cx: LowerScope, name: Seq<char>)
    requires
        cx.constants.len() + cx.objects.len() <= u32::MAX,
    ensures
        match cx.object(name) {
            Some(o) => if o.0 < cx.constants.len() {
                cx.constants[o.0 as int].name == name && forall|k: int| 0 <= k < cx.objects.len() ==> (#[trigger] cx.objects[k]).name != name
            } else {
                o.0 < cx.constants.len() + cx.objects.len() && cx.objects[o.0 - cx.constants.len()].name == name
            },
            None => (forall|k: int| 0 <= k < cx.objects.len() ==> (#[trigger] cx.objects[k]).name != name) && forall|k: int|
                0 <= k < cx.constants.len() ==> (#[trigger] cx.constants[k]).name != name,
        },
{
    let a = names_of(cx.objects);
    let b = names_of(cx.constants);
    lemma_position(a, name);
    lemma_position(b, name);
    if position_of(a, name) is None {
        assert forall|k: int| 0 <= k < cx.objects.len() implies (#[trigger] cx.objects[k]).name != name by {
            assert(a[k] == cx.objects[k].name);
        }
    }
    if position_of(b, name) is None {
        assert forall|k: int| 0 <= k < cx.constants.len() implies (#[trigger] cx.constants[k]).name != name by {
            assert(b[k] == cx.constants[k].name);
        }
    }
}

} // verus!
