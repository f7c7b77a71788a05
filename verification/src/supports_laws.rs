//! What support clauses say: a derived fact holds in a closed state exactly if one of
//! its support clauses does.
use vstd::prelude::*;

use crate::fdr::{
    all_hold, axiom_in, default_axioms_converge, fact_in, facts_in, holds, lemma_closure_in, lemma_pass_in, lemma_passes_in, lemma_reset_in,
    state_in, AxiomView, Fact, TaskView,
};
use crate::supports::{
    and_clauses, and_clauses_means_both, ascending, base_clause, body_support, clause_less, default_support, fact_less, falsity, insert_clause,
    insert_fact, lemma_insert_clause_contains, lemma_insert_fact_contains, lemma_room, lemma_supports_base, normalized, normalized_means_the_same, room,
    sizes_fit, some_holds, support, supports_of, value_support, Memo,
};

verus! {

/// Whether a rule leads a two-valued variable from its default value to the other one,
/// under conditions that name derived variables of lower layers only, and those only
/// off their default values.
pub open spec fn is_layered_rule(t: TaskView, layer: spec_fn(int) -> nat, rule: AxiomView) -> bool {
    let v = rule.variable as int;
    &&& t.variables[v].values.len() == 2
    &&& rule.pre == t.default_of(v)
    &&& rule.post != rule.pre
    &&& forall|c: int|
        0 <= c < rule.conditions.len() && t.derived((#[trigger] rule.conditions[c]).variable as int) ==> rule.conditions[c].value
            != t.default_of(rule.conditions[c].variable as int) && layer(rule.conditions[c].variable as int) < layer(v)
}

/// Whether all rules of a task are so.
pub open spec fn is_layered(t: TaskView, layer: spec_fn(int) -> nat) -> bool {
    forall|i: int| 0 <= i < t.axioms.len() ==> is_layered_rule(t, layer, #[trigger] t.axioms[i])
}

/// Whether a rule is the reason for the value of a variable.
spec fn proves(t: TaskView, s: Seq<usize>, v: int, i: int) -> bool {
    &&& 0 <= i < t.axioms.len()
    &&& t.axioms[i].variable == v
    &&& t.axioms[i].post == s[v]
    &&& all_hold(s, t.axioms[i].conditions)
}

/// Whether every derived variable has its default value or a rule that proves its value.
spec fn justified(t: TaskView, s: Seq<usize>) -> bool {
    forall|v: int| 0 <= v < s.len() && t.derived(v) && s[v] != t.default_of(v) ==> exists|i: int| #[trigger] proves(t, s, v, i)
}

proof fn lemma_rule_justified(t: TaskView, layer: spec_fn(int) -> nat, s: Seq<usize>, n: int)
    requires
        t.wf(),
        is_layered(t, layer),
        state_in(t.variables, s),
        0 <= n < t.axioms.len(),
        justified(t, s),
    ensures
        justified(t, TaskView::apply_rule(t.axioms[n], s)),
{
    let rule = t.axioms[n];
    assert(axiom_in(t.variables, rule));
    assert(is_layered_rule(t, layer, rule));
    if TaskView::fires(rule, s) {
        let next = s.update(rule.variable as int, rule.post);
        assert(t.derived(rule.variable as int));
        assert forall|v: int| 0 <= v < next.len() && t.derived(v) && next[v] != t.default_of(v) implies exists|i: int| #[trigger]
            proves(t, next, v, i) by {
            let i = if v == rule.variable {
                n
            } else {
                choose|i: int| #[trigger] proves(t, s, v, i)
            };
            assert(is_layered_rule(t, layer, t.axioms[i]));
            let conditions = t.axioms[i].conditions;
            assert forall|k: int| 0 <= k < conditions.len() implies holds(next, #[trigger] conditions[k]) by {
                assert(holds(s, conditions[k]));
            }
            assert(proves(t, next, v, i));
        }
    }
}

proof fn lemma_pass_justified(t: TaskView, layer: spec_fn(int) -> nat, s: Seq<usize>, n: nat)
    requires
        t.wf(),
        is_layered(t, layer),
        state_in(t.variables, s),
        n <= t.axioms.len(),
        justified(t, s),
    ensures
        justified(t, t.pass(s, n)),
    decreases n,
{
    if n > 0 {
        lemma_pass_justified(t, layer, s, (n - 1) as nat);
        lemma_pass_in(t, s, (n - 1) as nat);
        lemma_rule_justified(t, layer, t.pass(s, (n - 1) as nat), n - 1);
    }
}

proof fn lemma_passes_justified(t: TaskView, layer: spec_fn(int) -> nat, s: Seq<usize>, k: nat)
    requires
        t.wf(),
        is_layered(t, layer),
        state_in(t.variables, s),
        justified(t, s),
    ensures
        justified(t, t.passes(s, k)),
    decreases k,
{
    if k > 0 {
        lemma_passes_justified(t, layer, s, (k - 1) as nat);
        lemma_passes_in(t, s, (k - 1) as nat);
        lemma_pass_justified(t, layer, t.passes(s, (k - 1) as nat), t.axioms.len());
    }
}

/// What the proofs below rest on: a layered task and a closed state of it.
spec fn is_closed(t: TaskView, layer: spec_fn(int) -> nat, s: Seq<usize>) -> bool {
    &&& t.wf()
    &&& sizes_fit(t.variables)
    &&& is_layered(t, layer)
    &&& state_in(t.variables, s)
    &&& t.quiet(s)
    &&& justified(t, s)
}

/// Whether what is remembered is right.
spec fn is_true(t: TaskView, s: Seq<usize>, memo: Memo) -> bool {
    forall|f: Fact| #[trigger] memo.dom().contains(f) ==> (some_holds(memo[f], s) <==> holds(s, f))
}

/// Whether the facts sought are facts of layers from `from` on.
spec fn are_above(t: TaskView, layer: spec_fn(int) -> nat, active: Set<Fact>, from: nat) -> bool {
    active.finite() && forall|f: Fact| #[trigger] active.contains(f) ==> fact_in(t.variables, f) && layer(f.variable as int) >= from
}

proof fn lemma_some_holds_joined(a: Seq<Seq<Fact>>, b: Seq<Seq<Fact>>, s: Seq<usize>)
    ensures
        some_holds(a + b, s) <==> some_holds(a, s) || some_holds(b, s),
{
    let ab = a + b;
    if some_holds(a, s) {
        let i = choose|i: int| 0 <= i < a.len() && all_hold(s, #[trigger] a[i]);
        assert(ab[i] == a[i]);
    }
    if some_holds(b, s) {
        let i = choose|i: int| 0 <= i < b.len() && all_hold(s, #[trigger] b[i]);
        assert(ab[a.len() + i] == b[i]);
    }
    if some_holds(ab, s) {
        let i = choose|i: int| 0 <= i < ab.len() && all_hold(s, #[trigger] ab[i]);
        if i < a.len() {
            assert(a[i] == ab[i]);
        } else {
            assert(b[i - a.len()] == ab[i]);
        }
    }
}

/// Whether a condition fails, from value `v` of condition `c` on.
spec fn fails_from(s: Seq<usize>, conditions: Seq<Fact>, c: nat, v: nat) -> bool {
    ||| c < conditions.len() && s[conditions[c as int].variable as int] >= v && !holds(s, conditions[c as int])
    ||| exists|k: int| c < k < conditions.len() && !holds(s, #[trigger] conditions[k])
}

/// Whether the body of a rule for the variable holds, from rule `i` on.
spec fn is_led(t: TaskView, s: Seq<usize>, fact: Fact, i: nat) -> bool {
    exists|j: int|
        i <= j < t.axioms.len() && (#[trigger] t.axioms[j]).variable == fact.variable && t.axioms[j].post == fact.value && all_hold(
            s,
            t.axioms[j].conditions,
        )
}

/// Whether the body of a rule for the variable with a value other than the default
/// holds, from rule `i` on.
spec fn is_led_off(t: TaskView, s: Seq<usize>, variable: usize, i: nat) -> bool {
    exists|j: int|
        i <= j < t.axioms.len() && (#[trigger] t.axioms[j]).variable == variable && t.axioms[j].post != t.default_of(variable as int)
            && all_hold(s, t.axioms[j].conditions)
}

proof fn lemma_support(t: TaskView, layer: spec_fn(int) -> nat, s: Seq<usize>, fact: Fact, memo: Memo, active: Set<Fact>)
    requires
        is_closed(t, layer, s),
        fact_in(t.variables, fact),
        is_true(t, s, memo),
        are_above(t, layer, active, 0),
        t.derived(fact.variable as int) ==> are_above(t, layer, active, layer(fact.variable as int) + 1),
    ensures
        some_holds(support(t, fact, memo, active).0, s) <==> holds(s, fact),
        is_true(t, s, support(t, fact, memo, active).1),
    decreases room(t, active), 0nat, 0nat, 0nat,
{
    let v = fact.variable as int;
    if memo.dom().contains(fact) {
    } else if !t.derived(v) {
        let one = seq![seq![fact]];
        assert(one[0] == seq![fact]);
        assert(seq![fact][0] == fact);
        if holds(s, fact) {
            assert(all_hold(s, one[0]));
        }
        if some_holds(one, s) {
            assert(holds(s, seq![fact][0]));
        }
    } else {
        assert(!active.contains(fact));
        lemma_room(t, active, fact);
        let next = active.insert(fact);
        assert(are_above(t, layer, next, layer(v)));
        let r = choose|i: int| 0 <= i < t.axioms.len() && (#[trigger] t.axioms[i]).variable == v;
        assert(is_layered_rule(t, layer, t.axioms[r]));
        assert(s[v] < t.variables[v].values.len());
        assert(is_led_off(t, s, fact.variable, 0) <==> s[v] != t.default_of(v)) by {
            if is_led_off(t, s, fact.variable, 0) {
                let j = choose|j: int|
                    0 <= j < t.axioms.len() && (#[trigger] t.axioms[j]).variable == fact.variable && t.axioms[j].post != t.default_of(
                        fact.variable as int,
                    ) && all_hold(s, t.axioms[j].conditions);
                assert(is_layered_rule(t, layer, t.axioms[j]));
                assert(!TaskView::fires(t.axioms[j], s));
            }
            if s[v] != t.default_of(v) {
                let j = choose|j: int| #[trigger] proves(t, s, v, j);
                assert(t.axioms[j].variable == fact.variable);
            }
        }
        if fact.value == t.default_of(v) {
            let start = seq![Seq::<Fact>::empty()];
            assert(some_holds(start, s)) by {
                assert(all_hold(s, start[0]));
            }
            lemma_default(t, layer, s, fact, 0, start, memo, next);
            let (found, after) = default_support(t, fact, 0, start, memo, next);
            normalized_means_the_same(found, s);
        } else {
            lemma_value(t, layer, s, fact, 0, Seq::empty(), memo, next);
            let (bodies, after) = value_support(t, fact, 0, Seq::empty(), memo, next);
            normalized_means_the_same(bodies, s);
            normalized_means_the_same(normalized(bodies), s);
            assert(is_led(t, s, fact, 0) <==> s[v] == fact.value) by {
                if is_led(t, s, fact, 0) {
                    let j = choose|j: int|
                        0 <= j < t.axioms.len() && (#[trigger] t.axioms[j]).variable == fact.variable && t.axioms[j].post == fact.value
                            && all_hold(s, t.axioms[j].conditions);
                    assert(is_led_off(t, s, fact.variable, 0));
                }
                if s[v] == fact.value {
                    let j = choose|j: int| #[trigger] proves(t, s, v, j);
                    assert(t.axioms[j].variable == fact.variable);
                }
            }
        }
    }
}

proof fn lemma_default(t: TaskView, layer: spec_fn(int) -> nat, s: Seq<usize>, fact: Fact, i: nat, acc: Seq<Seq<Fact>>, memo: Memo, active: Set<Fact>)
    requires
        is_closed(t, layer, s),
        is_true(t, s, memo),
        are_above(t, layer, active, layer(fact.variable as int)),
    ensures
        some_holds(default_support(t, fact, i, acc, memo, active).0, s) <==> some_holds(acc, s) && !is_led_off(t, s, fact.variable, i),
        is_true(t, s, default_support(t, fact, i, acc, memo, active).1),
    decreases room(t, active), 2nat, t.axioms.len() - i, 0nat,
{
    if i < t.axioms.len() {
        let rule = t.axioms[i as int];
        assert(axiom_in(t.variables, rule));
        assert(is_layered_rule(t, layer, rule));
        if rule.variable == fact.variable && rule.post != t.default_of(fact.variable as int) {
            lemma_falsity(t, layer, s, layer(fact.variable as int), rule.conditions, 0, 0, Seq::empty(), memo, active);
            let (no, after) = falsity(t, rule.conditions, 0, 0, Seq::empty(), memo, active);
            and_clauses_means_both(acc, no, s);
            lemma_default(t, layer, s, fact, i + 1, and_clauses(acc, no), after, active);
            assert(fails_from(s, rule.conditions, 0, 0) <==> !all_hold(s, rule.conditions)) by {
                if !all_hold(s, rule.conditions) {
                    let k = choose|k: int| 0 <= k < rule.conditions.len() && !holds(s, #[trigger] rule.conditions[k]);
                }
            }
        } else {
            lemma_default(t, layer, s, fact, i + 1, acc, memo, active);
        }
        if is_led_off(t, s, fact.variable, i) {
            let j = choose|j: int|
                i <= j < t.axioms.len() && (#[trigger] t.axioms[j]).variable == fact.variable && t.axioms[j].post != t.default_of(
                    fact.variable as int,
                ) && all_hold(s, t.axioms[j].conditions);
            if j > i {
                assert(is_led_off(t, s, fact.variable, i + 1));
            }
        }
    }
}

proof fn lemma_falsity(
    t: TaskView,
    layer: spec_fn(int) -> nat,
    s: Seq<usize>,
    from: nat,
    conditions: Seq<Fact>,
    c: nat,
    v: nat,
    acc: Seq<Seq<Fact>>,
    memo: Memo,
    active: Set<Fact>,
)
    requires
        is_closed(t, layer, s),
        is_true(t, s, memo),
        are_above(t, layer, active, from),
        facts_in(t.variables, conditions),
        forall|k: int|
            0 <= k < conditions.len() && t.derived((#[trigger] conditions[k]).variable as int) ==> layer(conditions[k].variable as int) < from,
    ensures
        some_holds(falsity(t, conditions, c, v, acc, memo, active).0, s) <==> some_holds(acc, s) || fails_from(s, conditions, c, v),
        is_true(t, s, falsity(t, conditions, c, v, acc, memo, active).1),
    decreases room(t, active), 1nat, conditions.len() - c, t.variables[conditions[c as int].variable as int].values.len() - v,
{
    if c < conditions.len() {
        let variable = conditions[c as int].variable;
        assert(fact_in(t.variables, conditions[c as int]));
        assert(s[variable as int] < t.variables[variable as int].values.len());
        if v >= t.variables[variable as int].values.len() {
            lemma_falsity(t, layer, s, from, conditions, c + 1, 0, acc, memo, active);
            if fails_from(s, conditions, c, v) {
                let k = choose|k: int| c < k < conditions.len() && !holds(s, #[trigger] conditions[k]);
                assert(fails_from(s, conditions, c + 1, 0));
            }
        } else if v == conditions[c as int].value {
            lemma_falsity(t, layer, s, from, conditions, c, v + 1, acc, memo, active);
        } else {
            let f = Fact { variable, value: v as usize };
            lemma_support(t, layer, s, f, memo, active);
            let (found, after) = support(t, f, memo, active);
            lemma_some_holds_joined(acc, found, s);
            lemma_falsity(t, layer, s, from, conditions, c, v + 1, acc + found, after, active);
        }
    }
}

proof fn lemma_value(t: TaskView, layer: spec_fn(int) -> nat, s: Seq<usize>, fact: Fact, i: nat, acc: Seq<Seq<Fact>>, memo: Memo, active: Set<Fact>)
    requires
        is_closed(t, layer, s),
        is_true(t, s, memo),
        are_above(t, layer, active, layer(fact.variable as int)),
    ensures
        some_holds(value_support(t, fact, i, acc, memo, active).0, s) <==> some_holds(acc, s) || is_led(t, s, fact, i),
        is_true(t, s, value_support(t, fact, i, acc, memo, active).1),
    decreases room(t, active), 2nat, t.axioms.len() - i, 0nat,
{
    if i < t.axioms.len() {
        let rule = t.axioms[i as int];
        assert(axiom_in(t.variables, rule));
        assert(is_layered_rule(t, layer, rule));
        if rule.variable == fact.variable && rule.post == fact.value {
            let start = seq![Seq::<Fact>::empty()];
            assert(some_holds(start, s)) by {
                assert(all_hold(s, start[0]));
            }
            lemma_body(t, layer, s, layer(fact.variable as int), rule.conditions, 0, start, memo, active);
            let (body, after) = body_support(t, rule.conditions, 0, start, memo, active);
            lemma_some_holds_joined(acc, body, s);
            lemma_value(t, layer, s, fact, i + 1, acc + body, after, active);
        } else {
            lemma_value(t, layer, s, fact, i + 1, acc, memo, active);
        }
        if is_led(t, s, fact, i) {
            let j = choose|j: int|
                i <= j < t.axioms.len() && (#[trigger] t.axioms[j]).variable == fact.variable && t.axioms[j].post == fact.value && all_hold(
                    s,
                    t.axioms[j].conditions,
                );
            if j > i {
                assert(is_led(t, s, fact, i + 1));
            }
        }
    }
}

proof fn lemma_body(
    t: TaskView,
    layer: spec_fn(int) -> nat,
    s: Seq<usize>,
    from: nat,
    conditions: Seq<Fact>,
    c: nat,
    acc: Seq<Seq<Fact>>,
    memo: Memo,
    active: Set<Fact>,
)
    requires
        is_closed(t, layer, s),
        is_true(t, s, memo),
        are_above(t, layer, active, from),
        facts_in(t.variables, conditions),
        forall|k: int|
            0 <= k < conditions.len() && t.derived((#[trigger] conditions[k]).variable as int) ==> layer(conditions[k].variable as int) < from,
    ensures
        some_holds(body_support(t, conditions, c, acc, memo, active).0, s) <==> some_holds(acc, s) && forall|k: int|
            c <= k < conditions.len() ==> holds(s, #[trigger] conditions[k]),
        is_true(t, s, body_support(t, conditions, c, acc, memo, active).1),
    decreases room(t, active), 1nat, conditions.len() - c, 0nat,
{
    if c < conditions.len() {
        let f = conditions[c as int];
        assert(fact_in(t.variables, f));
        lemma_support(t, layer, s, f, memo, active);
        let (found, after) = support(t, f, memo, active);
        and_clauses_means_both(acc, found, s);
        lemma_body(t, layer, s, from, conditions, c + 1, and_clauses(acc, found), after, active);
    }
}

/// In the closure of a state a fact holds exactly if one of its support clauses does,
/// where the rules are layered.
pub proof fn supports_are_exact(t: TaskView, layer: spec_fn(int) -> nat, state: Seq<usize>, fact: Fact)
    requires
        t.wf(),
        sizes_fit(t.variables),
        is_layered(t, layer),
        state_in(t.variables, state),
        fact_in(t.variables, fact),
    ensures
        holds(t.closure(state), fact) <==> some_holds(supports_of(t, fact), t.closure(state)),
{
    assert forall|i: int| 0 <= i < t.axioms.len() implies (#[trigger] t.axioms[i]).pre == t.default_of(t.axioms[i].variable as int) by {
        assert(is_layered_rule(t, layer, t.axioms[i]));
    }
    default_axioms_converge(t);
    assert(t.converges(state));
    lemma_closure_in(t, state);
    let s = t.closure(state);
    let k = choose|k: nat| t.quiet(#[trigger] t.passes(t.reset(state), k));
    lemma_reset_in(t, state);
    lemma_passes_justified(t, layer, t.reset(state), k);
    assert(justified(t, s));
    lemma_support(t, layer, s, fact, Map::empty(), Set::empty());
}

/// Whether the facts of a clause ascend strictly.
pub open spec fn is_ascending(c: Seq<Fact>) -> bool {
    forall|i: int, j: int| 0 <= i < j < c.len() ==> fact_less(#[trigger] c[i], #[trigger] c[j])
}

/// Whether the clauses of a list ascend strictly, so that none stands there twice.
pub open spec fn is_sorted(l: Seq<Seq<Fact>>) -> bool {
    forall|i: int, j: int| 0 <= i < j < l.len() ==> clause_less(#[trigger] l[i], #[trigger] l[j])
}

/// A smallest fact in front of ascending ones.
proof fn lemma_front_ascending(f: Fact, s: Seq<Fact>)
    requires
        is_ascending(s),
        forall|i: int| 0 <= i < s.len() ==> fact_less(f, #[trigger] s[i]),
    ensures
        is_ascending(seq![f] + s),
{
    let r = seq![f] + s;
    assert forall|i: int, j: int| 0 <= i < j < r.len() implies fact_less(#[trigger] r[i], #[trigger] r[j]) by {
        assert(r[j] == s[j - 1]);
        if i > 0 {
            assert(r[i] == s[i - 1]);
        }
    }
}

proof fn lemma_insert_ascending(s: Seq<Fact>, f: Fact)
    requires
        is_ascending(s),
    ensures
        is_ascending(insert_fact(s, f)),
    decreases s.len(),
{
    if s.len() == 0 || s[0] == f {
    } else if fact_less(f, s[0]) {
        assert forall|i: int| 0 <= i < s.len() implies fact_less(f, #[trigger] s[i]) by {
            if i > 0 {
                assert(fact_less(s[0], s[i]));
            }
        }
        lemma_front_ascending(f, s);
    } else {
        let rest = s.drop_first();
        assert forall|i: int, j: int| 0 <= i < j < rest.len() implies fact_less(#[trigger] rest[i], #[trigger] rest[j]) by {
            assert(rest[i] == s[i + 1] && rest[j] == s[j + 1]);
        }
        lemma_insert_ascending(rest, f);
        let more = insert_fact(rest, f);
        assert forall|i: int| 0 <= i < more.len() implies fact_less(s[0], #[trigger] more[i]) by {
            lemma_insert_fact_contains(rest, f, more[i]);
            assert(more.contains(more[i]));
            if more[i] != f {
                let k = choose|k: int| 0 <= k < rest.len() && rest[k] == more[i];
                assert(s[k + 1] == more[i]);
            }
        }
        lemma_front_ascending(s[0], more);
    }
}

proof fn lemma_ascends(c: Seq<Fact>)
    ensures
        is_ascending(ascending(c)),
    decreases c.len(),
{
    if c.len() > 0 {
        lemma_ascends(c.drop_last());
        lemma_insert_ascending(ascending(c.drop_last()), c.last());
    }
}

/// The order of clauses is total.
proof fn lemma_clauses_total(a: Seq<Fact>, b: Seq<Fact>)
    ensures
        clause_less(a, b) || a == b || clause_less(b, a),
    decreases a.len(),
{
    if a.len() > 0 && b.len() > 0 {
        if a[0] == b[0] {
            lemma_clauses_total(a.drop_first(), b.drop_first());
            if a.drop_first() == b.drop_first() {
                assert(a =~= seq![a[0]] + a.drop_first());
                assert(b =~= seq![b[0]] + b.drop_first());
            }
        }
    } else if a.len() == 0 && b.len() == 0 {
        assert(a =~= b);
    }
}

/// The order of clauses is transitive.
proof fn lemma_clauses_chain(a: Seq<Fact>, b: Seq<Fact>, c: Seq<Fact>)
    requires
        clause_less(a, b),
        clause_less(b, c),
    ensures
        clause_less(a, c),
    decreases a.len(),
{
    if a.len() > 0 {
        if a[0] == b[0] && b[0] == c[0] {
            lemma_clauses_chain(a.drop_first(), b.drop_first(), c.drop_first());
        }
    }
}

proof fn lemma_front_sorted(c: Seq<Fact>, l: Seq<Seq<Fact>>)
    requires
        is_sorted(l),
        forall|i: int| 0 <= i < l.len() ==> clause_less(c, #[trigger] l[i]),
    ensures
        is_sorted(seq![c] + l),
{
    let r = seq![c] + l;
    assert forall|i: int, j: int| 0 <= i < j < r.len() implies clause_less(#[trigger] r[i], #[trigger] r[j]) by {
        assert(r[j] == l[j - 1]);
        if i > 0 {
            assert(r[i] == l[i - 1]);
        }
    }
}

proof fn lemma_insert_sorted(l: Seq<Seq<Fact>>, c: Seq<Fact>)
    requires
        is_sorted(l),
    ensures
        is_sorted(insert_clause(l, c)),
    decreases l.len(),
{
    if l.len() == 0 || l[0] == c {
    } else if clause_less(c, l[0]) {
        assert forall|i: int| 0 <= i < l.len() implies clause_less(c, #[trigger] l[i]) by {
            if i > 0 {
                lemma_clauses_chain(c, l[0], l[i]);
            }
        }
        lemma_front_sorted(c, l);
    } else {
        let rest = l.drop_first();
        assert forall|i: int, j: int| 0 <= i < j < rest.len() implies clause_less(#[trigger] rest[i], #[trigger] rest[j]) by {
            assert(rest[i] == l[i + 1] && rest[j] == l[j + 1]);
        }
        lemma_insert_sorted(rest, c);
        lemma_clauses_total(c, l[0]);
        let more = insert_clause(rest, c);
        assert forall|i: int| 0 <= i < more.len() implies clause_less(l[0], #[trigger] more[i]) by {
            lemma_insert_clause_contains(rest, c, more[i]);
            assert(more.contains(more[i]));
            if more[i] != c {
                let k = choose|k: int| 0 <= k < rest.len() && rest[k] == more[i];
                assert(l[k + 1] == more[i]);
            }
        }
        lemma_front_sorted(l[0], more);
    }
}

proof fn lemma_normalized_sorted(l: Seq<Seq<Fact>>)
    ensures
        is_sorted(normalized(l)),
        forall|i: int| 0 <= i < normalized(l).len() ==> is_ascending(#[trigger] normalized(l)[i]),
    decreases l.len(),
{
    if l.len() > 0 {
        let front = normalized(l.drop_last());
        let c = ascending(l.last());
        lemma_normalized_sorted(l.drop_last());
        lemma_ascends(l.last());
        lemma_insert_sorted(front, c);
        let r = normalized(l);
        assert forall|i: int| 0 <= i < r.len() implies is_ascending(#[trigger] r[i]) by {
            lemma_insert_clause_contains(front, c, r[i]);
            assert(r.contains(r[i]));
            if r[i] != c {
                let k = choose|k: int| 0 <= k < front.len() && front[k] == r[i];
                assert(is_ascending(front[k]));
            }
        }
    }
}

/// The support clauses of a fact are listed in strictly ascending order, each with its
/// facts in strictly ascending order of their variables.
pub proof fn supports_are_sorted(t: TaskView, fact: Fact)
    requires
        t.wf(),
        sizes_fit(t.variables),
        fact_in(t.variables, fact),
    ensures
        is_sorted(supports_of(t, fact)),
        forall|i: int, j: int, k: int|
            0 <= i < supports_of(t, fact).len() && 0 <= j < k < supports_of(t, fact)[i].len() ==> (#[trigger] supports_of(t, fact)[i][j]).variable
                < (#[trigger] supports_of(t, fact)[i][k]).variable,
{
    let l = supports_of(t, fact);
    lemma_supports_form(t, fact);
    lemma_supports_base(t, fact);
    assert forall|i: int, j: int, k: int| 0 <= i < l.len() && 0 <= j < k < l[i].len() implies (#[trigger] l[i][j]).variable < (
    #[trigger] l[i][k]).variable by {
        assert(is_ascending(l[i]));
        assert(base_clause(t, l[i]));
        assert(fact_less(l[i][j], l[i][k]));
    }
}

proof fn lemma_supports_form(t: TaskView, fact: Fact)
    ensures
        is_sorted(supports_of(t, fact)),
        forall|i: int| 0 <= i < supports_of(t, fact).len() ==> is_ascending(#[trigger] supports_of(t, fact)[i]),
{
    let none: Memo = Map::empty();
    if t.derived(fact.variable as int) && room(t, Set::empty()) > 0 {
        if fact.value == t.default_of(fact.variable as int) {
            lemma_normalized_sorted(default_support(t, fact, 0, seq![Seq::empty()], none, Set::empty().insert(fact)).0);
        } else {
            lemma_normalized_sorted(normalized(value_support(t, fact, 0, Seq::empty(), none, Set::empty().insert(fact)).0));
        }
    }
}

} // verus!
