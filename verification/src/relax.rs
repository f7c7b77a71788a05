//! Additive estimates over delete-relaxed rules.
//!
//! Propositions are numbered. A rule makes its head true at its price plus the
//! estimates of the propositions in its body; an estimate is the largest one
//! that no rule undercuts.
use vstd::prelude::*;

verus! {

/// The head becomes true once the whole body is.
#[derive(Debug)]
pub struct Rule {
    pub head: usize,
    pub body: Vec<usize>,
}

#[verifier::ext_equal]
pub struct RuleView {
    pub head: usize,
    pub body: Seq<usize>,
}

impl View for Rule {
    type V = RuleView;

    open spec fn view(&self) -> RuleView {
        RuleView { head: self.head, body: self.body@ }
    }
}

pub open spec fn rule_views(v: Seq<Rule>) -> Seq<RuleView> {
    v.map_values(|r: Rule| r@)
}

/// The sum of the values of the first `n` propositions of the body.
pub open spec fn body_sum(values: Seq<u128>, body: Seq<usize>, n: nat) -> nat
    decreases n,
{
    if n == 0 {
        0
    } else {
        body_sum(values, body, (n - 1) as nat) + values[body[n - 1] as int] as nat
    }
}

/// What the rule costs under the values.
pub open spec fn rule_cost(values: Seq<u128>, rule: RuleView, price: u128) -> nat {
    price as nat + body_sum(values, rule.body, rule.body.len())
}

/// Every proposition of the rules has a number below `n`.
pub open spec fn rules_in(rules: Seq<RuleView>, n: nat) -> bool {
    forall|r: int| 0 <= r < rules.len() ==> rule_in(#[trigger] rules[r], n)
}

pub open spec fn rule_in(rule: RuleView, n: nat) -> bool {
    rule.head < n && forall|i: int| 0 <= i < rule.body.len() ==> #[trigger] rule.body[i] < n
}

/// No rule undercuts the values.
pub open spec fn upheld(rules: Seq<RuleView>, prices: Seq<u128>, values: Seq<u128>) -> bool {
    forall|r: int| 0 <= r < rules.len() ==> values[(#[trigger] rules[r]).head as int] <= rule_cost(values, rules[r], prices[r])
}

pub open spec fn at_most(a: Seq<u128>, b: Seq<u128>) -> bool {
    a.len() == b.len() && forall|i: int| 0 <= i < a.len() ==> #[trigger] a[i] <= b[i]
}

/// The values are the largest ones up to `start` that no rule undercuts.
pub open spec fn is_estimate(rules: Seq<RuleView>, prices: Seq<u128>, start: Seq<u128>, values: Seq<u128>) -> bool {
    &&& at_most(values, start)
    &&& upheld(rules, prices, values)
    &&& forall|w: Seq<u128>| at_most(w, start) && upheld(rules, prices, w) ==> #[trigger] at_most(w, values)
}

/// There is one estimate.
pub proof fn estimates_agree(rules: Seq<RuleView>, prices: Seq<u128>, start: Seq<u128>, a: Seq<u128>, b: Seq<u128>)
    requires
        is_estimate(rules, prices, start, a),
        is_estimate(rules, prices, start, b),
    ensures
        a == b,
{
    assert(at_most(a, b));
    assert(at_most(b, a));
    assert(a =~= b);
}

/// The values with the listed propositions at zero.
pub open spec fn zeroed(values: Seq<u128>, free: Seq<usize>) -> Seq<u128> {
    Seq::new(
        values.len(),
        |i: int|
            if exists|k: int| 0 <= k < free.len() && #[trigger] free[k] == i {
                0
            } else {
                values[i]
            },
    )
}

/// The estimate from an estimate with some propositions made free is the
/// estimate from the start with these propositions made free.
pub proof fn lemma_zeroed(
    rules: Seq<RuleView>,
    prices: Seq<u128>,
    start: Seq<u128>,
    base: Seq<u128>,
    free: Seq<usize>,
    values: Seq<u128>,
)
    requires
        is_estimate(rules, prices, start, base),
        is_estimate(rules, prices, zeroed(base, free), values),
    ensures
        is_estimate(rules, prices, zeroed(start, free), values),
{
    let to = zeroed(start, free);
    let from = zeroed(base, free);
    assert(at_most(values, to)) by {
        assert forall|i: int| 0 <= i < values.len() implies #[trigger] values[i] <= to[i] by {
            assert(values[i] <= from[i]);
            assert(base[i] <= start[i]);
        }
    }
    assert forall|w: Seq<u128>| at_most(w, to) && upheld(rules, prices, w) implies #[trigger] at_most(w, values) by {
        assert(at_most(w, start)) by {
            assert forall|i: int| 0 <= i < w.len() implies #[trigger] w[i] <= start[i] by {
                assert(w[i] <= to[i]);
            }
        }
        assert(at_most(w, base));
        assert(at_most(w, from)) by {
            assert forall|i: int| 0 <= i < w.len() implies #[trigger] w[i] <= from[i] by {
                assert(w[i] <= to[i]);
                assert(w[i] <= base[i]);
            }
        }
    }
}

proof fn lemma_body_sum_mono(a: Seq<u128>, b: Seq<u128>, body: Seq<usize>, n: nat)
    requires
        at_most(a, b),
        n <= body.len(),
        forall|i: int| 0 <= i < body.len() ==> #[trigger] body[i] < a.len(),
    ensures
        body_sum(a, body, n) <= body_sum(b, body, n),
    decreases n,
{
    if n > 0 {
        lemma_body_sum_mono(a, b, body, (n - 1) as nat);
        assert(body[n - 1] < a.len());
        assert(a[body[n - 1] as int] <= b[body[n - 1] as int]);
    }
}

/// The sum of all values.
spec fn mass(values: Seq<u128>) -> nat
    decreases values.len(),
{
    if values.len() == 0 {
        0
    } else {
        mass(values.drop_last()) + values.last() as nat
    }
}

proof fn lemma_mass_falls(values: Seq<u128>, i: int, v: u128)
    requires
        0 <= i < values.len(),
        v < values[i],
    ensures
        mass(values.update(i, v)) < mass(values),
    decreases values.len(),
{
    let after = values.update(i, v);
    if i == values.len() - 1 {
        assert(after.drop_last() =~= values.drop_last());
    } else {
        lemma_mass_falls(values.drop_last(), i, v);
        assert(after.drop_last() =~= values.drop_last().update(i, v));
    }
}

/// `best` names a rule for each improved proposition, one that costs no more
/// than the proposition's value; a proposition without one has its start value.
pub open spec fn supported_by(
    rules: Seq<RuleView>,
    prices: Seq<u128>,
    start: Seq<u128>,
    values: Seq<u128>,
    best: Seq<Option<usize>>,
) -> bool {
    &&& best.len() == values.len()
    &&& forall|i: int|
        0 <= i < best.len() ==> match #[trigger] best[i] {
            Some(r) => r < rules.len() && rules[r as int].head == i && values[i] >= rule_cost(values, rules[r as int], prices[r as int]),
            None => values[i] == start[i],
        }
}

/// Values, and the rules that gave them: none where a value is the start value.
#[verifier::ext_equal]
pub struct Sweep {
    pub values: Seq<u128>,
    pub best: Seq<Option<usize>>,
}

/// The start values, before any rule.
pub open spec fn unswept(start: Seq<u128>) -> Sweep {
    Sweep { values: start, best: Seq::new(start.len(), |i: int| None) }
}

impl Sweep {
    /// The values after rule `r` is tried: where it undercuts the value of its head, it
    /// gives the head its cost.
    pub open spec fn with_rule(self, rules: Seq<RuleView>, prices: Seq<u128>, r: int) -> Sweep {
        let head = rules[r].head as int;
        let cost = rule_cost(self.values, rules[r], prices[r]);
        if cost < self.values[head] {
            Sweep { values: self.values.update(head, cost as u128), best: self.best.update(head, Some(r as usize)) }
        } else {
            self
        }
    }

    /// The values after the first `k` rules are tried, one after the other.
    pub open spec fn with_rules(self, rules: Seq<RuleView>, prices: Seq<u128>, k: nat) -> Sweep
        decreases k,
    {
        if k == 0 {
            self
        } else {
            self.with_rules(rules, prices, (k - 1) as nat).with_rule(rules, prices, k - 1)
        }
    }

    /// The values after `n` sweeps over all rules.
    pub open spec fn sweeps(self, rules: Seq<RuleView>, prices: Seq<u128>, n: nat) -> Sweep
        decreases n,
    {
        if n == 0 {
            self
        } else {
            self.sweeps(rules, prices, (n - 1) as nat).with_rules(rules, prices, rules.len())
        }
    }
}

/// The values and their rules after sweeps over the rules, up to one that changes nothing.
pub open spec fn is_swept(rules: Seq<RuleView>, prices: Seq<u128>, start: Seq<u128>, s: Sweep) -> bool {
    &&& s.with_rules(rules, prices, rules.len()) == s
    &&& exists|n: nat| s == #[trigger] unswept(start).sweeps(rules, prices, n)
}

/// The values and their rules at the end of the sweeps.
pub open spec fn swept(rules: Seq<RuleView>, prices: Seq<u128>, start: Seq<u128>) -> Sweep {
    choose|s: Sweep| is_swept(rules, prices, start, s)
}

/// What a sweep leaves, further sweeps leave.
proof fn lemma_sweeps_rest(rules: Seq<RuleView>, prices: Seq<u128>, start: Seq<u128>, n: nat, m: nat)
    requires
        n <= m,
        unswept(start).sweeps(rules, prices, n).with_rules(rules, prices, rules.len()) == unswept(start).sweeps(rules, prices, n),
    ensures
        unswept(start).sweeps(rules, prices, m) == unswept(start).sweeps(rules, prices, n),
    decreases m,
{
    if n < m {
        lemma_sweeps_rest(rules, prices, start, n, (m - 1) as nat);
    }
}

/// There is one end of the sweeps.
pub proof fn sweeps_agree(rules: Seq<RuleView>, prices: Seq<u128>, start: Seq<u128>, s: Sweep)
    requires
        is_swept(rules, prices, start, s),
    ensures
        swept(rules, prices, start) == s,
{
    let o = swept(rules, prices, start);
    assert(is_swept(rules, prices, start, o));
    let n = choose|n: nat| s == #[trigger] unswept(start).sweeps(rules, prices, n);
    let m = choose|m: nat| o == #[trigger] unswept(start).sweeps(rules, prices, m);
    if n <= m {
        lemma_sweeps_rest(rules, prices, start, n, m);
    } else {
        lemma_sweeps_rest(rules, prices, start, m, n);
    }
}

/// Whether `at` says when the values were last lowered, all before `clock`: a rule that
/// costs what its head is valued at was noted behind all that it needs.
pub open spec fn is_stamped(rules: Seq<RuleView>, prices: Seq<u128>, s: Sweep, at: spec_fn(int) -> nat, clock: nat) -> bool {
    &&& s.best.len() == s.values.len()
    &&& forall|i: int| 0 <= i < s.best.len() ==> #[trigger] at(i) < clock
    &&& forall|i: int|
        0 <= i < s.best.len() && (#[trigger] s.best[i]) is Some ==> {
            let r = s.best[i]->0 as int;
            &&& 0 <= r < rules.len()
            &&& rules[r].head == i
            &&& s.values[i] >= rule_cost(s.values, rules[r], prices[r])
            &&& s.values[i] == rule_cost(s.values, rules[r], prices[r]) ==> are_earlier(rules[r].body, at, at(i))
        }
}

/// Whether all propositions of a body have stamps before another.
pub open spec fn are_earlier(body: Seq<usize>, at: spec_fn(int) -> nat, clock: nat) -> bool {
    forall|k: int| 0 <= k < body.len() ==> at(#[trigger] body[k] as int) < clock
}

proof fn lemma_body_has(values: Seq<u128>, body: Seq<usize>, n: nat, k: int)
    requires
        0 <= k < n <= body.len(),
    ensures
        body_sum(values, body, n) >= values[body[k] as int],
    decreases n,
{
    if k < n - 1 {
        lemma_body_has(values, body, (n - 1) as nat, k);
    }
}

/// A body costs as much where the value of another proposition is lowered, and less where
/// that of one of its own is.
proof fn lemma_body_lowered(values: Seq<u128>, body: Seq<usize>, n: nat, h: int, v: u128)
    requires
        n <= body.len(),
        0 <= h < values.len(),
        v < values[h],
        forall|i: int| 0 <= i < body.len() ==> #[trigger] body[i] < values.len(),
    ensures
        (forall|k: int| 0 <= k < n ==> #[trigger] body[k] != h) ==> body_sum(values.update(h, v), body, n) == body_sum(values, body, n),
        (exists|k: int| 0 <= k < n && #[trigger] body[k] == h) ==> body_sum(values.update(h, v), body, n) < body_sum(values, body, n),
        body_sum(values.update(h, v), body, n) <= body_sum(values, body, n),
    decreases n,
{
    if n > 0 {
        lemma_body_lowered(values, body, (n - 1) as nat, h, v);
        assert(body[n - 1] < values.len());
        if exists|k: int| 0 <= k < n && #[trigger] body[k] == h {
            let k = choose|k: int| 0 <= k < n && #[trigger] body[k] == h;
            if k < n - 1 {
                assert(exists|k: int| 0 <= k < n - 1 && #[trigger] body[k] == h);
            }
        }
    }
}

/// Trying a rule keeps stamps, the head of the rule stamped anew where its value is
/// lowered.
proof fn lemma_rule_stamped(rules: Seq<RuleView>, prices: Seq<u128>, s: Sweep, r: int, at: spec_fn(int) -> nat, clock: nat) -> (res: (
    spec_fn(int) -> nat,
    nat,
))
    requires
        0 <= r < rules.len() <= usize::MAX,
        rules_in(rules, s.values.len()),
        is_stamped(rules, prices, s, at, clock),
    ensures
        is_stamped(rules, prices, s.with_rule(rules, prices, r), res.0, res.1),
        s.with_rule(rules, prices, r).values.len() == s.values.len(),
{
    let rule = rules[r];
    let h = rule.head as int;
    let cost = rule_cost(s.values, rule, prices[r]);
    assert(rule_in(rule, s.values.len()));
    if cost < s.values[h] {
        let q = s.with_rule(rules, prices, r);
        let v = cost as u128;
        let later = |i: int|
            if i == h {
                clock
            } else {
                at(i)
            };
        let n = rule.body.len();
        assert forall|k: int| 0 <= k < n implies #[trigger] rule.body[k] != h by {
            if rule.body[k] == h {
                lemma_body_has(s.values, rule.body, n, k);
            }
        }
        assert forall|i: int| 0 <= i < q.best.len() && (#[trigger] q.best[i]) is Some implies {
            let b = q.best[i]->0 as int;
            &&& 0 <= b < rules.len()
            &&& rules[b].head == i
            &&& q.values[i] >= rule_cost(q.values, rules[b], prices[b])
            &&& q.values[i] == rule_cost(q.values, rules[b], prices[b]) ==> are_earlier(rules[b].body, later, later(i))
        } by {
            let b = q.best[i]->0 as int;
            if i == h {
                lemma_body_lowered(s.values, rule.body, n, h, v);
                assert forall|k: int| 0 <= k < n implies later(#[trigger] rule.body[k] as int) < clock by {
                    assert(rule.body[k] < s.values.len());
                    assert(at(rule.body[k] as int) < clock);
                }
            } else {
                assert(s.best[i] == q.best[i]);
                let body = rules[b].body;
                assert(rule_in(rules[b], s.values.len()));
                lemma_body_lowered(s.values, body, body.len(), h, v);
                if q.values[i] == rule_cost(q.values, rules[b], prices[b]) {
                    assert forall|k: int| 0 <= k < body.len() implies later(#[trigger] body[k] as int) < later(i) by {
                        assert(at(body[k] as int) < at(i));
                    }
                }
            }
        }
        (later, clock + 1)
    } else {
        (at, clock)
    }
}

proof fn lemma_rules_stamped(rules: Seq<RuleView>, prices: Seq<u128>, s: Sweep, k: nat, at: spec_fn(int) -> nat, clock: nat) -> (res: (
    spec_fn(int) -> nat,
    nat,
))
    requires
        k <= rules.len() <= usize::MAX,
        rules_in(rules, s.values.len()),
        is_stamped(rules, prices, s, at, clock),
    ensures
        is_stamped(rules, prices, s.with_rules(rules, prices, k), res.0, res.1),
        s.with_rules(rules, prices, k).values.len() == s.values.len(),
    decreases k,
{
    if k == 0 {
        (at, clock)
    } else {
        let mid = lemma_rules_stamped(rules, prices, s, (k - 1) as nat, at, clock);
        lemma_rule_stamped(rules, prices, s.with_rules(rules, prices, (k - 1) as nat), k - 1, mid.0, mid.1)
    }
}

proof fn lemma_sweeps_stamped(rules: Seq<RuleView>, prices: Seq<u128>, start: Seq<u128>, n: nat) -> (res: (spec_fn(int) -> nat, nat))
    requires
        rules.len() <= usize::MAX,
        rules_in(rules, start.len()),
    ensures
        is_stamped(rules, prices, unswept(start).sweeps(rules, prices, n), res.0, res.1),
        unswept(start).sweeps(rules, prices, n).values.len() == start.len(),
    decreases n,
{
    if n == 0 {
        (|i: int| 0nat, 1)
    } else {
        let mid = lemma_sweeps_stamped(rules, prices, start, (n - 1) as nat);
        lemma_rules_stamped(rules, prices, unswept(start).sweeps(rules, prices, (n - 1) as nat), rules.len(), mid.0, mid.1)
    }
}

/// The noted rules are well founded: at the end of the sweeps, propositions can be stamped
/// so that what a noted rule needs has an earlier stamp than its head.
pub proof fn noted_rules_are_well_founded(rules: Seq<RuleView>, prices: Seq<u128>, start: Seq<u128>, s: Sweep) -> (res: (
    spec_fn(int) -> nat,
    nat,
))
    requires
        rules.len() <= usize::MAX,
        rules_in(rules, start.len()),
        is_swept(rules, prices, start, s),
        upheld(rules, prices, s.values),
    ensures
        s.values.len() == start.len(),
        s.best.len() == start.len(),
        forall|i: int| 0 <= i < s.best.len() ==> #[trigger] (res.0)(i) < res.1,
        forall|i: int| 0 <= i < s.best.len() && (#[trigger] s.best[i]) is Some ==> are_earlier(rules[s.best[i]->0 as int].body, res.0, (res.0)(i)),
{
    let n = choose|n: nat| s == #[trigger] unswept(start).sweeps(rules, prices, n);
    let res = lemma_sweeps_stamped(rules, prices, start, n);
    assert forall|i: int| 0 <= i < s.best.len() && (#[trigger] s.best[i]) is Some implies are_earlier(
        rules[s.best[i]->0 as int].body,
        res.0,
        (res.0)(i),
    ) by {
        let r = s.best[i]->0 as int;
        assert(s.values[rules[r].head as int] <= rule_cost(s.values, rules[r], prices[r]));
    }
    res
}

/// Lowers the values until no rule undercuts them, in sweeps over the rules, and names for
/// each improved proposition the rule that gave it its value.
pub fn saturate(rules: &Vec<Rule>, prices: &Vec<u128>, values: &mut Vec<u128>) -> (best: Vec<Option<usize>>)
    requires
        rules_in(rule_views(rules@), old(values)@.len()),
        prices@.len() == rules@.len(),
    ensures
        is_estimate(rule_views(rules@), prices@, old(values)@, final(values)@),
        supported_by(rule_views(rules@), prices@, old(values)@, final(values)@, best@),
        is_swept(rule_views(rules@), prices@, old(values)@, (Sweep { values: final(values)@, best: best@ })),
{
    let ghost start = values@;
    let ghost rs = rule_views(rules@);
    let mut best: Vec<Option<usize>> = Vec::new();
    let n = values.len();
    let mut i: usize = 0;
    while i < n
        invariant
            i <= n,
            best@.len() == i,
            forall|k: int| 0 <= k < i ==> #[trigger] best@[k] is None,
        decreases n - i,
    {
        best.push(None);
        i = i + 1;
    }
    let ghost mut count: nat = 0;
    proof {
        assert((Sweep { values: values@, best: best@ }) =~= unswept(start));
        assert(unswept(start).sweeps(rs, prices@, 0) == unswept(start));
    }
    let mut changed = true;
    while changed
        invariant
            (Sweep { values: values@, best: best@ }) == unswept(start).sweeps(rs, prices@, count),
            !changed ==> (Sweep { values: values@, best: best@ }).with_rules(rs, prices@, rs.len()) == (Sweep { values: values@, best: best@ }),
            start == old(values)@,
            rs == rule_views(rules@),
            rules_in(rs, start.len()),
            prices@.len() == rules@.len(),
            at_most(values@, start),
            supported_by(rs, prices@, start, values@, best@),
            forall|w: Seq<u128>| at_most(w, start) && upheld(rs, prices@, w) ==> #[trigger] at_most(w, values@),
            !changed ==> upheld(rs, prices@, values@),
        decreases mass(values@), changed as int,
    {
        changed = false;
        let ghost begun = values@;
        let ghost first = (Sweep { values: values@, best: best@ });
        let mut r: usize = 0;
        while r < rules.len()
            invariant
                start == old(values)@,
                rs == rule_views(rules@),
                rules_in(rs, start.len()),
                prices@.len() == rules@.len(),
                at_most(values@, start),
                supported_by(rs, prices@, start, values@, best@),
                forall|w: Seq<u128>| at_most(w, start) && upheld(rs, prices@, w) ==> #[trigger] at_most(w, values@),
                r <= rules@.len(),
                first.values == begun,
                (Sweep { values: values@, best: best@ }) == first.with_rules(rs, prices@, r as nat),
                !changed ==> (Sweep { values: values@, best: best@ }) == first,
                !changed ==> values@ == begun,
                changed ==> mass(values@) < mass(begun),
                !changed ==> forall|k: int|
                    0 <= k < r ==> values@[(#[trigger] rs[k]).head as int] <= rule_cost(values@, rs[k], prices@[k]),
            decreases rules@.len() - r,
        {
            let rule = &rules[r];
            let ghost rv = rs[r as int];
            assert(rv == rule@);
            assert(rule_in(rv, start.len()));
            let mut cost: u128 = prices[r];
            let ghost exact: nat = prices@[r as int] as nat;
            let mut b: usize = 0;
            while b < rule.body.len()
                invariant
                    rv == rule@,
                    rule_in(rv, start.len()),
                    values@.len() == start.len(),
                    b <= rule.body@.len(),
                    exact == prices@[r as int] as nat + body_sum(values@, rule.body@, b as nat),
                    cost == (if exact > u128::MAX {
                        u128::MAX as nat
                    } else {
                        exact
                    }),
                decreases rule.body@.len() - b,
            {
                assert(rv.body[b as int] < start.len());
                cost = cost.saturating_add(values[rule.body[b]]);
                proof {
                    exact = exact + values@[rule.body@[b as int] as int] as nat;
                }
                b = b + 1;
            }
            assert(exact == rule_cost(values@, rv, prices@[r as int]));
            if cost < values[rule.head] {
                let ghost before = values@;
                let ghost best_before = best@;
                values.set(rule.head, cost);
                best.set(rule.head, Some(r));
                changed = true;
                proof {
                    assert((Sweep { values: values@, best: best@ }) =~= (Sweep { values: before, best: best_before }).with_rule(rs, prices@, r as int));
                    lemma_mass_falls(before, rv.head as int, cost);
                    assert(at_most(values@, before));
                    assert forall|k: int| 0 <= k < best@.len() implies match #[trigger] best@[k] {
                        Some(q) => q < rs.len() && rs[q as int].head == k && values@[k] >= rule_cost(
                            values@,
                            rs[q as int],
                            prices@[q as int],
                        ),
                        None => values@[k] == start[k],
                    } by {
                        if k == rv.head {
                            lemma_body_sum_mono(values@, before, rv.body, rv.body.len());
                        } else {
                            assert(best@[k] == best_before[k]);
                            if let Some(q) = best@[k] {
                                assert(rule_in(rs[q as int], start.len()));
                                lemma_body_sum_mono(values@, before, rs[q as int].body, rs[q as int].body.len());
                            }
                        }
                    }
                    assert forall|w: Seq<u128>| at_most(w, start) && upheld(rs, prices@, w) implies #[trigger] at_most(w, values@) by {
                        assert(at_most(w, before));
                        lemma_body_sum_mono(w, before, rv.body, rv.body.len());
                        assert(w[rs[r as int].head as int] <= rule_cost(w, rs[r as int], prices@[r as int]));
                    }
                }
            }
            r = r + 1;
        }
        proof {
            count = count + 1;
        }
    }
    best
}

/// At the end a named rule costs exactly the value of its head.
pub proof fn lemma_best_is_exact(rules: Seq<RuleView>, prices: Seq<u128>, start: Seq<u128>, values: Seq<u128>, best: Seq<Option<usize>>, i: int)
    requires
        upheld(rules, prices, values),
        supported_by(rules, prices, start, values, best),
        0 <= i < best.len(),
        best[i] is Some,
    ensures
        values[i] == rule_cost(values, rules[best[i]->0 as int], prices[best[i]->0 as int]),
{
    let r = best[i]->0 as int;
    assert(values[rules[r].head as int] <= rule_cost(values, rules[r], prices[r]));
}

} // verus!
