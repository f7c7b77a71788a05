//! Base-fact supports of derived facts, as disjunctions of conjunctions.
//!
//! A clause is a conjunction of facts, a list of clauses a disjunction.
use vstd::prelude::*;

use crate::fdr::{all_hold, axiom_in, count_facts, fact_in, facts_in, holds, Fact, Task, TaskView, VariableView};
use crate::text::copy_vec;

verus! {

pub open spec fn fact_less(a: Fact, b: Fact) -> bool {
    a.variable < b.variable || (a.variable == b.variable && a.value < b.value)
}

/// The lexicographic order of clauses.
pub open spec fn clause_less(a: Seq<Fact>, b: Seq<Fact>) -> bool
    decreases a.len(),
{
    if b.len() == 0 {
        false
    } else if a.len() == 0 {
        true
    } else if a[0] == b[0] {
        clause_less(a.drop_first(), b.drop_first())
    } else {
        fact_less(a[0], b[0])
    }
}

/// Inserts a fact into an ascending list, unless it stands there.
pub open spec fn insert_fact(s: Seq<Fact>, f: Fact) -> Seq<Fact>
    decreases s.len(),
{
    if s.len() == 0 {
        seq![f]
    } else if s[0] == f {
        s
    } else if fact_less(f, s[0]) {
        seq![f] + s
    } else {
        seq![s[0]] + insert_fact(s.drop_first(), f)
    }
}

/// Inserts a clause into an ascending list, unless it stands there.
pub open spec fn insert_clause(l: Seq<Seq<Fact>>, c: Seq<Fact>) -> Seq<Seq<Fact>>
    decreases l.len(),
{
    if l.len() == 0 {
        seq![c]
    } else if l[0] == c {
        l
    } else if clause_less(c, l[0]) {
        seq![c] + l
    } else {
        seq![l[0]] + insert_clause(l.drop_first(), c)
    }
}

/// The facts of a clause, ascending, each once.
pub open spec fn ascending(c: Seq<Fact>) -> Seq<Fact>
    decreases c.len(),
{
    if c.len() == 0 {
        c
    } else {
        insert_fact(ascending(c.drop_last()), c.last())
    }
}

/// The clauses, each ascending, in ascending order, each once.
pub open spec fn normalized(l: Seq<Seq<Fact>>) -> Seq<Seq<Fact>>
    decreases l.len(),
{
    if l.len() == 0 {
        l
    } else {
        insert_clause(normalized(l.drop_last()), ascending(l.last()))
    }
}

/// No variable is asked for two values.
pub open spec fn consistent(c: Seq<Fact>) -> bool {
    forall|i: int, j: int|
        0 <= i < c.len() && 0 <= j < c.len() && (#[trigger] c[i]).variable == (#[trigger] c[j]).variable ==> c[i].value == c[j].value
}

/// The consistent conjunctions of `lhs` with the first `n` clauses of `right`.
pub open spec fn and_row(lhs: Seq<Fact>, right: Seq<Seq<Fact>>, n: nat, acc: Seq<Seq<Fact>>) -> Seq<Seq<Fact>>
    decreases n,
{
    if n == 0 {
        acc
    } else {
        let before = and_row(lhs, right, (n - 1) as nat, acc);
        if consistent(lhs + right[n - 1]) {
            insert_clause(before, ascending(lhs + right[n - 1]))
        } else {
            before
        }
    }
}

pub open spec fn and_rows(left: Seq<Seq<Fact>>, m: nat, right: Seq<Seq<Fact>>) -> Seq<Seq<Fact>>
    decreases m,
{
    if m == 0 {
        Seq::empty()
    } else {
        and_row(left[m - 1], right, right.len(), and_rows(left, (m - 1) as nat, right))
    }
}

/// The conjunction of two disjunctions: the consistent clauses among the pairs.
pub open spec fn and_clauses(left: Seq<Seq<Fact>>, right: Seq<Seq<Fact>>) -> Seq<Seq<Fact>> {
    and_rows(left, left.len(), right)
}

pub open spec fn clauses(v: Seq<Vec<Fact>>) -> Seq<Seq<Fact>> {
    v.map_values(|c: Vec<Fact>| c@)
}

// ---------------------------------------------------------------------------
// What the clauses mean
// ---------------------------------------------------------------------------

/// Some clause holds in the state.
pub open spec fn some_holds(l: Seq<Seq<Fact>>, state: Seq<usize>) -> bool {
    exists|i: int| 0 <= i < l.len() && all_hold(state, #[trigger] l[i])
}

pub proof fn lemma_insert_fact_contains(s: Seq<Fact>, f: Fact, x: Fact)
    ensures
        insert_fact(s, f).contains(x) <==> (x == f || s.contains(x)),
    decreases s.len(),
{
    if s.len() == 0 {
        assert(seq![f][0] == f);
    } else if s[0] == f {
        assert(s.contains(f));
    } else if fact_less(f, s[0]) {
        let r = seq![f] + s;
        assert(r[0] == f);
        if s.contains(x) {
            let i = choose|i: int| 0 <= i < s.len() && s[i] == x;
            assert(r[i + 1] == x);
        }
        if r.contains(x) {
            let i = choose|i: int| 0 <= i < r.len() && r[i] == x;
            if i > 0 {
                assert(s[i - 1] == x);
            }
        }
    } else {
        let rest = insert_fact(s.drop_first(), f);
        lemma_insert_fact_contains(s.drop_first(), f, x);
        let r = seq![s[0]] + rest;
        assert(r[0] == s[0]);
        if rest.contains(x) {
            let i = choose|i: int| 0 <= i < rest.len() && rest[i] == x;
            assert(r[i + 1] == x);
        }
        if r.contains(x) {
            let i = choose|i: int| 0 <= i < r.len() && r[i] == x;
            if i > 0 {
                assert(rest[i - 1] == x);
            } else {
                assert(s.contains(x));
            }
        }
        if s.contains(x) {
            let i = choose|i: int| 0 <= i < s.len() && s[i] == x;
            if i > 0 {
                assert(s.drop_first()[i - 1] == x);
            }
        }
        if s.drop_first().contains(x) {
            let i = choose|i: int| 0 <= i < s.drop_first().len() && s.drop_first()[i] == x;
            assert(s[i + 1] == x);
        }
    }
}

/// Putting a clause in order keeps its facts.
pub proof fn lemma_ascending_contains(c: Seq<Fact>, x: Fact)
    ensures
        ascending(c).contains(x) <==> c.contains(x),
    decreases c.len(),
{
    if c.len() > 0 {
        lemma_ascending_contains(c.drop_last(), x);
        lemma_insert_fact_contains(ascending(c.drop_last()), c.last(), x);
        if c.contains(x) {
            let i = choose|i: int| 0 <= i < c.len() && c[i] == x;
            if i < c.len() - 1 {
                assert(c.drop_last()[i] == x);
            }
        }
        if c.drop_last().contains(x) {
            let i = choose|i: int| 0 <= i < c.drop_last().len() && c.drop_last()[i] == x;
            assert(c[i] == x);
        }
        assert(c[c.len() - 1] == c.last());
    }
}

proof fn lemma_ascending_holds(c: Seq<Fact>, state: Seq<usize>)
    ensures
        all_hold(state, ascending(c)) <==> all_hold(state, c),
{
    if all_hold(state, ascending(c)) {
        assert forall|i: int| 0 <= i < c.len() implies holds(state, #[trigger] c[i]) by {
            assert(c.contains(c[i]));
            lemma_ascending_contains(c, c[i]);
            let k = choose|k: int| 0 <= k < ascending(c).len() && ascending(c)[k] == c[i];
            assert(holds(state, ascending(c)[k]));
        }
    }
    if all_hold(state, c) {
        assert forall|i: int| 0 <= i < ascending(c).len() implies holds(state, #[trigger] ascending(c)[i]) by {
            assert(ascending(c).contains(ascending(c)[i]));
            lemma_ascending_contains(c, ascending(c)[i]);
            let k = choose|k: int| 0 <= k < c.len() && c[k] == ascending(c)[i];
            assert(holds(state, c[k]));
        }
    }
}

pub proof fn lemma_insert_clause_contains(l: Seq<Seq<Fact>>, c: Seq<Fact>, x: Seq<Fact>)
    ensures
        insert_clause(l, c).contains(x) <==> (x == c || l.contains(x)),
    decreases l.len(),
{
    if l.len() == 0 {
        assert(seq![c][0] == c);
    } else if l[0] == c {
        assert(l.contains(c));
    } else if clause_less(c, l[0]) {
        let r = seq![c] + l;
        assert(r[0] == c);
        if l.contains(x) {
            let i = choose|i: int| 0 <= i < l.len() && l[i] == x;
            assert(r[i + 1] == x);
        }
        if r.contains(x) {
            let i = choose|i: int| 0 <= i < r.len() && r[i] == x;
            if i > 0 {
                assert(l[i - 1] == x);
            }
        }
    } else {
        let rest = insert_clause(l.drop_first(), c);
        lemma_insert_clause_contains(l.drop_first(), c, x);
        let r = seq![l[0]] + rest;
        assert(r[0] == l[0]);
        if rest.contains(x) {
            let i = choose|i: int| 0 <= i < rest.len() && rest[i] == x;
            assert(r[i + 1] == x);
        }
        if r.contains(x) {
            let i = choose|i: int| 0 <= i < r.len() && r[i] == x;
            if i > 0 {
                assert(rest[i - 1] == x);
            } else {
                assert(l.contains(x));
            }
        }
        if l.contains(x) {
            let i = choose|i: int| 0 <= i < l.len() && l[i] == x;
            if i > 0 {
                assert(l.drop_first()[i - 1] == x);
            }
        }
        if l.drop_first().contains(x) {
            let i = choose|i: int| 0 <= i < l.drop_first().len() && l.drop_first()[i] == x;
            assert(l[i + 1] == x);
        }
    }
}

proof fn lemma_some_holds_insert(l: Seq<Seq<Fact>>, c: Seq<Fact>, state: Seq<usize>)
    ensures
        some_holds(insert_clause(l, c), state) <==> (all_hold(state, c) || some_holds(l, state)),
{
    let r = insert_clause(l, c);
    assert forall|x: Seq<Fact>| r.contains(x) <==> (x == c || l.contains(x)) by {
        lemma_insert_clause_contains(l, c, x);
    }
    if some_holds(r, state) {
        let i = choose|i: int| 0 <= i < r.len() && all_hold(state, #[trigger] r[i]);
        assert(r.contains(r[i]));
        if r[i] != c {
            let k = choose|k: int| 0 <= k < l.len() && l[k] == r[i];
            assert(all_hold(state, l[k]));
        }
    }
    if all_hold(state, c) {
        assert(r.contains(c));
        let k = choose|k: int| 0 <= k < r.len() && r[k] == c;
        assert(all_hold(state, r[k]));
    }
    if some_holds(l, state) {
        let i = choose|i: int| 0 <= i < l.len() && all_hold(state, #[trigger] l[i]);
        assert(l.contains(l[i]));
        assert(r.contains(l[i]));
        let k = choose|k: int| 0 <= k < r.len() && r[k] == l[i];
        assert(all_hold(state, r[k]));
    }
}

/// Putting the clauses in normal form does not change in which states they hold.
pub proof fn normalized_means_the_same(l: Seq<Seq<Fact>>, state: Seq<usize>)
    ensures
        some_holds(normalized(l), state) <==> some_holds(l, state),
    decreases l.len(),
{
    if l.len() > 0 {
        normalized_means_the_same(l.drop_last(), state);
        lemma_some_holds_insert(normalized(l.drop_last()), ascending(l.last()), state);
        lemma_ascending_holds(l.last(), state);
        lemma_some_holds_last(l, state);
    }
}

proof fn lemma_some_holds_last(l: Seq<Seq<Fact>>, state: Seq<usize>)
    requires
        l.len() > 0,
    ensures
        some_holds(l, state) <==> (some_holds(l.drop_last(), state) || all_hold(state, l.last())),
{
    if some_holds(l, state) {
        let i = choose|i: int| 0 <= i < l.len() && all_hold(state, #[trigger] l[i]);
        if i < l.len() - 1 {
            assert(all_hold(state, l.drop_last()[i]));
        }
    }
    if some_holds(l.drop_last(), state) {
        let i = choose|i: int| 0 <= i < l.drop_last().len() && all_hold(state, #[trigger] l.drop_last()[i]);
        assert(all_hold(state, l[i]));
    }
    if all_hold(state, l.last()) {
        assert(all_hold(state, l[l.len() - 1]));
    }
}

proof fn lemma_hold_both(a: Seq<Fact>, b: Seq<Fact>, state: Seq<usize>)
    ensures
        all_hold(state, a + b) <==> (all_hold(state, a) && all_hold(state, b)),
        all_hold(state, a + b) ==> consistent(a + b),
{
    let c = a + b;
    if all_hold(state, c) {
        assert forall|i: int| 0 <= i < a.len() implies holds(state, #[trigger] a[i]) by {
            assert(holds(state, c[i]));
        }
        assert forall|i: int| 0 <= i < b.len() implies holds(state, #[trigger] b[i]) by {
            assert(holds(state, c[i + a.len()]));
        }
        assert forall|i: int, j: int|
            0 <= i < c.len() && 0 <= j < c.len() && (#[trigger] c[i]).variable == (#[trigger] c[j]).variable implies c[i].value
            == c[j].value by {
            assert(holds(state, c[i]) && holds(state, c[j]));
        }
    }
    if all_hold(state, a) && all_hold(state, b) {
        assert forall|i: int| 0 <= i < c.len() implies holds(state, #[trigger] c[i]) by {
            if i < a.len() {
                assert(holds(state, a[i]));
            } else {
                assert(holds(state, b[i - a.len()]));
            }
        }
    }
}

proof fn lemma_and_row(lhs: Seq<Fact>, right: Seq<Seq<Fact>>, n: nat, acc: Seq<Seq<Fact>>, state: Seq<usize>)
    requires
        n <= right.len(),
    ensures
        some_holds(and_row(lhs, right, n, acc), state) <==> (some_holds(acc, state) || (all_hold(state, lhs) && some_holds(
            right.take(n as int),
            state,
        ))),
    decreases n,
{
    if n > 0 {
        let before = and_row(lhs, right, (n - 1) as nat, acc);
        lemma_and_row(lhs, right, (n - 1) as nat, acc, state);
        assert(right.take(n as int).drop_last() =~= right.take(n - 1));
        lemma_some_holds_last(right.take(n as int), state);
        lemma_hold_both(lhs, right[n - 1], state);
        lemma_ascending_holds(lhs + right[n - 1], state);
        lemma_some_holds_insert(before, ascending(lhs + right[n - 1]), state);
    }
}

proof fn lemma_and_rows(left: Seq<Seq<Fact>>, m: nat, right: Seq<Seq<Fact>>, state: Seq<usize>)
    requires
        m <= left.len(),
    ensures
        some_holds(and_rows(left, m, right), state) <==> (some_holds(left.take(m as int), state) && some_holds(right, state)),
    decreases m,
{
    if m > 0 {
        lemma_and_rows(left, (m - 1) as nat, right, state);
        lemma_and_row(left[m - 1], right, right.len(), and_rows(left, (m - 1) as nat, right), state);
        assert(right.take(right.len() as int) =~= right);
        assert(left.take(m as int).drop_last() =~= left.take(m - 1));
        lemma_some_holds_last(left.take(m as int), state);
    }
}

/// The conjunction of two disjunctions holds in exactly the states in which both hold.
pub proof fn and_clauses_means_both(left: Seq<Seq<Fact>>, right: Seq<Seq<Fact>>, state: Seq<usize>)
    ensures
        some_holds(and_clauses(left, right), state) <==> (some_holds(left, state) && some_holds(right, state)),
{
    lemma_and_rows(left, left.len(), right, state);
    assert(left.take(left.len() as int) =~= left);
}

// ---------------------------------------------------------------------------
// Computing with clauses
// ---------------------------------------------------------------------------

fn clauses_same(a: &Vec<Fact>, b: &Vec<Fact>) -> (res: bool)
    ensures
        res == (a@ == b@),
{
    if a.len() != b.len() {
        return false;
    }
    let mut i: usize = 0;
    while i < a.len()
        invariant
            a@.len() == b@.len(),
            i <= a@.len(),
            forall|k: int| 0 <= k < i ==> a@[k] == b@[k],
        decreases a@.len() - i,
    {
        if a[i] != b[i] {
            return false;
        }
        i = i + 1;
    }
    assert(a@ =~= b@);
    true
}

fn clause_before(a: &Vec<Fact>, b: &Vec<Fact>) -> (res: bool)
    ensures
        res == clause_less(a@, b@),
{
    let mut i: usize = 0;
    assert(a@.skip(0) =~= a@ && b@.skip(0) =~= b@);
    while i < a.len() && i < b.len()
        invariant
            i <= a@.len(),
            i <= b@.len(),
            clause_less(a@, b@) == clause_less(a@.skip(i as int), b@.skip(i as int)),
        decreases a@.len() - i,
    {
        let x = a[i];
        let y = b[i];
        assert(a@.skip(i as int).drop_first() =~= a@.skip(i + 1));
        assert(b@.skip(i as int).drop_first() =~= b@.skip(i + 1));
        if x != y {
            return x.variable < y.variable || (x.variable == y.variable && x.value < y.value);
        }
        i = i + 1;
    }
    i < b.len()
}

fn put_in_clause(c: &mut Vec<Fact>, f: Fact)
    ensures
        final(c)@ == insert_fact(old(c)@, f),
{
    let ghost before = c@;
    let mut k: usize = 0;
    assert(before.take(0) + insert_fact(before.skip(0), f) =~= insert_fact(before, f)) by {
        assert(before.skip(0) =~= before);
    }
    while k < c.len()
        invariant
            c@ == before,
            before == old(c)@,
            k <= before.len(),
            insert_fact(before, f) == before.take(k as int) + insert_fact(before.skip(k as int), f),
        decreases before.len() - k,
    {
        let x = c[k];
        let ghost rest = before.skip(k as int);
        assert(rest[0] == x);
        if x == f {
            assert(before.take(k as int) + rest =~= before);
            return;
        }
        if f.variable < x.variable || (f.variable == x.variable && f.value < x.value) {
            c.insert(k, f);
            assert(c@ =~= before.take(k as int) + (seq![f] + rest));
            return;
        }
        assert(rest.drop_first() =~= before.skip(k + 1));
        assert(before.take(k as int) + (seq![x] + insert_fact(before.skip(k + 1), f)) =~= before.take(k + 1) + insert_fact(
            before.skip(k + 1),
            f,
        ));
        k = k + 1;
    }
    c.push(f);
    assert(c@ =~= before.take(k as int) + insert_fact(before.skip(k as int), f));
}

fn put_clause(l: &mut Vec<Vec<Fact>>, c: Vec<Fact>)
    ensures
        clauses(final(l)@) == insert_clause(clauses(old(l)@), c@),
{
    let ghost before = clauses(l@);
    let ghost vs = l@;
    let mut k: usize = 0;
    assert(before.take(0) + insert_clause(before.skip(0), c@) =~= insert_clause(before, c@)) by {
        assert(before.skip(0) =~= before);
    }
    while k < l.len()
        invariant
            l@ == vs,
            vs == old(l)@,
            before == clauses(vs),
            k <= before.len(),
            insert_clause(before, c@) == before.take(k as int) + insert_clause(before.skip(k as int), c@),
        decreases before.len() - k,
    {
        let ghost rest = before.skip(k as int);
        assert(rest[0] == l@[k as int]@);
        if clauses_same(&l[k], &c) {
            assert(before.take(k as int) + rest =~= before);
            return;
        }
        if clause_before(&c, &l[k]) {
            let ghost cv = c@;
            l.insert(k, c);
            assert(clauses(l@) =~= before.take(k as int) + (seq![cv] + rest));
            return;
        }
        assert(rest.drop_first() =~= before.skip(k + 1));
        assert(before.take(k as int) + (seq![rest[0]] + insert_clause(before.skip(k + 1), c@)) =~= before.take(k + 1)
            + insert_clause(before.skip(k + 1), c@));
        k = k + 1;
    }
    let ghost cv = c@;
    l.push(c);
    assert(clauses(l@) =~= before.take(k as int) + insert_clause(before.skip(k as int), cv));
}

fn in_order(c: &Vec<Fact>) -> (res: Vec<Fact>)
    ensures
        res@ == ascending(c@),
{
    let mut res: Vec<Fact> = Vec::new();
    let mut i: usize = 0;
    assert(c@.take(0) =~= Seq::<Fact>::empty());
    while i < c.len()
        invariant
            i <= c@.len(),
            res@ == ascending(c@.take(i as int)),
        decreases c@.len() - i,
    {
        put_in_clause(&mut res, c[i]);
        i = i + 1;
        assert(c@.take(i as int).drop_last() =~= c@.take(i - 1));
    }
    assert(c@.take(i as int) =~= c@);
    res
}

/// Puts the clauses in normal form: each ascending, the list ascending, nothing twice.
pub fn deduplicate_dnf(l: &Vec<Vec<Fact>>) -> (res: Vec<Vec<Fact>>)
    ensures
        clauses(res@) == normalized(clauses(l@)),
{
    let ghost lv = clauses(l@);
    let mut res: Vec<Vec<Fact>> = Vec::new();
    let mut i: usize = 0;
    assert(lv.take(0) =~= Seq::<Seq<Fact>>::empty());
    assert(clauses(res@) =~= Seq::<Seq<Fact>>::empty());
    while i < l.len()
        invariant
            i <= l@.len(),
            lv == clauses(l@),
            clauses(res@) == normalized(lv.take(i as int)),
        decreases l@.len() - i,
    {
        let c = in_order(&l[i]);
        put_clause(&mut res, c);
        i = i + 1;
        assert(lv.take(i as int).drop_last() =~= lv.take(i - 1));
    }
    assert(lv.take(i as int) =~= lv);
    res
}

fn is_consistent(c: &Vec<Fact>) -> (res: bool)
    ensures
        res == consistent(c@),
{
    let mut i: usize = 0;
    while i < c.len()
        invariant
            i <= c@.len(),
            forall|a: int, b: int|
                0 <= a < i && 0 <= b < c@.len() && (#[trigger] c@[a]).variable == (#[trigger] c@[b]).variable ==> c@[a].value
                    == c@[b].value,
        decreases c@.len() - i,
    {
        let mut j: usize = 0;
        while j < c.len()
            invariant
                i < c@.len(),
                j <= c@.len(),
                forall|b: int|
                    0 <= b < j && c@[i as int].variable == (#[trigger] c@[b]).variable ==> c@[i as int].value == c@[b].value,
            decreases c@.len() - j,
        {
            if c[i].variable == c[j].variable && c[i].value != c[j].value {
                return false;
            }
            j = j + 1;
        }
        i = i + 1;
    }
    true
}

/// The conjunction of two disjunctions.
pub fn and_dnf(left: &Vec<Vec<Fact>>, right: &Vec<Vec<Fact>>) -> (res: Vec<Vec<Fact>>)
    ensures
        clauses(res@) == and_clauses(clauses(left@), clauses(right@)),
{
    let ghost lv = clauses(left@);
    let ghost rv = clauses(right@);
    let mut res: Vec<Vec<Fact>> = Vec::new();
    let mut m: usize = 0;
    assert(clauses(res@) =~= Seq::<Seq<Fact>>::empty());
    while m < left.len()
        invariant
            m <= left@.len(),
            lv == clauses(left@),
            rv == clauses(right@),
            clauses(res@) == and_rows(lv, m as nat, rv),
        decreases left@.len() - m,
    {
        let ghost acc = clauses(res@);
        let mut n: usize = 0;
        while n < right.len()
            invariant
                m < left@.len(),
                n <= right@.len(),
                lv == clauses(left@),
                rv == clauses(right@),
                clauses(res@) == and_row(lv[m as int], rv, n as nat, acc),
            decreases right@.len() - n,
        {
            let mut both = copy_vec(&left[m]);
            let mut k: usize = 0;
            while k < right[n].len()
                invariant
                    m < left@.len(),
                    n < right@.len(),
                    k <= right@[n as int]@.len(),
                    both@ == left@[m as int]@ + right@[n as int]@.take(k as int),
                decreases right@[n as int]@.len() - k,
            {
                both.push(right[n][k]);
                k = k + 1;
                assert(right@[n as int]@.take(k as int) =~= right@[n as int]@.take(k - 1).push(right@[n as int]@[k - 1]));
            }
            assert(right@[n as int]@.take(k as int) =~= right@[n as int]@);
            assert(lv[m as int] == left@[m as int]@ && rv[n as int] == right@[n as int]@);
            if is_consistent(&both) {
                let c = in_order(&both);
                put_clause(&mut res, c);
            }
            n = n + 1;
        }
        m = m + 1;
    }
    res
}

// ---------------------------------------------------------------------------
// The supports of a fact
// ---------------------------------------------------------------------------

/// What has been found so far, by fact.
pub type Memo = Map<Fact, Seq<Seq<Fact>>>;

/// How many more facts can become active.
pub open spec fn room(t: TaskView, active: Set<Fact>) -> nat {
    if active.len() < count_facts(t.variables) {
        (count_facts(t.variables) - active.len()) as nat
    } else {
        0
    }
}

/// The support clauses of `fact` and the memo afterwards. A fact that is not
/// derived supports itself; a fact whose support is being sought (it is
/// `active`) has no support through itself; a derived fact at its default value
/// is supported by making every rule for a non-default value false; one at
/// another value is supported by the body of some rule for it.
pub open spec fn support(t: TaskView, fact: Fact, memo: Memo, active: Set<Fact>) -> (Seq<Seq<Fact>>, Memo)
    decreases room(t, active), 0nat, 0nat, 0nat,
{
    if memo.dom().contains(fact) {
        (memo[fact], memo)
    } else if !t.derived(fact.variable as int) {
        (seq![seq![fact]], memo)
    } else if active.contains(fact) || !active.finite() || room(t, active) == 0 {
        (Seq::empty(), memo)
    } else {
        let (found, after) = if fact.value == t.default_of(fact.variable as int) {
            default_support(t, fact, 0, seq![Seq::empty()], memo, active.insert(fact))
        } else {
            let (bodies, after) = value_support(t, fact, 0, Seq::empty(), memo, active.insert(fact));
            (normalized(bodies), after)
        };
        (normalized(found), after.insert(fact, normalized(found)))
    }
}

/// Conjoins to `acc` the falsity of each rule from rule `i` on that leads to a
/// non-default value.
pub open spec fn default_support(t: TaskView, fact: Fact, i: nat, acc: Seq<Seq<Fact>>, memo: Memo, active: Set<Fact>) -> (
    Seq<Seq<Fact>>,
    Memo,
)
    decreases room(t, active), 2nat, t.axioms.len() - i, 0nat,
{
    if i >= t.axioms.len() {
        (acc, memo)
    } else {
        let rule = t.axioms[i as int];
        if rule.variable == fact.variable && rule.post != t.default_of(fact.variable as int) {
            let (no, after) = falsity(t, rule.conditions, 0, 0, Seq::empty(), memo, active);
            default_support(t, fact, i + 1, and_clauses(acc, no), after, active)
        } else {
            default_support(t, fact, i + 1, acc, memo, active)
        }
    }
}

/// Adds to `acc` the supports of the facts that contradict the conditions, from
/// value `v` of condition `c` on.
pub open spec fn falsity(
    t: TaskView,
    conditions: Seq<Fact>,
    c: nat,
    v: nat,
    acc: Seq<Seq<Fact>>,
    memo: Memo,
    active: Set<Fact>,
) -> (Seq<Seq<Fact>>, Memo)
    decreases room(t, active), 1nat, conditions.len() - c, t.variables[conditions[c as int].variable as int].values.len() - v,
{
    if c >= conditions.len() {
        (acc, memo)
    } else {
        let variable = conditions[c as int].variable;
        if v >= t.variables[variable as int].values.len() {
            falsity(t, conditions, c + 1, 0, acc, memo, active)
        } else if v == conditions[c as int].value {
            falsity(t, conditions, c, v + 1, acc, memo, active)
        } else {
            let (found, after) = support(t, Fact { variable, value: v as usize }, memo, active);
            falsity(t, conditions, c, v + 1, acc + found, after, active)
        }
    }
}

/// Adds to `acc` the supports of the bodies of the rules for `fact`, from rule `i` on.
pub open spec fn value_support(t: TaskView, fact: Fact, i: nat, acc: Seq<Seq<Fact>>, memo: Memo, active: Set<Fact>) -> (
    Seq<Seq<Fact>>,
    Memo,
)
    decreases room(t, active), 2nat, t.axioms.len() - i, 0nat,
{
    if i >= t.axioms.len() {
        (acc, memo)
    } else {
        let rule = t.axioms[i as int];
        if rule.variable == fact.variable && rule.post == fact.value {
            let (body, after) = body_support(t, rule.conditions, 0, seq![Seq::empty()], memo, active);
            value_support(t, fact, i + 1, acc + body, after, active)
        } else {
            value_support(t, fact, i + 1, acc, memo, active)
        }
    }
}

/// Conjoins to `acc` the supports of the conditions from condition `c` on.
pub open spec fn body_support(t: TaskView, conditions: Seq<Fact>, c: nat, acc: Seq<Seq<Fact>>, memo: Memo, active: Set<Fact>) -> (
    Seq<Seq<Fact>>,
    Memo,
)
    decreases room(t, active), 1nat, conditions.len() - c, 0nat,
{
    if c >= conditions.len() {
        (acc, memo)
    } else {
        let (found, after) = support(t, conditions[c as int], memo, active);
        body_support(t, conditions, c + 1, and_clauses(acc, found), after, active)
    }
}

/// The support clauses of a derived fact.
pub open spec fn supports_of(t: TaskView, fact: Fact) -> Seq<Seq<Fact>> {
    support(t, fact, Map::empty(), Set::empty()).0
}

/// The facts of variable `v` with a value below `n`.
spec fn facts_below(v: usize, n: nat) -> Set<Fact>
    decreases n,
{
    if n == 0 {
        Set::empty()
    } else {
        facts_below(v, (n - 1) as nat).insert(Fact { variable: v, value: (n - 1) as usize })
    }
}

proof fn lemma_facts_below(v: usize, n: nat)
    requires
        n <= usize::MAX,
    ensures
        facts_below(v, n).finite(),
        facts_below(v, n).len() <= n,
        forall|f: Fact| #[trigger] facts_below(v, n).contains(f) <==> (f.variable == v && f.value < n),
    decreases n,
{
    if n > 0 {
        lemma_facts_below(v, (n - 1) as nat);
    }
}

spec fn all_facts(variables: Seq<VariableView>) -> Set<Fact>
    decreases variables.len(),
{
    if variables.len() == 0 {
        Set::empty()
    } else {
        all_facts(variables.drop_last()).union(
            facts_below((variables.len() - 1) as usize, variables.last().values.len()),
        )
    }
}

/// The variables and their values can be numbered.
pub open spec fn sizes_fit(variables: Seq<VariableView>) -> bool {
    &&& variables.len() <= usize::MAX
    &&& forall|v: int| 0 <= v < variables.len() ==> #[trigger] variables[v].values.len() <= usize::MAX
}

proof fn lemma_all_facts(variables: Seq<VariableView>)
    requires
        sizes_fit(variables),
    ensures
        all_facts(variables).finite(),
        all_facts(variables).len() <= count_facts(variables),
        forall|f: Fact| #[trigger] all_facts(variables).contains(f) <==> fact_in(variables, f),
    decreases variables.len(),
{
    if variables.len() > 0 {
        let rest = variables.drop_last();
        let v = (variables.len() - 1) as usize;
        let n = variables.last().values.len();
        assert(sizes_fit(rest)) by {
            assert forall|v: int| 0 <= v < rest.len() implies #[trigger] rest[v].values.len() <= usize::MAX by {
                assert(rest[v] == variables[v]);
            }
        }
        assert(variables[variables.len() - 1].values.len() <= usize::MAX);
        lemma_all_facts(rest);
        lemma_facts_below(v, n);
        vstd::set_lib::lemma_len_union(all_facts(rest), facts_below(v, n));
        assert forall|f: Fact| #[trigger] all_facts(variables).contains(f) <==> fact_in(variables, f) by {
            if f.variable < rest.len() {
                assert(rest[f.variable as int] == variables[f.variable as int]);
            }
            assert(all_facts(rest).contains(f) <==> fact_in(rest, f));
            assert(facts_below(v, n).contains(f) <==> (f.variable == v && f.value < n));
        }
    }
}

/// A set of existing facts that lacks one leaves room.
pub proof fn lemma_room(t: TaskView, active: Set<Fact>, fact: Fact)
    requires
        sizes_fit(t.variables),
        active.finite(),
        forall|f: Fact| #[trigger] active.contains(f) ==> fact_in(t.variables, f),
        fact_in(t.variables, fact),
        !active.contains(fact),
    ensures
        room(t, active) > 0,
        room(t, active.insert(fact)) < room(t, active),
{
    lemma_all_facts(t.variables);
    let all = all_facts(t.variables);
    assert(active.insert(fact).subset_of(all)) by {
        assert forall|f: Fact| active.insert(fact).contains(f) implies all.contains(f) by {
            assert(all.contains(f) <==> fact_in(t.variables, f));
        }
    }
    vstd::set_lib::lemma_len_subset(active.insert(fact), all);
}

spec fn memo_of(s: Seq<(Fact, Vec<Vec<Fact>>)>) -> Memo
    decreases s.len(),
{
    if s.len() == 0 {
        Map::empty()
    } else {
        memo_of(s.drop_last()).insert(s.last().0, clauses(s.last().1@))
    }
}

spec fn active_of(s: Seq<Fact>) -> Set<Fact>
    decreases s.len(),
{
    if s.len() == 0 {
        Set::empty()
    } else {
        active_of(s.drop_last()).insert(s.last())
    }
}

proof fn lemma_active_of(s: Seq<Fact>)
    ensures
        active_of(s).finite(),
        forall|f: Fact| #[trigger] active_of(s).contains(f) <==> s.contains(f),
    decreases s.len(),
{
    if s.len() > 0 {
        lemma_active_of(s.drop_last());
        assert forall|f: Fact| #[trigger] active_of(s).contains(f) <==> s.contains(f) by {
            assert(active_of(s.drop_last()).contains(f) <==> s.drop_last().contains(f));
            if s.contains(f) {
                let i = choose|i: int| 0 <= i < s.len() && s[i] == f;
                if i < s.len() - 1 {
                    assert(s.drop_last()[i] == f);
                }
            }
            if s.drop_last().contains(f) {
                let i = choose|i: int| 0 <= i < s.drop_last().len() && s.drop_last()[i] == f;
                assert(s[i] == f);
            }
            assert(s[s.len() - 1] == s.last());
        }
    }
}

fn copy_clauses(l: &Vec<Vec<Fact>>) -> (res: Vec<Vec<Fact>>)
    ensures
        clauses(res@) == clauses(l@),
{
    let mut res: Vec<Vec<Fact>> = Vec::new();
    let mut i: usize = 0;
    while i < l.len()
        invariant
            i <= l@.len(),
            res@.len() == i,
            forall|k: int| 0 <= k < i ==> (#[trigger] res@[k])@ == l@[k]@,
        decreases l@.len() - i,
    {
        res.push(copy_vec(&l[i]));
        i = i + 1;
    }
    assert(clauses(res@) =~= clauses(l@));
    res
}

/// The memoised clauses of `fact`, when there are any.
fn recall(memo: &Vec<(Fact, Vec<Vec<Fact>>)>, fact: Fact) -> (res: Option<Vec<Vec<Fact>>>)
    ensures
        match res {
            Some(c) => memo_of(memo@).dom().contains(fact) && clauses(c@) == memo_of(memo@)[fact],
            None => !memo_of(memo@).dom().contains(fact),
        },
{
    let mut n: usize = memo.len();
    assert(memo@.take(n as int) =~= memo@);
    while n > 0
        invariant
            n <= memo@.len(),
            memo_of(memo@).dom().contains(fact) == memo_of(memo@.take(n as int)).dom().contains(fact),
            memo_of(memo@).dom().contains(fact) ==> memo_of(memo@)[fact] == memo_of(memo@.take(n as int))[fact],
        decreases n,
    {
        assert(memo@.take(n as int).drop_last() =~= memo@.take(n - 1));
        if memo[n - 1].0 == fact {
            return Some(copy_clauses(&memo[n - 1].1));
        }
        n = n - 1;
    }
    None
}

fn append_clauses(acc: &mut Vec<Vec<Fact>>, more: &Vec<Vec<Fact>>)
    ensures
        clauses(final(acc)@) == clauses(old(acc)@) + clauses(more@),
{
    let ghost before = clauses(acc@);
    let mut i: usize = 0;
    assert(clauses(acc@) =~= before + clauses(more@).take(0));
    while i < more.len()
        invariant
            i <= more@.len(),
            clauses(acc@) == before + clauses(more@).take(i as int),
        decreases more@.len() - i,
    {
        let c = copy_vec(&more[i]);
        let ghost now = clauses(acc@);
        acc.push(c);
        assert(clauses(acc@) =~= now.push(more@[i as int]@));
        i = i + 1;
        assert(clauses(acc@) =~= before + clauses(more@).take(i as int));
    }
    assert(clauses(more@).take(i as int) =~= clauses(more@));
}

fn fact_listed(facts: &Vec<Fact>, fact: Fact) -> (res: bool)
    ensures
        res == facts@.contains(fact),
{
    let mut i: usize = 0;
    while i < facts.len()
        invariant
            i <= facts@.len(),
            forall|k: int| 0 <= k < i ==> facts@[k] != fact,
        decreases facts@.len() - i,
    {
        if facts[i] == fact {
            return true;
        }
        i = i + 1;
    }
    false
}

spec fn list_in(variables: Seq<VariableView>, s: Seq<Fact>) -> bool {
    forall|i: int| 0 <= i < s.len() ==> fact_in(variables, #[trigger] s[i])
}

proof fn lemma_sizes(task: &Task)
    ensures
        sizes_fit(task@.variables),
{
    assert(task.variables.len() == task.variables@.len());
    assert forall|v: int| 0 <= v < task@.variables.len() implies #[trigger] task@.variables[v].values.len() <= usize::MAX by {
        assert(task@.variables[v] == task.variables@[v]@);
        assert(task.variables@[v].values.len() == task.variables@[v].values@.len());
    }
}

impl Task {
    /// Returns a disjunction of conjunctions over facts that establish a derived
    /// equality. `None` means `fact` is not derived.
    pub fn derived_supports(&self, fact: Fact) -> (res: Option<Vec<Vec<Fact>>>)
        requires
            self.wf(),
            fact_in(self@.variables, fact),
        ensures
            match res {
                Some(found) => self@.derived(fact.variable as int) && clauses(found@) == supports_of(self@, fact),
                None => !self@.derived(fact.variable as int),
            },
    {
        if !self.is_derived_variable(fact.variable) {
            return None;
        }
        let mut memo: Vec<(Fact, Vec<Vec<Fact>>)> = Vec::new();
        let mut active: Vec<Fact> = Vec::new();
        Some(self.support_fact(fact, &mut memo, &mut active))
    }

    fn support_fact(&self, fact: Fact, memo: &mut Vec<(Fact, Vec<Vec<Fact>>)>, active: &mut Vec<Fact>) -> (res: Vec<Vec<Fact>>)
        requires
            self.wf(),
            fact_in(self@.variables, fact),
            list_in(self@.variables, old(active)@),
        ensures
            final(active)@ == old(active)@,
            (clauses(res@), memo_of(final(memo)@)) == support(self@, fact, memo_of(old(memo)@), active_of(old(active)@)),
        decreases room(self@, active_of(old(active)@)), 0nat, 0nat,
    {
        let ghost t = self@;
        let ghost active0 = active@;
        proof {
            lemma_sizes(self);
            lemma_active_of(active@);
        }
        if let Some(found) = recall(memo, fact) {
            return found;
        }
        if !self.is_derived_variable(fact.variable) {
            let mut one: Vec<Fact> = Vec::new();
            one.push(fact);
            let ghost c = one@;
            let mut res: Vec<Vec<Fact>> = Vec::new();
            res.push(one);
            assert(c =~= seq![fact]);
            assert(clauses(res@) =~= seq![seq![fact]]);
            return res;
        }
        if fact_listed(active, fact) {
            let res: Vec<Vec<Fact>> = Vec::new();
            assert(clauses(res@) =~= Seq::<Seq<Fact>>::empty());
            return res;
        }
        proof {
            lemma_room(t, active_of(active@), fact);
        }
        active.push(fact);
        assert(active@.drop_last() =~= active0);
        let found = if fact.value == self.default_value(fact.variable) {
            self.default_clauses(fact, memo, active)
        } else {
            let bodies = self.value_clauses(fact, memo, active);
            deduplicate_dnf(&bodies)
        };
        let res = deduplicate_dnf(&found);
        let _ = active.pop();
        assert(active@ =~= active0);
        let kept = copy_clauses(&res);
        let ghost before = memo@;
        memo.push((fact, kept));
        assert(memo@.drop_last() =~= before);
        res
    }

    fn default_clauses(&self, fact: Fact, memo: &mut Vec<(Fact, Vec<Vec<Fact>>)>, active: &mut Vec<Fact>) -> (res: Vec<Vec<Fact>>)
        requires
            self.wf(),
            fact_in(self@.variables, fact),
            list_in(self@.variables, old(active)@),
        ensures
            final(active)@ == old(active)@,
            (clauses(res@), memo_of(final(memo)@)) == default_support(
                self@,
                fact,
                0,
                seq![Seq::empty()],
                memo_of(old(memo)@),
                active_of(old(active)@),
            ),
        decreases room(self@, active_of(old(active)@)), 2nat, 0nat,
    {
        let ghost t = self@;
        let ghost memo0 = memo_of(memo@);
        let default = self.default_value(fact.variable);
        let mut acc: Vec<Vec<Fact>> = Vec::new();
        acc.push(Vec::new());
        assert(acc@[0]@ =~= Seq::<Fact>::empty());
        assert(clauses(acc@) =~= seq![Seq::<Fact>::empty()]);
        let mut i: usize = 0;
        while i < self.axioms.len()
            invariant
                t == self@,
                t.wf(),
                fact_in(t.variables, fact),
                default == t.default_of(fact.variable as int),
                list_in(t.variables, active@),
                active@ == old(active)@,
                memo0 == memo_of(old(memo)@),
                i <= self.axioms@.len(),
                default_support(t, fact, 0, seq![Seq::empty()], memo0, active_of(active@)) == default_support(
                    t,
                    fact,
                    i as nat,
                    clauses(acc@),
                    memo_of(memo@),
                    active_of(active@),
                ),
            decreases self.axioms@.len() - i,
        {
            let rule = &self.axioms[i];
            assert(t.axioms[i as int] == rule@);
            assert(axiom_in(t.variables, t.axioms[i as int]));
            if rule.variable == fact.variable && rule.post != default {
                let no = self.falsity_clauses(&rule.conditions, memo, active);
                acc = and_dnf(&acc, &no);
            }
            i = i + 1;
        }
        acc
    }

    fn falsity_clauses(&self, conditions: &Vec<Fact>, memo: &mut Vec<(Fact, Vec<Vec<Fact>>)>, active: &mut Vec<Fact>) -> (res: Vec<
        Vec<Fact>,
    >)
        requires
            self.wf(),
            facts_in(self@.variables, conditions@),
            list_in(self@.variables, old(active)@),
        ensures
            final(active)@ == old(active)@,
            (clauses(res@), memo_of(final(memo)@)) == falsity(
                self@,
                conditions@,
                0,
                0,
                Seq::empty(),
                memo_of(old(memo)@),
                active_of(old(active)@),
            ),
        decreases room(self@, active_of(old(active)@)), 1nat, 0nat,
    {
        let ghost t = self@;
        let ghost memo0 = memo_of(memo@);
        let mut acc: Vec<Vec<Fact>> = Vec::new();
        assert(clauses(acc@) =~= Seq::<Seq<Fact>>::empty());
        let mut c: usize = 0;
        while c < conditions.len()
            invariant
                t == self@,
                t.wf(),
                facts_in(t.variables, conditions@),
                list_in(t.variables, active@),
                active@ == old(active)@,
                memo0 == memo_of(old(memo)@),
                c <= conditions@.len(),
                falsity(t, conditions@, 0, 0, Seq::empty(), memo0, active_of(active@)) == falsity(
                    t,
                    conditions@,
                    c as nat,
                    0,
                    clauses(acc@),
                    memo_of(memo@),
                    active_of(active@),
                ),
            decreases conditions@.len() - c,
        {
            let condition = conditions[c];
            assert(fact_in(t.variables, conditions@[c as int]));
            assert(t.variables[condition.variable as int] == self.variables@[condition.variable as int]@);
            let size = self.variables[condition.variable].values.len();
            let mut v: usize = 0;
            while v < size
                invariant
                    t == self@,
                    t.wf(),
                    facts_in(t.variables, conditions@),
                    list_in(t.variables, active@),
                    active@ == old(active)@,
                    c < conditions@.len(),
                    condition == conditions@[c as int],
                    condition.variable < t.variables.len(),
                    size == t.variables[condition.variable as int].values.len(),
                    v <= size,
                    memo0 == memo_of(old(memo)@),
                    falsity(t, conditions@, 0, 0, Seq::empty(), memo0, active_of(active@)) == falsity(
                        t,
                        conditions@,
                        c as nat,
                        v as nat,
                        clauses(acc@),
                        memo_of(memo@),
                        active_of(active@),
                    ),
                decreases size - v,
            {
                if v != condition.value {
                    let found = self.support_fact(Fact::new(condition.variable, v), memo, active);
                    append_clauses(&mut acc, &found);
                }
                v = v + 1;
            }
            c = c + 1;
        }
        acc
    }

    fn value_clauses(&self, fact: Fact, memo: &mut Vec<(Fact, Vec<Vec<Fact>>)>, active: &mut Vec<Fact>) -> (res: Vec<Vec<Fact>>)
        requires
            self.wf(),
            fact_in(self@.variables, fact),
            list_in(self@.variables, old(active)@),
        ensures
            final(active)@ == old(active)@,
            (clauses(res@), memo_of(final(memo)@)) == value_support(
                self@,
                fact,
                0,
                Seq::empty(),
                memo_of(old(memo)@),
                active_of(old(active)@),
            ),
        decreases room(self@, active_of(old(active)@)), 2nat, 0nat,
    {
        let ghost t = self@;
        let ghost memo0 = memo_of(memo@);
        let mut acc: Vec<Vec<Fact>> = Vec::new();
        assert(clauses(acc@) =~= Seq::<Seq<Fact>>::empty());
        let mut i: usize = 0;
        while i < self.axioms.len()
            invariant
                t == self@,
                t.wf(),
                fact_in(t.variables, fact),
                list_in(t.variables, active@),
                active@ == old(active)@,
                memo0 == memo_of(old(memo)@),
                i <= self.axioms@.len(),
                value_support(t, fact, 0, Seq::empty(), memo0, active_of(active@)) == value_support(
                    t,
                    fact,
                    i as nat,
                    clauses(acc@),
                    memo_of(memo@),
                    active_of(active@),
                ),
            decreases self.axioms@.len() - i,
        {
            let rule = &self.axioms[i];
            assert(t.axioms[i as int] == rule@);
            assert(axiom_in(t.variables, t.axioms[i as int]));
            if rule.variable == fact.variable && rule.post == fact.value {
                let body = self.body_clauses(&rule.conditions, memo, active);
                append_clauses(&mut acc, &body);
            }
            i = i + 1;
        }
        acc
    }

    fn body_clauses(&self, conditions: &Vec<Fact>, memo: &mut Vec<(Fact, Vec<Vec<Fact>>)>, active: &mut Vec<Fact>) -> (res: Vec<
        Vec<Fact>,
    >)
        requires
            self.wf(),
            facts_in(self@.variables, conditions@),
            list_in(self@.variables, old(active)@),
        ensures
            final(active)@ == old(active)@,
            (clauses(res@), memo_of(final(memo)@)) == body_support(
                self@,
                conditions@,
                0,
                seq![Seq::empty()],
                memo_of(old(memo)@),
                active_of(old(active)@),
            ),
        decreases room(self@, active_of(old(active)@)), 1nat, 0nat,
    {
        let ghost t = self@;
        let ghost memo0 = memo_of(memo@);
        let mut acc: Vec<Vec<Fact>> = Vec::new();
        acc.push(Vec::new());
        assert(acc@[0]@ =~= Seq::<Fact>::empty());
        assert(clauses(acc@) =~= seq![Seq::<Fact>::empty()]);
        let mut c: usize = 0;
        while c < conditions.len()
            invariant
                t == self@,
                t.wf(),
                facts_in(t.variables, conditions@),
                list_in(t.variables, active@),
                active@ == old(active)@,
                memo0 == memo_of(old(memo)@),
                c <= conditions@.len(),
                body_support(t, conditions@, 0, seq![Seq::empty()], memo0, active_of(active@)) == body_support(
                    t,
                    conditions@,
                    c as nat,
                    clauses(acc@),
                    memo_of(memo@),
                    active_of(active@),
                ),
            decreases conditions@.len() - c,
        {
            assert(fact_in(t.variables, conditions@[c as int]));
            let found = self.support_fact(conditions[c], memo, active);
            acc = and_dnf(&acc, &found);
            c = c + 1;
        }
        acc
    }
}

// ---------------------------------------------------------------------------
// Supports speak of base facts only
// ---------------------------------------------------------------------------

/// Every fact of the clause exists and is not derived, and no variable is asked for two
/// values.
pub open spec fn base_clause(t: TaskView, c: Seq<Fact>) -> bool {
    &&& forall|j: int| 0 <= j < c.len() ==> fact_in(t.variables, #[trigger] c[j]) && !t.derived(c[j].variable as int)
    &&& consistent(c)
}

pub open spec fn base_clauses(t: TaskView, l: Seq<Seq<Fact>>) -> bool {
    forall|i: int| 0 <= i < l.len() ==> base_clause(t, #[trigger] l[i])
}

spec fn base_memo(t: TaskView, memo: Memo) -> bool {
    forall|f: Fact| #[trigger] memo.dom().contains(f) ==> base_clauses(t, memo[f])
}

proof fn lemma_base_ascending(t: TaskView, c: Seq<Fact>)
    requires
        base_clause(t, c),
    ensures
        base_clause(t, ascending(c)),
{
    let r = ascending(c);
    assert forall|j: int| 0 <= j < r.len() implies fact_in(t.variables, #[trigger] r[j]) && !t.derived(r[j].variable as int) by {
        lemma_ascending_contains(c, r[j]);
        assert(r.contains(r[j]));
        let k = choose|k: int| 0 <= k < c.len() && c[k] == r[j];
        assert(fact_in(t.variables, c[k]));
    }
    assert forall|i: int, j: int|
        0 <= i < r.len() && 0 <= j < r.len() && (#[trigger] r[i]).variable == (#[trigger] r[j]).variable implies r[i].value == r[j].value by {
        lemma_ascending_contains(c, r[i]);
        lemma_ascending_contains(c, r[j]);
        assert(r.contains(r[i]) && r.contains(r[j]));
        let k = choose|k: int| 0 <= k < c.len() && c[k] == r[i];
        let m = choose|m: int| 0 <= m < c.len() && c[m] == r[j];
        assert(c[k].variable == c[m].variable);
    }
}

proof fn lemma_base_insert(t: TaskView, l: Seq<Seq<Fact>>, c: Seq<Fact>)
    requires
        base_clauses(t, l),
        base_clause(t, c),
    ensures
        base_clauses(t, insert_clause(l, c)),
{
    let r = insert_clause(l, c);
    assert forall|i: int| 0 <= i < r.len() implies base_clause(t, #[trigger] r[i]) by {
        lemma_insert_clause_contains(l, c, r[i]);
        assert(r.contains(r[i]));
        if r[i] != c {
            let k = choose|k: int| 0 <= k < l.len() && l[k] == r[i];
            assert(base_clause(t, l[k]));
        }
    }
}

proof fn lemma_base_normalized(t: TaskView, l: Seq<Seq<Fact>>)
    requires
        base_clauses(t, l),
    ensures
        base_clauses(t, normalized(l)),
    decreases l.len(),
{
    if l.len() > 0 {
        assert forall|i: int| 0 <= i < l.drop_last().len() implies base_clause(t, #[trigger] l.drop_last()[i]) by {
            assert(l.drop_last()[i] == l[i]);
        }
        lemma_base_normalized(t, l.drop_last());
        assert(base_clause(t, l[l.len() - 1]));
        lemma_base_ascending(t, l.last());
        lemma_base_insert(t, normalized(l.drop_last()), ascending(l.last()));
    }
}

proof fn lemma_base_concat(t: TaskView, a: Seq<Seq<Fact>>, b: Seq<Seq<Fact>>)
    requires
        base_clauses(t, a),
        base_clauses(t, b),
    ensures
        base_clauses(t, a + b),
{
    assert forall|i: int| 0 <= i < (a + b).len() implies base_clause(t, #[trigger] (a + b)[i]) by {
        if i < a.len() {
            assert(base_clause(t, a[i]));
        } else {
            assert(base_clause(t, b[i - a.len()]));
        }
    }
}

proof fn lemma_base_and_row(t: TaskView, lhs: Seq<Fact>, right: Seq<Seq<Fact>>, n: nat, acc: Seq<Seq<Fact>>)
    requires
        base_clause(t, lhs),
        base_clauses(t, right),
        base_clauses(t, acc),
        n <= right.len(),
    ensures
        base_clauses(t, and_row(lhs, right, n, acc)),
    decreases n,
{
    if n > 0 {
        lemma_base_and_row(t, lhs, right, (n - 1) as nat, acc);
        let both = lhs + right[n - 1];
        assert(base_clause(t, right[n - 1]));
        if consistent(both) {
            assert(base_clause(t, both)) by {
                assert forall|j: int| 0 <= j < both.len() implies fact_in(t.variables, #[trigger] both[j]) && !t.derived(
                    both[j].variable as int,
                ) by {
                    if j < lhs.len() {
                        assert(fact_in(t.variables, lhs[j]));
                    } else {
                        assert(fact_in(t.variables, right[n - 1][j - lhs.len()]));
                    }
                }
            }
            lemma_base_ascending(t, both);
            lemma_base_insert(t, and_row(lhs, right, (n - 1) as nat, acc), ascending(both));
        }
    }
}

proof fn lemma_base_and(t: TaskView, left: Seq<Seq<Fact>>, m: nat, right: Seq<Seq<Fact>>)
    requires
        base_clauses(t, left),
        base_clauses(t, right),
        m <= left.len(),
    ensures
        base_clauses(t, and_rows(left, m, right)),
    decreases m,
{
    if m > 0 {
        lemma_base_and(t, left, (m - 1) as nat, right);
        assert(base_clause(t, left[m - 1]));
        lemma_base_and_row(t, left[m - 1], right, right.len(), and_rows(left, (m - 1) as nat, right));
    }
}

proof fn lemma_base_support(t: TaskView, fact: Fact, memo: Memo, active: Set<Fact>)
    requires
        t.wf(),
        sizes_fit(t.variables),
        fact_in(t.variables, fact),
        base_memo(t, memo),
    ensures
        base_clauses(t, support(t, fact, memo, active).0),
        base_memo(t, support(t, fact, memo, active).1),
    decreases room(t, active), 0nat, 0nat, 0nat,
{
    if memo.dom().contains(fact) {
    } else if !t.derived(fact.variable as int) {
        assert(base_clause(t, seq![fact]));
    } else if active.contains(fact) || !active.finite() || room(t, active) == 0 {
    } else {
        let after = active.insert(fact);
        let start = seq![Seq::<Fact>::empty()];
        assert(base_clauses(t, start));
        if fact.value == t.default_of(fact.variable as int) {
            lemma_base_default(t, fact, 0, start, memo, after);
            lemma_base_normalized(t, default_support(t, fact, 0, start, memo, after).0);
        } else {
            lemma_base_value(t, fact, 0, Seq::empty(), memo, after);
            let bodies = value_support(t, fact, 0, Seq::empty(), memo, after).0;
            lemma_base_normalized(t, bodies);
            lemma_base_normalized(t, normalized(bodies));
        }
    }
}

proof fn lemma_base_default(t: TaskView, fact: Fact, i: nat, acc: Seq<Seq<Fact>>, memo: Memo, active: Set<Fact>)
    requires
        t.wf(),
        sizes_fit(t.variables),
        base_clauses(t, acc),
        base_memo(t, memo),
    ensures
        base_clauses(t, default_support(t, fact, i, acc, memo, active).0),
        base_memo(t, default_support(t, fact, i, acc, memo, active).1),
    decreases room(t, active), 2nat, t.axioms.len() - i, 0nat,
{
    if i < t.axioms.len() {
        let rule = t.axioms[i as int];
        assert(axiom_in(t.variables, rule));
        if rule.variable == fact.variable && rule.post != t.default_of(fact.variable as int) {
            lemma_base_falsity(t, rule.conditions, 0, 0, Seq::empty(), memo, active);
            let (no, after) = falsity(t, rule.conditions, 0, 0, Seq::empty(), memo, active);
            lemma_base_and(t, acc, acc.len(), no);
            lemma_base_default(t, fact, i + 1, and_clauses(acc, no), after, active);
        } else {
            lemma_base_default(t, fact, i + 1, acc, memo, active);
        }
    }
}

proof fn lemma_base_falsity(
    t: TaskView,
    conditions: Seq<Fact>,
    c: nat,
    v: nat,
    acc: Seq<Seq<Fact>>,
    memo: Memo,
    active: Set<Fact>,
)
    requires
        t.wf(),
        sizes_fit(t.variables),
        facts_in(t.variables, conditions),
        base_clauses(t, acc),
        base_memo(t, memo),
    ensures
        base_clauses(t, falsity(t, conditions, c, v, acc, memo, active).0),
        base_memo(t, falsity(t, conditions, c, v, acc, memo, active).1),
    decreases room(t, active), 1nat, conditions.len() - c, t.variables[conditions[c as int].variable as int].values.len() - v,
{
    if c < conditions.len() {
        let variable = conditions[c as int].variable;
        assert(fact_in(t.variables, conditions[c as int]));
        assert(t.variables[variable as int].values.len() <= usize::MAX);
        if v >= t.variables[variable as int].values.len() {
            lemma_base_falsity(t, conditions, c + 1, 0, acc, memo, active);
        } else if v == conditions[c as int].value {
            lemma_base_falsity(t, conditions, c, v + 1, acc, memo, active);
        } else {
            let other = Fact { variable, value: v as usize };
            lemma_base_support(t, other, memo, active);
            let (found, after) = support(t, other, memo, active);
            lemma_base_concat(t, acc, found);
            lemma_base_falsity(t, conditions, c, v + 1, acc + found, after, active);
        }
    }
}

proof fn lemma_base_value(t: TaskView, fact: Fact, i: nat, acc: Seq<Seq<Fact>>, memo: Memo, active: Set<Fact>)
    requires
        t.wf(),
        sizes_fit(t.variables),
        base_clauses(t, acc),
        base_memo(t, memo),
    ensures
        base_clauses(t, value_support(t, fact, i, acc, memo, active).0),
        base_memo(t, value_support(t, fact, i, acc, memo, active).1),
    decreases room(t, active), 2nat, t.axioms.len() - i, 0nat,
{
    if i < t.axioms.len() {
        let rule = t.axioms[i as int];
        assert(axiom_in(t.variables, rule));
        if rule.variable == fact.variable && rule.post == fact.value {
            let start = seq![Seq::<Fact>::empty()];
            assert(base_clauses(t, start));
            lemma_base_body(t, rule.conditions, 0, start, memo, active);
            let (body, after) = body_support(t, rule.conditions, 0, start, memo, active);
            lemma_base_concat(t, acc, body);
            lemma_base_value(t, fact, i + 1, acc + body, after, active);
        } else {
            lemma_base_value(t, fact, i + 1, acc, memo, active);
        }
    }
}

proof fn lemma_base_body(t: TaskView, conditions: Seq<Fact>, c: nat, acc: Seq<Seq<Fact>>, memo: Memo, active: Set<Fact>)
    requires
        t.wf(),
        sizes_fit(t.variables),
        facts_in(t.variables, conditions),
        base_clauses(t, acc),
        base_memo(t, memo),
    ensures
        base_clauses(t, body_support(t, conditions, c, acc, memo, active).0),
        base_memo(t, body_support(t, conditions, c, acc, memo, active).1),
    decreases room(t, active), 1nat, conditions.len() - c, 0nat,
{
    if c < conditions.len() {
        assert(fact_in(t.variables, conditions[c as int]));
        lemma_base_support(t, conditions[c as int], memo, active);
        let (found, after) = support(t, conditions[c as int], memo, active);
        lemma_base_and(t, acc, acc.len(), found);
        lemma_base_body(t, conditions, c + 1, and_clauses(acc, found), after, active);
    }
}

/// The supports of a fact speak of existing facts over variables that are not
/// derived, and of no others.
pub proof fn supports_are_base_facts(task: &Task, fact: Fact)
    requires
        task.wf(),
        fact_in(task@.variables, fact),
    ensures
        base_clauses(task@, supports_of(task@, fact)),
{
    lemma_sizes(task);
    lemma_supports_base(task@, fact);
}

/// The supports of a fact speak of base facts.
pub(crate) proof fn lemma_supports_base(t: TaskView, fact: Fact)
    requires
        t.wf(),
        fact_in(t.variables, fact),
        t.variables.len() <= usize::MAX,
        forall|v: int| 0 <= v < t.variables.len() ==> #[trigger] t.variables[v].values.len() <= usize::MAX,
    ensures
        base_clauses(t, supports_of(t, fact)),
{
    lemma_base_support(t, fact, Map::empty(), Set::empty());
}

} // verus!
