//! Relaxed plans: the facts they have and the actions that give them.
use vstd::prelude::*;

verus! {

/// How a relaxed plan gets a fact.
pub enum Means<X> {
    /// It holds already.
    Free,
    /// By an action, which needs these facts.
    By(int, Seq<X>),
    /// Not at all.
    Nothing,
}

/// Whether a fact is needed for fact `j` of a list.
pub open spec fn needs<X>(means: spec_fn(X) -> Means<X>, list: Seq<X>, j: int, a: X) -> bool {
    means(list[j]) matches Means::By(_, body) && body.contains(a)
}

/// Whether fact `i` of a list is a goal or needed for one before it.
pub open spec fn is_needed<X>(goals: Seq<X>, means: spec_fn(X) -> Means<X>, list: Seq<X>, i: int) -> bool {
    goals.contains(list[i]) || exists|j: int| 0 <= j < i && #[trigger] needs(means, list, j, list[i])
}

/// Whether every fact of a list is needed.
pub open spec fn all_needed<X>(goals: Seq<X>, means: spec_fn(X) -> Means<X>, list: Seq<X>) -> bool {
    forall|i: int| 0 <= i < list.len() ==> #[trigger] is_needed(goals, means, list, i)
}

/// Whether what a fact needs is listed, and its action.
pub open spec fn is_served<X>(means: spec_fn(X) -> Means<X>, list: Seq<X>, ops: Seq<usize>, a: X) -> bool {
    match means(a) {
        Means::Free => true,
        Means::By(op, body) => (exists|k: int| 0 <= k < ops.len() && #[trigger] ops[k] == op) && forall|k: int|
            0 <= k < body.len() ==> list.contains(#[trigger] body[k]),
        Means::Nothing => false,
    }
}

/// Whether an action gives some listed fact.
pub open spec fn is_chosen<X>(means: spec_fn(X) -> Means<X>, list: Seq<X>, op: usize) -> bool {
    exists|i: int| 0 <= i < list.len() && (means(#[trigger] list[i]) matches Means::By(o, _) && o == op)
}

/// The facts of a relaxed plan for the goals and its actions: it has the goals
/// and whatever a fact needs, nothing that is not needed, and the actions that
/// give its facts, each once.
pub open spec fn is_relaxed_plan<X>(goals: Seq<X>, means: spec_fn(X) -> Means<X>, list: Seq<X>, ops: Seq<usize>) -> bool {
    &&& forall|i: int| 0 <= i < goals.len() ==> list.contains(#[trigger] goals[i])
    &&& all_needed(goals, means, list)
    &&& forall|i: int| 0 <= i < list.len() ==> is_served(means, list, ops, #[trigger] list[i])
    &&& ops.no_duplicates()
    &&& forall|k: int| 0 <= k < ops.len() ==> is_chosen(means, list, #[trigger] ops[k])
}

/// Whether a fact is a goal or needed for a listed one.
pub open spec fn wanted<X>(goals: Seq<X>, means: spec_fn(X) -> Means<X>, list: Seq<X>, a: X) -> bool {
    goals.contains(a) || exists|j: int| 0 <= j < list.len() && #[trigger] needs(means, list, j, a)
}

pub proof fn lemma_longer<X>(goals: Seq<X>, means: spec_fn(X) -> Means<X>, list: Seq<X>, a: X)
    requires
        all_needed(goals, means, list),
        wanted(goals, means, list, a),
    ensures
        all_needed(goals, means, list.push(a)),
        forall|b: X| wanted(goals, means, list, b) ==> #[trigger] wanted(goals, means, list.push(a), b),
        forall|op: usize| is_chosen(means, list, op) ==> #[trigger] is_chosen(means, list.push(a), op),
        forall|b: X| list.contains(b) ==> #[trigger] list.push(a).contains(b),
        list.push(a).contains(a),
{
    let more = list.push(a);
    assert(more[list.len() as int] == a);
    assert forall|j: int, b: X| 0 <= j < list.len() implies needs(means, list, j, b) == #[trigger] needs(means, more, j, b) by {
        assert(more[j] == list[j]);
    }
    assert forall|i: int| 0 <= i < more.len() implies #[trigger] is_needed(goals, means, more, i) by {
        if i < list.len() {
            assert(is_needed(goals, means, list, i));
            assert(more[i] == list[i]);
            if !goals.contains(more[i]) {
                let j = choose|j: int| 0 <= j < i && #[trigger] needs(means, list, j, list[i]);
                assert(needs(means, more, j, more[i]));
            }
        } else if !goals.contains(a) {
            let j = choose|j: int| 0 <= j < list.len() && #[trigger] needs(means, list, j, a);
            assert(needs(means, more, j, more[i]));
        }
    }
    assert forall|b: X| wanted(goals, means, list, b) implies #[trigger] wanted(goals, means, more, b) by {
        if !goals.contains(b) {
            let j = choose|j: int| 0 <= j < list.len() && #[trigger] needs(means, list, j, b);
            assert(needs(means, more, j, b));
        }
    }
    assert forall|op: usize| is_chosen(means, list, op) implies #[trigger] is_chosen(means, more, op) by {
        let i = choose|i: int| 0 <= i < list.len() && (means(#[trigger] list[i]) matches Means::By(o, _) && o == op);
        assert(more[i] == list[i]);
    }
    assert forall|b: X| list.contains(b) implies #[trigger] more.contains(b) by {
        let i = choose|i: int| 0 <= i < list.len() && list[i] == b;
        assert(more[i] == b);
    }
}

/// Whether what a fact needs is listed or waiting, and its action noted.
pub open spec fn half_served<X>(means: spec_fn(X) -> Means<X>, list: Seq<X>, waiting: Seq<X>, ops: Seq<usize>, a: X) -> bool {
    match means(a) {
        Means::Free => true,
        Means::By(op, body) => (exists|k: int| 0 <= k < ops.len() && #[trigger] ops[k] == op) && forall|k: int|
            0 <= k < body.len() ==> list.contains(#[trigger] body[k]) || waiting.contains(body[k]),
        Means::Nothing => false,
    }
}

/// Notes an action once.
pub fn note(ops: &mut Vec<usize>, op: usize)
    requires
        old(ops)@.no_duplicates(),
    ensures
        final(ops)@.no_duplicates(),
        final(ops)@.contains(op),
        forall|k: int| 0 <= k < old(ops)@.len() ==> k < final(ops)@.len() && #[trigger] final(ops)@[k] == old(ops)@[k],
        forall|k: int| old(ops)@.len() <= k < final(ops)@.len() ==> #[trigger] final(ops)@[k] == op,
{
    let mut k: usize = 0;
    while k < ops.len()
        invariant
            ops@ == old(ops)@,
            ops@.no_duplicates(),
            k <= ops@.len(),
            forall|m: int| 0 <= m < k ==> ops@[m] != op,
        decreases ops@.len() - k,
    {
        if ops[k] == op {
            return;
        }
        k = k + 1;
    }
    ops.push(op);
    assert(ops@[ops@.len() - 1] == op);
}

} // verus!
