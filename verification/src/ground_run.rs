//! What it means to apply the operators of a ground task.
use vstd::prelude::*;

use crate::sas::{GroundOpView, GroundTaskView};

verus! {

/// Whether the facts have the given truth values.
pub open spec fn met(facts: Seq<(usize, bool)>, s: Seq<bool>) -> bool {
    forall|i: int| 0 <= i < facts.len() && (#[trigger] facts[i]).0 < s.len() ==> s[facts[i].0 as int] == facts[i].1
}

/// Whether an effect of an operator that is applied in a state gives a fact a value.
pub open spec fn brings(o: GroundOpView, s: Seq<bool>, f: int, value: bool) -> bool {
    exists|i: int| 0 <= i < o.effects.len() && (#[trigger] o.effects[i]).fact == f && o.effects[i].value == value && met(o.effects[i].cond, s)
}

/// The state after an operator; adding a fact wins over deleting it.
pub open spec fn successor(o: GroundOpView, s: Seq<bool>) -> Seq<bool> {
    Seq::new(
        s.len(),
        |f: int|
            if brings(o, s, f, true) {
                true
            } else if brings(o, s, f, false) {
                false
            } else {
                s[f]
            },
    )
}

/// Whether two effects of an operator that is applied in a state stand in each
/// other's way: they change one fact twice, or one deletes the true fact that the
/// other adds.
pub open spec fn clash(o: GroundOpView, s: Seq<bool>, i: int, j: int) -> bool {
    let a = o.effects[i];
    let b = o.effects[j];
    &&& a.fact == b.fact && a.fact < s.len()
    &&& met(a.cond, s) && met(b.cond, s)
    &&& s[a.fact as int] != (a.value && b.value)
}

/// Whether no two effects of an operator clash in a state.
pub open spec fn is_clear(o: GroundOpView, s: Seq<bool>) -> bool {
    forall|i: int, j: int| 0 <= i < j < o.effects.len() ==> !#[trigger] clash(o, s, i, j)
}

/// What happens at a time point: nothing, or an operator is applied.
pub open spec fn is_step(ops: Seq<GroundOpView>, act: Option<int>, s: Seq<bool>, after: Seq<bool>) -> bool {
    match act {
        None => after == s,
        Some(i) => 0 <= i < ops.len() && met(ops[i].pre, s) && after == successor(ops[i], s),
    }
}

/// Whether a sequence of operators, at most one to a time point, leads from the
/// initial state through the given states to the goal.
pub open spec fn is_run(t: GroundTaskView, acts: Seq<Option<int>>, states: Seq<Seq<bool>>) -> bool {
    &&& states.len() == acts.len() + 1
    &&& states[0] == t.init
    &&& forall|k: int| 0 <= k < acts.len() ==> is_step(t.ops, #[trigger] acts[k], states[k], states[k + 1])
    &&& met(t.goal, states[acts.len() as int])
}

/// Whether no effects clash where operators are applied.
pub open spec fn runs_clear(t: GroundTaskView, acts: Seq<Option<int>>, states: Seq<Seq<bool>>) -> bool {
    forall|k: int| 0 <= k < acts.len() ==> is_clear_at(t.ops, #[trigger] acts[k], states[k])
}

/// Whether no effects of what happens at a time point clash.
pub open spec fn is_clear_at(ops: Seq<GroundOpView>, act: Option<int>, s: Seq<bool>) -> bool {
    act matches Some(i) ==> is_clear(ops[i], s)
}

/// Every state of a run has a value for every fact.
pub proof fn lemma_sizes(t: GroundTaskView, acts: Seq<Option<int>>, states: Seq<Seq<bool>>, k: nat)
    requires
        is_run(t, acts, states),
        k <= acts.len(),
    ensures
        states[k as int].len() == t.init.len(),
    decreases k,
{
    if k > 0 {
        lemma_sizes(t, acts, states, (k - 1) as nat);
        assert(is_step(t.ops, acts[k - 1], states[k - 1], states[k - 1 + 1]));
    }
}

/// A fact whose value differs between two time points is changed in between, by an
/// operator that brings the new value.
pub proof fn lemma_turn(t: GroundTaskView, acts: Seq<Option<int>>, states: Seq<Seq<bool>>, f: int, a: int, b: int) -> (k: int)
    requires
        is_run(t, acts, states),
        0 <= f < t.init.len(),
        0 <= a <= b <= acts.len(),
        states[a][f] != states[b][f],
    ensures
        a <= k < b,
        acts[k] matches Some(i) && 0 <= i < t.ops.len() && met(t.ops[i].pre, states[k]) && brings(t.ops[i], states[k], f, states[b][f]),
    decreases b - a,
{
    lemma_sizes(t, acts, states, (b - 1) as nat);
    assert(is_step(t.ops, acts[b - 1], states[b - 1], states[b - 1 + 1]));
    if states[b - 1][f] == states[b][f] {
        lemma_turn(t, acts, states, f, a, b - 1)
    } else {
        b - 1
    }
}

} // verus!
