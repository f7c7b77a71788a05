//! A minimal finite-domain (FDR / SAS+) task representation over boolean facts,
//! and its encoder.
//!
//! Every ground fact becomes its own two-valued variable (`Atom <name>` = value
//! 0 = true, `NegatedAtom <name>` = value 1 = false), without mutex groups.
use vstd::prelude::*;

use crate::names::{copy_names, find_name, position_of, spellings};
use crate::text::{copy_vec, decimal, push_number};

verus! {

/// A ground effect: set `fact` to `value` when all `cond` facts hold as given.
/// An empty `cond` is an unconditional effect.
#[derive(Debug)]
pub struct GroundEffect {
    pub cond: Vec<(usize, bool)>,
    pub fact: usize,
    pub value: bool,
}

/// A ground operator: a conjunctive precondition and a set of (optionally
/// conditional) effects over boolean facts.
#[derive(Debug)]
pub struct GroundOp {
    pub name: String,
    /// Precondition: each `(fact, required-truth)`.
    pub pre: Vec<(usize, bool)>,
    pub effects: Vec<GroundEffect>,
}

/// A ground finite-domain task over boolean facts.
#[derive(Debug)]
pub struct GroundTask {
    facts: Vec<String>,
    init: Vec<bool>,
    goal: Vec<(usize, bool)>,
    ops: Vec<GroundOp>,
}

#[verifier::ext_equal]
pub struct GroundEffectView {
    pub cond: Seq<(usize, bool)>,
    pub fact: usize,
    pub value: bool,
}

#[verifier::ext_equal]
pub struct GroundOpView {
    pub name: Seq<char>,
    pub pre: Seq<(usize, bool)>,
    pub effects: Seq<GroundEffectView>,
}

#[verifier::ext_equal]
pub struct GroundTaskView {
    /// Fact names, by fact id.
    pub facts: Seq<Seq<char>>,
    /// Initial truth values, by fact id.
    pub init: Seq<bool>,
    /// Goal: each `(fact, required-truth)`.
    pub goal: Seq<(usize, bool)>,
    pub ops: Seq<GroundOpView>,
}

impl View for GroundEffect {
    type V = GroundEffectView;

    open spec fn view(&self) -> GroundEffectView {
        GroundEffectView { cond: self.cond@, fact: self.fact, value: self.value }
    }
}

pub open spec fn ground_effects(v: Seq<GroundEffect>) -> Seq<GroundEffectView> {
    v.map_values(|e: GroundEffect| e@)
}

impl View for GroundOp {
    type V = GroundOpView;

    open spec fn view(&self) -> GroundOpView {
        GroundOpView { name: self.name@, pre: self.pre@, effects: ground_effects(self.effects@) }
    }
}

pub open spec fn ground_ops(v: Seq<GroundOp>) -> Seq<GroundOpView> {
    v.map_values(|o: GroundOp| o@)
}

pub open spec fn fact_names(v: Seq<String>) -> Seq<Seq<char>> {
    v.map_values(|s: String| s@)
}

impl View for GroundTask {
    type V = GroundTaskView;

    closed spec fn view(&self) -> GroundTaskView {
        GroundTaskView { facts: fact_names(self.facts@), init: self.init@, goal: self.goal@, ops: ground_ops(self.ops@) }
    }
}

impl GroundTaskView {
    /// Every fact has an initial truth value.
    pub open spec fn wf(self) -> bool {
        self.facts.len() == self.init.len()
    }
}

// ---------------------------------------------------------------------------
// The encoding
// ---------------------------------------------------------------------------

/// The value of a boolean variable: 0 = Atom (true), 1 = NegatedAtom (false).
pub open spec fn truth_value(truth: bool) -> nat {
    if truth {
        0
    } else {
        1
    }
}

/// A fact and its value.
pub open spec fn fact_line(f: (usize, bool)) -> Seq<char> {
    decimal(f.0 as nat) + " "@ + decimal(truth_value(f.1)) + "\n"@
}

/// The first `n` facts, one to a line.
pub open spec fn fact_lines(facts: Seq<(usize, bool)>, n: nat) -> Seq<char>
    decreases n,
{
    if n == 0 {
        Seq::empty()
    } else {
        fact_lines(facts, (n - 1) as nat) + fact_line(facts[n - 1])
    }
}

/// Some effect assigns the fact.
pub open spec fn is_affected(effects: Seq<GroundEffectView>, fact: usize) -> bool {
    exists|i: int| 0 <= i < effects.len() && (#[trigger] effects[i]).fact == fact
}

/// The first `n` preconditions on facts that the operator does not assign.
pub open spec fn prevail_of(o: GroundOpView, n: nat) -> Seq<(usize, bool)>
    decreases n,
{
    if n == 0 {
        Seq::empty()
    } else {
        let before = prevail_of(o, (n - 1) as nat);
        if is_affected(o.effects, o.pre[n - 1].0) {
            before
        } else {
            before.push(o.pre[n - 1])
        }
    }
}

/// The truth that the first `n` preconditions require of the fact; the last one counts.
pub open spec fn required_truth(pre: Seq<(usize, bool)>, fact: usize, n: nat) -> Option<bool>
    decreases n,
{
    if n == 0 {
        None
    } else if pre[n - 1].0 == fact {
        Some(pre[n - 1].1)
    } else {
        required_truth(pre, fact, (n - 1) as nat)
    }
}

/// The first `n` conditions of an effect, each after a space.
pub open spec fn condition_text(cond: Seq<(usize, bool)>, n: nat) -> Seq<char>
    decreases n,
{
    if n == 0 {
        Seq::empty()
    } else {
        condition_text(cond, (n - 1) as nat) + " "@ + decimal(cond[n - 1].0 as nat) + " "@ + decimal(truth_value(cond[n - 1].1))
    }
}

/// The required old value of the fact, or -1.
pub open spec fn old_value_text(o: GroundOpView, fact: usize) -> Seq<char> {
    match required_truth(o.pre, fact, o.pre.len()) {
        Some(truth) => decimal(truth_value(truth)),
        None => "-1"@,
    }
}

/// An effect: its conditions, the variable, its old value and its new value.
pub open spec fn effect_line(o: GroundOpView, e: GroundEffectView) -> Seq<char> {
    decimal(e.cond.len()) + condition_text(e.cond, e.cond.len()) + " "@ + decimal(e.fact as nat) + " "@ + old_value_text(o, e.fact) + " "@
        + decimal(truth_value(e.value)) + "\n"@
}

pub open spec fn effect_lines(o: GroundOpView, n: nat) -> Seq<char>
    decreases n,
{
    if n == 0 {
        Seq::empty()
    } else {
        effect_lines(o, (n - 1) as nat) + effect_line(o, o.effects[n - 1])
    }
}

/// An operator of unit cost.
pub open spec fn op_text(o: GroundOpView) -> Seq<char> {
    let prevail = prevail_of(o, o.pre.len());
    "begin_operator\n"@ + o.name + "\n"@ + decimal(prevail.len()) + "\n"@ + fact_lines(prevail, prevail.len()) + decimal(o.effects.len())
        + "\n"@ + effect_lines(o, o.effects.len()) + "1\nend_operator\n"@
}

pub open spec fn op_texts(ops: Seq<GroundOpView>, n: nat) -> Seq<char>
    decreases n,
{
    if n == 0 {
        Seq::empty()
    } else {
        op_texts(ops, (n - 1) as nat) + op_text(ops[n - 1])
    }
}

/// A binary variable.
pub open spec fn variable_text(i: nat, name: Seq<char>) -> Seq<char> {
    "begin_variable\nvar"@ + decimal(i) + "\n-1\n2\nAtom "@ + name + "\nNegatedAtom "@ + name + "\nend_variable\n"@
}

pub open spec fn variable_texts(facts: Seq<Seq<char>>, n: nat) -> Seq<char>
    decreases n,
{
    if n == 0 {
        Seq::empty()
    } else {
        variable_texts(facts, (n - 1) as nat) + variable_text((n - 1) as nat, facts[n - 1])
    }
}

pub open spec fn state_lines(init: Seq<bool>, n: nat) -> Seq<char>
    decreases n,
{
    if n == 0 {
        Seq::empty()
    } else {
        state_lines(init, (n - 1) as nat) + decimal(truth_value(init[n - 1])) + "\n"@
    }
}

/// The task in format version 3, without a metric, mutex groups or axioms.
pub open spec fn sas_text(t: GroundTaskView) -> Seq<char> {
    "begin_version\n3\nend_version\nbegin_metric\n0\nend_metric\n"@ + decimal(t.facts.len()) + "\n"@ + variable_texts(
        t.facts,
        t.facts.len(),
    ) + "0\nbegin_state\n"@ + state_lines(t.init, t.init.len()) + "end_state\nbegin_goal\n"@ + decimal(t.goal.len()) + "\n"@ + fact_lines(
        t.goal,
        t.goal.len(),
    ) + "end_goal\n"@ + decimal(t.ops.len()) + "\n"@ + op_texts(t.ops, t.ops.len()) + "0\n"@
}

fn push_truth(out: &mut String, truth: bool)
    ensures
        final(out)@ == old(out)@ + decimal(truth_value(truth)),
{
    push_number(
        out,
        if truth {
            0
        } else {
            1
        },
    );
}

fn push_facts(out: &mut String, facts: &Vec<(usize, bool)>)
    ensures
        final(out)@ == old(out)@ + fact_lines(facts@, facts@.len()),
{
    let ghost start = out@;
    let mut i: usize = 0;
    assert(start + fact_lines(facts@, 0) =~= start);
    while i < facts.len()
        invariant
            i <= facts@.len(),
            start == old(out)@,
            out@ == start + fact_lines(facts@, i as nat),
        decreases facts@.len() - i,
    {
        let (fact, truth) = facts[i];
        push_number(out, fact as u128);
        out.append(" ");
        push_truth(out, truth);
        out.append("\n");
        assert(out@ =~= start + fact_lines(facts@, (i + 1) as nat));
        i = i + 1;
    }
}

impl GroundOp {
    /// Whether some effect assigns the fact.
    fn affects(&self, fact: usize) -> (res: bool)
        ensures
            res == is_affected(self@.effects, fact),
    {
        let mut i: usize = 0;
        while i < self.effects.len()
            invariant
                i <= self.effects@.len(),
                forall|k: int| 0 <= k < i ==> (#[trigger] self@.effects[k]).fact != fact,
            decreases self.effects@.len() - i,
        {
            assert(self@.effects[i as int] == self.effects@[i as int]@);
            if self.effects[i].fact == fact {
                return true;
            }
            i = i + 1;
        }
        false
    }

    /// The truth that the precondition requires of the fact.
    fn required(&self, fact: usize) -> (res: Option<bool>)
        ensures
            res == required_truth(self@.pre, fact, self@.pre.len()),
    {
        let mut res: Option<bool> = None;
        let mut i: usize = 0;
        while i < self.pre.len()
            invariant
                i <= self.pre@.len(),
                res == required_truth(self.pre@, fact, i as nat),
            decreases self.pre@.len() - i,
        {
            let (f, truth) = self.pre[i];
            if f == fact {
                res = Some(truth);
            }
            i = i + 1;
        }
        res
    }

    /// Appends an effect of the operator.
    #[verifier::rlimit(30)]
    fn push_effect(&self, e: &GroundEffect, out: &mut String)
        ensures
            final(out)@ == old(out)@ + effect_line(self@, e@),
    {
        let ghost o = self@;
        let ghost ev = e@;
        let ghost before = out@;
        push_number(out, e.cond.len() as u128);
        let ghost first = out@;
        let mut k: usize = 0;
        assert(first + condition_text(ev.cond, 0) =~= first);
        while k < e.cond.len()
            invariant
                ev == e@,
                k <= ev.cond.len(),
                out@ == first + condition_text(ev.cond, k as nat),
            decreases ev.cond.len() - k,
        {
            let (fact, truth) = e.cond[k];
            out.append(" ");
            push_number(out, fact as u128);
            out.append(" ");
            push_truth(out, truth);
            assert(out@ =~= first + condition_text(ev.cond, (k + 1) as nat));
            k = k + 1;
        }
        let ghost a = decimal(ev.cond.len()) + condition_text(ev.cond, ev.cond.len());
        assert(out@ =~= before + a);
        out.append(" ");
        push_number(out, e.fact as u128);
        out.append(" ");
        let ghost b = a + " "@ + decimal(ev.fact as nat) + " "@;
        assert(out@ =~= before + b);
        match self.required(e.fact) {
            Some(truth) => push_truth(out, truth),
            None => out.append("-1"),
        }
        let ghost c = b + old_value_text(o, ev.fact);
        assert(out@ =~= before + c);
        out.append(" ");
        push_truth(out, e.value);
        out.append("\n");
        assert(out@ =~= before + (c + " "@ + decimal(truth_value(ev.value)) + "\n"@));
    }

    /// Appends the operator.
    fn push_sas(&self, out: &mut String)
        ensures
            final(out)@ == old(out)@ + op_text(self@),
    {
        let ghost o = self@;
        let ghost start = out@;
        let mut prevail: Vec<(usize, bool)> = Vec::new();
        let mut i: usize = 0;
        while i < self.pre.len()
            invariant
                o == self@,
                i <= o.pre.len(),
                prevail@ == prevail_of(o, i as nat),
            decreases o.pre.len() - i,
        {
            let p = self.pre[i];
            if !self.affects(p.0) {
                prevail.push(p);
            }
            i = i + 1;
        }
        out.append("begin_operator\n");
        out.append(self.name.as_str());
        out.append("\n");
        push_number(out, prevail.len() as u128);
        out.append("\n");
        push_facts(out, &prevail);
        push_number(out, self.effects.len() as u128);
        out.append("\n");
        let ghost head = out@;
        let mut i: usize = 0;
        assert(head + effect_lines(o, 0) =~= head);
        while i < self.effects.len()
            invariant
                o == self@,
                i <= o.effects.len(),
                out@ == head + effect_lines(o, i as nat),
            decreases o.effects.len() - i,
        {
            let e = &self.effects[i];
            assert(o.effects[i as int] == e@);
            self.push_effect(e, out);
            assert(out@ =~= head + effect_lines(o, (i + 1) as nat));
            i = i + 1;
        }
        out.append("1\nend_operator\n");
        assert(out@ =~= start + op_text(o));
    }
}

fn copy_ground_effects(es: &Vec<GroundEffect>) -> (res: Vec<GroundEffect>)
    ensures
        ground_effects(res@) == ground_effects(es@),
{
    let mut res: Vec<GroundEffect> = Vec::new();
    let mut i: usize = 0;
    while i < es.len()
        invariant
            i <= es@.len(),
            res@.len() == i,
            forall|k: int| 0 <= k < i ==> (#[trigger] res@[k])@ == es@[k]@,
        decreases es@.len() - i,
    {
        let e = GroundEffect { cond: copy_vec(&es[i].cond), fact: es[i].fact, value: es[i].value };
        assert(e@ == es@[i as int]@);
        res.push(e);
        i = i + 1;
    }
    assert(ground_effects(res@) =~= ground_effects(es@));
    res
}

fn copy_ops(ops: &Vec<GroundOp>) -> (res: Vec<GroundOp>)
    ensures
        ground_ops(res@) == ground_ops(ops@),
{
    let mut res: Vec<GroundOp> = Vec::new();
    let mut i: usize = 0;
    while i < ops.len()
        invariant
            i <= ops@.len(),
            res@.len() == i,
            forall|k: int| 0 <= k < i ==> (#[trigger] res@[k])@ == ops@[k]@,
        decreases ops@.len() - i,
    {
        let o = GroundOp {
            name: ops[i].name.clone(),
            pre: copy_vec(&ops[i].pre),
            effects: copy_ground_effects(&ops[i].effects),
        };
        assert(o@ == ops@[i as int]@);
        res.push(o);
        i = i + 1;
    }
    assert(ground_ops(res@) =~= ground_ops(ops@));
    res
}

impl GroundTask {
    pub fn new() -> (res: Self)
        ensures
            res@.wf(),
            res@.facts.len() == 0,
            res@.goal.len() == 0,
            res@.ops.len() == 0,
    {
        GroundTask { facts: Vec::new(), init: Vec::new(), goal: Vec::new(), ops: Vec::new() }
    }

    /// The fact of a name; the first one.
    pub fn find_fact(&self, name: &str) -> (res: Option<usize>)
        ensures
            match position_of(self@.facts, name@) {
                Some(i) => res matches Some(k) && k == i,
                None => res is None,
            },
    {
        assert(spellings(self.facts@) =~= self@.facts);
        find_name(&self.facts, name)
    }

    pub fn clone(&self) -> (res: Self)
        ensures
            res@ == self@,
    {
        let res = GroundTask {
            facts: copy_names(&self.facts),
            init: copy_vec(&self.init),
            goal: copy_vec(&self.goal),
            ops: copy_ops(&self.ops),
        };
        assert(spellings(self.facts@) =~= self@.facts);
        assert(spellings(res.facts@) =~= res@.facts);
        assert(res@ =~= self@);
        res
    }

    /// Adds a fact, returning its id. `init` is its initial truth.
    pub fn add_fact(&mut self, name: String, init: bool) -> (id: usize)
        ensures
            id == old(self)@.facts.len(),
            final(self)@ == (GroundTaskView { facts: old(self)@.facts.push(name@), init: old(self)@.init.push(init), ..old(self)@ }),
    {
        let ghost before = self@;
        let id = self.facts.len();
        self.facts.push(name);
        self.init.push(init);
        assert(self@ =~= GroundTaskView { facts: before.facts.push(name@), init: before.init.push(init), ..before });
        id
    }

    pub fn set_init(&mut self, fact: usize, value: bool)
        requires
            fact < old(self)@.init.len(),
        ensures
            final(self)@ == (GroundTaskView { init: old(self)@.init.update(fact as int, value), ..old(self)@ }),
    {
        self.init.set(fact, value);
    }

    pub fn add_goal(&mut self, fact: usize, value: bool)
        ensures
            final(self)@ == (GroundTaskView { goal: old(self)@.goal.push((fact, value)), ..old(self)@ }),
    {
        self.goal.push((fact, value));
    }

    pub fn add_op(&mut self, op: GroundOp)
        ensures
            final(self)@ == (GroundTaskView { ops: old(self)@.ops.push(op@), ..old(self)@ }),
    {
        let ghost before = self@;
        self.ops.push(op);
        assert(self@ =~= GroundTaskView { ops: before.ops.push(op@), ..before });
    }

    /// Adds preconditions to an operator (used to fold causal-link guards into
    /// the operators of the original actions).
    pub fn guard_op(&mut self, index: usize, fact: usize, value: bool)
        requires
            index < old(self)@.ops.len(),
        ensures
            final(self)@ == (GroundTaskView {
                ops: old(self)@.ops.update(
                    index as int,
                    GroundOpView { pre: old(self)@.ops[index as int].pre.push((fact, value)), ..old(self)@.ops[index as int] },
                ),
                ..old(self)@
            }),
    {
        let ghost before = self@;
        let ghost op = before.ops[index as int];
        self.ops[index].pre.push((fact, value));
        assert(self.ops@[index as int]@ =~= GroundOpView { pre: op.pre.push((fact, value)), ..op });
        assert(self@.ops =~= before.ops.update(index as int, GroundOpView { pre: op.pre.push((fact, value)), ..op }));
    }

    pub fn num_facts(&self) -> (res: usize)
        ensures
            res == self@.facts.len(),
    {
        self.facts.len()
    }

    /// Initial truth of every fact, by fact id.
    pub fn init(&self) -> (res: &Vec<bool>)
        ensures
            res@ == self@.init,
    {
        &self.init
    }

    /// Goal as `(fact, required-truth)` pairs.
    pub fn goal(&self) -> (res: &Vec<(usize, bool)>)
        ensures
            res@ == self@.goal,
    {
        &self.goal
    }

    pub fn ops(&self) -> (res: &Vec<GroundOp>)
        ensures
            ground_ops(res@) == self@.ops,
    {
        &self.ops
    }

    /// Mutable access to the operators.
    pub fn ops_mut(&mut self) -> (res: &mut Vec<GroundOp>)
        ensures
            ground_ops(res@) == old(self)@.ops,
            final(self)@ == (GroundTaskView { ops: ground_ops(final(res)@), ..old(self)@ }),
    {
        &mut self.ops
    }

    pub fn num_ops(&self) -> (res: usize)
        ensures
            res == self@.ops.len(),
    {
        self.ops.len()
    }

    /// Encodes the task as an all-binary SAS+ text (format version 3).
    pub fn to_sas(&self) -> (res: String)
        ensures
            res@ == sas_text(self@),
    {
        let ghost t = self@;
        let mut s = String::from_str("begin_version\n3\nend_version\nbegin_metric\n0\nend_metric\n");
        push_number(&mut s, self.facts.len() as u128);
        s.append("\n");
        let ghost head = s@;
        let mut i: usize = 0;
        assert(head + variable_texts(t.facts, 0) =~= head);
        while i < self.facts.len()
            invariant
                t == self@,
                i <= t.facts.len(),
                s@ == head + variable_texts(t.facts, i as nat),
            decreases t.facts.len() - i,
        {
            assert(t.facts[i as int] == self.facts@[i as int]@);
            let ghost before = s@;
            s.append("begin_variable\nvar");
            push_number(&mut s, i as u128);
            s.append("\n-1\n2\nAtom ");
            s.append(self.facts[i].as_str());
            s.append("\nNegatedAtom ");
            s.append(self.facts[i].as_str());
            s.append("\nend_variable\n");
            assert(s@ =~= before + variable_text(i as nat, t.facts[i as int]));
            assert(s@ =~= head + variable_texts(t.facts, (i + 1) as nat));
            i = i + 1;
        }
        s.append("0\nbegin_state\n");
        let ghost mid = s@;
        let mut i: usize = 0;
        assert(mid + state_lines(t.init, 0) =~= mid);
        while i < self.init.len()
            invariant
                t == self@,
                i <= t.init.len(),
                s@ == mid + state_lines(t.init, i as nat),
            decreases t.init.len() - i,
        {
            push_truth(&mut s, self.init[i]);
            s.append("\n");
            assert(s@ =~= mid + state_lines(t.init, (i + 1) as nat));
            i = i + 1;
        }
        s.append("end_state\nbegin_goal\n");
        push_number(&mut s, self.goal.len() as u128);
        s.append("\n");
        push_facts(&mut s, &self.goal);
        s.append("end_goal\n");
        push_number(&mut s, self.ops.len() as u128);
        s.append("\n");
        let ghost tail = s@;
        let mut i: usize = 0;
        assert(tail + op_texts(t.ops, 0) =~= tail);
        while i < self.ops.len()
            invariant
                t == self@,
                i <= t.ops.len(),
                s@ == tail + op_texts(t.ops, i as nat),
            decreases t.ops.len() - i,
        {
            assert(t.ops[i as int] == self.ops@[i as int]@);
            self.ops[i].push_sas(&mut s);
            assert(s@ =~= tail + op_texts(t.ops, (i + 1) as nat));
            i = i + 1;
        }
        s.append("0\n");
        s
    }
}

} // verus!
