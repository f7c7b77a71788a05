//! A ground task that is written down reads back as the same task.
use vstd::prelude::*;

use crate::fdr::{fact_in, last_pre, last_value, required_value, AxiomView, EffectView, Fact, OperatorView, ParseErrorView, TaskView, VariableView};
use crate::fdr_text::{
    effect_conditions, effect_lines, effect_of_line, fact_line, fact_lines, goal_section, header, initial_lines, number_line, operator_block,
    operator_blocks, rule_sections, signed_field, state_section, task_of, value_lines, variable_block, variable_blocks, variable_section,
};
use crate::fdr_text_laws::lemma_split_joined;
use crate::sas::{
    condition_text, effect_line, is_affected, old_value_text, op_text, op_texts, prevail_of, required_truth, sas_text, state_lines, truth_value,
    variable_text, variable_texts, GroundEffectView, GroundOpView, GroundTaskView,
};
use crate::text::{
    decimal, decimal_reads_back, is_digit, lemma_decimal, lemma_find_char, lemma_word_end, lines, signed_value, split, trimmed, unsigned_value,
    white_space, word_end, words,
};

verus! {

/// Lines, each with its end.
pub open spec fn text_of(ls: Seq<Seq<char>>) -> Seq<char>
    decreases ls.len(),
{
    if ls.len() == 0 {
        Seq::empty()
    } else {
        text_of(ls.drop_last()) + ls.last() + "\n"@
    }
}

/// Whether a text has no line break.
pub open spec fn is_line(s: Seq<char>) -> bool {
    forall|i: int| 0 <= i < s.len() ==> #[trigger] s[i] != '\n'
}

pub open spec fn are_lines(ls: Seq<Seq<char>>) -> bool {
    forall|i: int| 0 <= i < ls.len() ==> is_line(#[trigger] ls[i])
}

proof fn lemma_text_push(ls: Seq<Seq<char>>, l: Seq<char>)
    ensures
        text_of(ls.push(l)) == text_of(ls) + l + "\n"@,
{
    assert(ls.push(l).drop_last() =~= ls);
}

proof fn lemma_text_add(a: Seq<Seq<char>>, b: Seq<Seq<char>>)
    ensures
        text_of(a + b) == text_of(a) + text_of(b),
    decreases b.len(),
{
    if b.len() == 0 {
        assert(a + b =~= a);
        assert(text_of(a) + text_of(b) =~= text_of(a));
    } else {
        let front = b.drop_last();
        assert((a + b).drop_last() =~= a + front);
        lemma_text_add(a, front);
        assert(text_of(a) + text_of(front) + b.last() + "\n"@ =~= text_of(a) + (text_of(front) + b.last() + "\n"@));
    }
}

proof fn lemma_split_line(l: Seq<char>)
    requires
        is_line(l),
    ensures
        split(l, '\n') == seq![l],
{
    lemma_find_char(l, '\n');
}

proof fn lemma_split_text(ls: Seq<Seq<char>>)
    requires
        are_lines(ls),
    ensures
        split(text_of(ls), '\n') == ls.push(Seq::empty()),
    decreases ls.len(),
{
    reveal_strlit("\n");
    let end = "\n"@;
    assert(end =~= seq!['\n']);
    let none = Seq::<char>::empty();
    if ls.len() == 0 {
        lemma_split_line(none);
        assert(seq![none] =~= ls.push(none));
    } else {
        let front = ls.drop_last();
        let last = ls.last();
        assert(is_line(ls[ls.len() - 1]));
        lemma_split_line(last);
        lemma_split_line(none);
        lemma_split_joined(last, none, '\n');
        assert(last + seq!['\n'] + none =~= last + end);
        if front.len() == 0 {
            assert(text_of(front) == none);
            assert(none + last + end =~= last + end);
            assert(text_of(ls) == last + end);
            assert(seq![last] + seq![none] =~= ls.push(none));
        } else {
            assert forall|i: int| 0 <= i < front.len() implies is_line(#[trigger] front[i]) by {
                assert(front[i] == ls[i]);
            }
            lemma_split_text(front);
            let y = text_of(front.drop_last()) + front.last();
            lemma_split_joined(y, none, '\n');
            assert(y + seq!['\n'] + none =~= text_of(front));
            lemma_split_joined(y, last + end, '\n');
            assert(y + seq!['\n'] + (last + end) =~= text_of(ls));
            let parts = split(y, '\n');
            assert(parts + seq![none] == front.push(none));
            assert(parts =~= (parts + seq![none]).drop_last());
            assert(parts =~= front);
            assert(front + (seq![last] + seq![none]) =~= ls.push(none));
        }
    }
}

/// The lines of a text that is made of lines are these.
proof fn lemma_lines_back(ls: Seq<Seq<char>>)
    requires
        are_lines(ls),
    ensures
        lines(text_of(ls)) == ls,
{
    lemma_split_text(ls);
    assert(ls.push(Seq::empty()).drop_last() =~= ls);
}

/// Words, with a space between each and the next.
pub open spec fn spaced(ws: Seq<Seq<char>>) -> Seq<char>
    decreases ws.len(),
{
    if ws.len() == 0 {
        Seq::empty()
    } else if ws.len() == 1 {
        ws[0]
    } else {
        spaced(ws.drop_last()) + " "@ + ws.last()
    }
}

pub open spec fn is_word(w: Seq<char>) -> bool {
    w.len() > 0 && forall|i: int| 0 <= i < w.len() ==> !white_space(#[trigger] w[i])
}

pub open spec fn are_words(ws: Seq<Seq<char>>) -> bool {
    forall|i: int| 0 <= i < ws.len() ==> is_word(#[trigger] ws[i])
}

proof fn lemma_one_word(w: Seq<char>)
    requires
        is_word(w),
    ensures
        words(w) == seq![w],
        trimmed(w) == w,
        is_line(w),
{
    lemma_word_end(w, w.len() as int);
    assert(w.take(w.len() as int) =~= w);
    assert(w.skip(w.len() as int) =~= Seq::<char>::empty());
    assert(words(Seq::<char>::empty()) =~= Seq::empty());
    assert(seq![w] + Seq::<Seq<char>>::empty() =~= seq![w]);
    assert forall|i: int| 0 <= i < w.len() implies #[trigger] w[i] != '\n' by {
        assert(!white_space(w[i]));
    }
}

proof fn lemma_word_more(s: Seq<char>, w: Seq<char>)
    requires
        is_word(w),
    ensures
        words(s + " "@ + w) == words(s).push(w),
    decreases s.len(),
{
    reveal_strlit(" ");
    let whole = s + " "@ + w;
    if s.len() == 0 {
        assert(whole[0] == ' ');
        assert(whole.drop_first() =~= w);
        lemma_one_word(w);
        assert(words(s) =~= Seq::empty());
        assert(seq![w] =~= words(s).push(w));
    } else if white_space(s[0]) {
        assert(whole[0] == s[0]);
        assert(whole.drop_first() =~= s.drop_first() + " "@ + w);
        lemma_word_more(s.drop_first(), w);
    } else {
        lemma_end(s);
        let k = word_end(s);
        assert(whole[0] == s[0]);
        assert(k > 0);
        assert forall|i: int| 0 <= i < k implies !white_space(whole[i]) by {
            assert(whole[i] == s[i]);
        }
        if k < s.len() {
            assert(whole[k] == s[k]);
        } else {
            assert(whole[k] == ' ');
        }
        lemma_word_end(whole, k);
        assert(whole.take(k) =~= s.take(k));
        assert(whole.skip(k) =~= s.skip(k) + " "@ + w);
        lemma_word_more(s.skip(k), w);
        assert(seq![s.take(k)] + words(s.skip(k)).push(w) =~= (seq![s.take(k)] + words(s.skip(k))).push(w));
    }
}

proof fn lemma_end(s: Seq<char>)
    ensures
        0 <= word_end(s) <= s.len(),
        word_end(s) < s.len() ==> white_space(s[word_end(s)]),
        forall|i: int| 0 <= i < word_end(s) ==> !white_space(s[i]),
    decreases s.len(),
{
    if s.len() > 0 && !white_space(s[0]) {
        let rest = s.drop_first();
        lemma_end(rest);
        assert forall|i: int| 0 <= i < word_end(s) implies !white_space(s[i]) by {
            if i > 0 {
                assert(s[i] == rest[i - 1]);
            }
        }
        if word_end(s) < s.len() {
            assert(s[word_end(s)] == rest[word_end(s) - 1]);
        }
    }
}

/// Words with spaces between them read back, on one line.
proof fn lemma_spaced(ws: Seq<Seq<char>>)
    requires
        ws.len() > 0,
        are_words(ws),
    ensures
        words(spaced(ws)) == ws,
        spaced(ws).len() > 0,
        !white_space(spaced(ws)[0]),
        !white_space(spaced(ws).last()),
        trimmed(spaced(ws)) == spaced(ws),
        is_line(spaced(ws)),
    decreases ws.len(),
{
    let s = spaced(ws);
    assert(is_word(ws[ws.len() - 1]));
    assert(is_word(ws[0]));
    if ws.len() == 1 {
        lemma_one_word(ws[0]);
        assert(seq![ws[0]] =~= ws);
    } else {
        reveal_strlit(" ");
        let front = ws.drop_last();
        assert forall|i: int| 0 <= i < front.len() implies is_word(#[trigger] front[i]) by {
            assert(front[i] == ws[i]);
        }
        lemma_spaced(front);
        let f = spaced(front);
        let w = ws.last();
        lemma_word_more(f, w);
        lemma_one_word(w);
        assert(front.push(w) =~= ws);
        assert(s[0] == f[0]);
        assert(s.last() == w.last());
        assert forall|i: int| 0 <= i < s.len() implies #[trigger] s[i] != '\n' by {
            if i < f.len() {
                assert(s[i] == f[i]);
            } else if i > f.len() {
                assert(s[i] == w[i - f.len() - 1]);
            }
        }
    }
}

/// A number is one word, and reads back.
proof fn lemma_number(n: nat)
    ensures
        is_word(decimal(n)),
        trimmed(decimal(n)) == decimal(n),
        is_line(decimal(n)),
        unsigned_value(decimal(n)) == Some(n),
        signed_value(decimal(n)) == Some(n as int),
{
    let d = decimal(n);
    lemma_decimal(n);
    decimal_reads_back(n);
    assert forall|i: int| 0 <= i < d.len() implies !white_space(#[trigger] d[i]) by {
        assert(is_digit(d[i]));
    }
    lemma_one_word(d);
    assert(is_digit(d[0]));
}

// ---------------------------------------------------------------------------
// The lines that a task is written on
// ---------------------------------------------------------------------------

/// A fact and its value, as two words.
pub open spec fn fact_words(f: (usize, bool)) -> Seq<Seq<char>> {
    seq![decimal(f.0 as nat), decimal(truth_value(f.1))]
}

pub open spec fn fact_rows(facts: Seq<(usize, bool)>) -> Seq<Seq<char>> {
    facts.map_values(|f: (usize, bool)| spaced(fact_words(f)))
}

pub open spec fn state_rows(init: Seq<bool>) -> Seq<Seq<char>> {
    init.map_values(|b: bool| decimal(truth_value(b)))
}

/// The first `n` conditions of an effect, as words.
pub open spec fn condition_words(cond: Seq<(usize, bool)>, n: nat) -> Seq<Seq<char>>
    decreases n,
{
    if n == 0 {
        Seq::empty()
    } else {
        condition_words(cond, (n - 1) as nat).push(decimal(cond[n - 1].0 as nat)).push(decimal(truth_value(cond[n - 1].1)))
    }
}

pub open spec fn effect_words(o: GroundOpView, e: GroundEffectView) -> Seq<Seq<char>> {
    (seq![decimal(e.cond.len())] + condition_words(e.cond, e.cond.len())).push(decimal(e.fact as nat)).push(old_value_text(o, e.fact)).push(
        decimal(truth_value(e.value)),
    )
}

pub open spec fn effect_rows(o: GroundOpView) -> Seq<Seq<char>> {
    o.effects.map_values(|e: GroundEffectView| spaced(effect_words(o, e)))
}

pub open spec fn variable_rows(i: nat, name: Seq<char>) -> Seq<Seq<char>> {
    seq![
        "begin_variable"@,
        "var"@ + decimal(i),
        "-1"@,
        "2"@,
        "Atom "@ + name,
        "NegatedAtom "@ + name,
        "end_variable"@,
    ]
}

pub open spec fn all_variable_rows(facts: Seq<Seq<char>>, n: nat) -> Seq<Seq<char>>
    decreases n,
{
    if n == 0 {
        Seq::empty()
    } else {
        all_variable_rows(facts, (n - 1) as nat) + variable_rows((n - 1) as nat, facts[n - 1])
    }
}

pub open spec fn op_rows(o: GroundOpView) -> Seq<Seq<char>> {
    let prevail = prevail_of(o, o.pre.len());
    (seq!["begin_operator"@, o.name, decimal(prevail.len())] + fact_rows(prevail)).push(decimal(o.effects.len())) + effect_rows(o) + seq![
        "1"@,
        "end_operator"@,
    ]
}

pub open spec fn all_op_rows(ops: Seq<GroundOpView>, n: nat) -> Seq<Seq<char>>
    decreases n,
{
    if n == 0 {
        Seq::empty()
    } else {
        all_op_rows(ops, (n - 1) as nat) + op_rows(ops[n - 1])
    }
}

pub open spec fn head_rows() -> Seq<Seq<char>> {
    seq!["begin_version"@, "3"@, "end_version"@, "begin_metric"@, "0"@, "end_metric"@]
}

/// The rows up to the end of the variables.
pub open spec fn rows_to_variables(t: GroundTaskView) -> Seq<Seq<char>> {
    head_rows().push(decimal(t.facts.len())) + all_variable_rows(t.facts, t.facts.len())
}

/// The rows up to the end of the initial state.
pub open spec fn rows_to_state(t: GroundTaskView) -> Seq<Seq<char>> {
    rows_to_variables(t).push("0"@).push("begin_state"@) + state_rows(t.init)
}

/// The rows up to the end of the goal.
pub open spec fn rows_to_goal(t: GroundTaskView) -> Seq<Seq<char>> {
    rows_to_state(t).push("end_state"@).push("begin_goal"@).push(decimal(t.goal.len())) + fact_rows(t.goal)
}

/// The rows up to the end of the operators.
pub open spec fn rows_to_operators(t: GroundTaskView) -> Seq<Seq<char>> {
    rows_to_goal(t).push("end_goal"@).push(decimal(t.ops.len())) + all_op_rows(t.ops, t.ops.len())
}

/// The rows of a task.
pub open spec fn sas_rows(t: GroundTaskView) -> Seq<Seq<char>> {
    rows_to_operators(t).push("0"@)
}

// ---------------------------------------------------------------------------
// The text is these lines
// ---------------------------------------------------------------------------

proof fn lemma_assoc(a: Seq<char>, b: Seq<char>, c: Seq<char>)
    ensures
        a + (b + c) == a + b + c,
{
    assert(a + (b + c) =~= a + b + c);
}

proof fn lemma_pair_spaced(a: Seq<char>, b: Seq<char>)
    ensures
        spaced(seq![a, b]) == a + " "@ + b,
{
    let ws = seq![a, b];
    assert(ws.drop_last() =~= seq![a]);
    assert(spaced(seq![a]) == a);
}

proof fn lemma_fact_text(facts: Seq<(usize, bool)>, n: nat)
    requires
        n <= facts.len(),
    ensures
        crate::sas::fact_lines(facts, n) == text_of(fact_rows(facts.take(n as int))),
    decreases n,
{
    if n > 0 {
        let k = (n - 1) as nat;
        lemma_fact_text(facts, k);
        let f = facts[n - 1];
        assert(fact_rows(facts.take(n as int)) =~= fact_rows(facts.take(k as int)).push(spaced(fact_words(f))));
        lemma_text_push(fact_rows(facts.take(k as int)), spaced(fact_words(f)));
        lemma_pair_spaced(decimal(f.0 as nat), decimal(truth_value(f.1)));
        lemma_assoc(text_of(fact_rows(facts.take(k as int))), spaced(fact_words(f)), "\n"@);
    } else {
        assert(fact_rows(facts.take(0)) =~= Seq::empty());
    }
}

proof fn lemma_state_text(init: Seq<bool>, n: nat)
    requires
        n <= init.len(),
    ensures
        state_lines(init, n) == text_of(state_rows(init.take(n as int))),
    decreases n,
{
    if n > 0 {
        let k = (n - 1) as nat;
        lemma_state_text(init, k);
        let l = decimal(truth_value(init[n - 1]));
        assert(state_rows(init.take(n as int)) =~= state_rows(init.take(k as int)).push(l));
        lemma_text_push(state_rows(init.take(k as int)), l);
    } else {
        assert(state_rows(init.take(0)) =~= Seq::empty());
    }
}

proof fn lemma_spaced_push(ws: Seq<Seq<char>>, w: Seq<char>)
    requires
        ws.len() > 0,
    ensures
        spaced(ws.push(w)) == spaced(ws) + " "@ + w,
{
    assert(ws.push(w).drop_last() =~= ws);
}

proof fn lemma_condition_text(head: Seq<char>, cond: Seq<(usize, bool)>, n: nat)
    requires
        n <= cond.len(),
    ensures
        spaced(seq![head] + condition_words(cond, n)) == head + condition_text(cond, n),
    decreases n,
{
    if n == 0 {
        assert(seq![head] + condition_words(cond, n) =~= seq![head]);
        assert(head + condition_text(cond, n) =~= head);
    } else {
        let k = (n - 1) as nat;
        lemma_condition_text(head, cond, k);
        let a = decimal(cond[n - 1].0 as nat);
        let b = decimal(truth_value(cond[n - 1].1));
        let before = seq![head] + condition_words(cond, k);
        assert(seq![head] + condition_words(cond, n) =~= before.push(a).push(b));
        lemma_spaced_push(before, a);
        lemma_spaced_push(before.push(a), b);
        let c = condition_text(cond, k);
        assert(head + (c + " "@ + a + " "@ + b) =~= head + c + " "@ + a + " "@ + b);
    }
}

proof fn lemma_effect_text(o: GroundOpView, e: GroundEffectView)
    ensures
        effect_line(o, e) == spaced(effect_words(o, e)) + "\n"@,
{
    let head = decimal(e.cond.len());
    lemma_condition_text(head, e.cond, e.cond.len());
    let w = seq![head] + condition_words(e.cond, e.cond.len());
    let a = decimal(e.fact as nat);
    let b = old_value_text(o, e.fact);
    let c = decimal(truth_value(e.value));
    lemma_spaced_push(w, a);
    lemma_spaced_push(w.push(a), b);
    lemma_spaced_push(w.push(a).push(b), c);
}

proof fn lemma_effects_text(o: GroundOpView, n: nat)
    requires
        n <= o.effects.len(),
    ensures
        crate::sas::effect_lines(o, n) == text_of(effect_rows(o).take(n as int)),
    decreases n,
{
    if n > 0 {
        let k = (n - 1) as nat;
        lemma_effects_text(o, k);
        let l = spaced(effect_words(o, o.effects[n - 1]));
        assert(effect_rows(o).take(n as int) =~= effect_rows(o).take(k as int).push(l));
        lemma_text_push(effect_rows(o).take(k as int), l);
        lemma_effect_text(o, o.effects[n - 1]);
        lemma_assoc(text_of(effect_rows(o).take(k as int)), l, "\n"@);
    }
}

proof fn lemma_variable_start(x: Seq<char>)
    ensures
        x + "begin_variable\nvar"@ == x + "begin_variable"@ + "\n"@ + "var"@,
{
    reveal_strlit("begin_variable\nvar");
    reveal_strlit("begin_variable");
    reveal_strlit("\n");
    reveal_strlit("var");
    assert("begin_variable\nvar"@ =~= "begin_variable"@ + "\n"@ + "var"@);
    assert(x + ("begin_variable"@ + "\n"@ + "var"@) =~= x + "begin_variable"@ + "\n"@ + "var"@);
}

proof fn lemma_variable_layer(x: Seq<char>)
    ensures
        x + "\n-1\n2\nAtom "@ == x + "\n"@ + "-1"@ + "\n"@ + "2"@ + "\n"@ + "Atom "@,
{
    reveal_strlit("\n-1\n2\nAtom ");
    reveal_strlit("\n");
    reveal_strlit("-1");
    reveal_strlit("2");
    reveal_strlit("Atom ");
    assert("\n-1\n2\nAtom "@ =~= "\n"@ + "-1"@ + "\n"@ + "2"@ + "\n"@ + "Atom "@);
    assert(x + ("\n"@ + "-1"@ + "\n"@ + "2"@ + "\n"@ + "Atom "@) =~= x + "\n"@ + "-1"@ + "\n"@ + "2"@ + "\n"@ + "Atom "@);
}

proof fn lemma_variable_negated(x: Seq<char>)
    ensures
        x + "\nNegatedAtom "@ == x + "\n"@ + "NegatedAtom "@,
{
    reveal_strlit("\nNegatedAtom ");
    reveal_strlit("\n");
    reveal_strlit("NegatedAtom ");
    assert("\nNegatedAtom "@ =~= "\n"@ + "NegatedAtom "@);
    assert(x + ("\n"@ + "NegatedAtom "@) =~= x + "\n"@ + "NegatedAtom "@);
}

proof fn lemma_variable_end(x: Seq<char>)
    ensures
        x + "\nend_variable\n"@ == x + "\n"@ + "end_variable"@ + "\n"@,
{
    reveal_strlit("\nend_variable\n");
    reveal_strlit("\n");
    reveal_strlit("end_variable");
    assert("\nend_variable\n"@ =~= "\n"@ + "end_variable"@ + "\n"@);
    assert(x + ("\n"@ + "end_variable"@ + "\n"@) =~= x + "\n"@ + "end_variable"@ + "\n"@);
}

proof fn lemma_operator_start(x: Seq<char>)
    ensures
        x + "begin_operator\n"@ == x + "begin_operator"@ + "\n"@,
{
    reveal_strlit("begin_operator\n");
    reveal_strlit("begin_operator");
    reveal_strlit("\n");
    assert("begin_operator\n"@ =~= "begin_operator"@ + "\n"@);
    assert(x + ("begin_operator"@ + "\n"@) =~= x + "begin_operator"@ + "\n"@);
}

proof fn lemma_operator_end(x: Seq<char>)
    ensures
        x + "1\nend_operator\n"@ == x + "1"@ + "\n"@ + "end_operator"@ + "\n"@,
{
    reveal_strlit("1\nend_operator\n");
    reveal_strlit("1");
    reveal_strlit("\n");
    reveal_strlit("end_operator");
    assert("1\nend_operator\n"@ =~= "1"@ + "\n"@ + "end_operator"@ + "\n"@);
    assert(x + ("1"@ + "\n"@ + "end_operator"@ + "\n"@) =~= x + "1"@ + "\n"@ + "end_operator"@ + "\n"@);
}

proof fn lemma_state_start(x: Seq<char>)
    ensures
        x + "0\nbegin_state\n"@ == x + "0"@ + "\n"@ + "begin_state"@ + "\n"@,
{
    reveal_strlit("0\nbegin_state\n");
    reveal_strlit("0");
    reveal_strlit("\n");
    reveal_strlit("begin_state");
    assert("0\nbegin_state\n"@ =~= "0"@ + "\n"@ + "begin_state"@ + "\n"@);
    assert(x + ("0"@ + "\n"@ + "begin_state"@ + "\n"@) =~= x + "0"@ + "\n"@ + "begin_state"@ + "\n"@);
}

proof fn lemma_goal_start(x: Seq<char>)
    ensures
        x + "end_state\nbegin_goal\n"@ == x + "end_state"@ + "\n"@ + "begin_goal"@ + "\n"@,
{
    reveal_strlit("end_state\nbegin_goal\n");
    reveal_strlit("end_state");
    reveal_strlit("\n");
    reveal_strlit("begin_goal");
    assert("end_state\nbegin_goal\n"@ =~= "end_state"@ + "\n"@ + "begin_goal"@ + "\n"@);
    assert(x + ("end_state"@ + "\n"@ + "begin_goal"@ + "\n"@) =~= x + "end_state"@ + "\n"@ + "begin_goal"@ + "\n"@);
}

proof fn lemma_goal_end(x: Seq<char>)
    ensures
        x + "end_goal\n"@ == x + "end_goal"@ + "\n"@,
{
    reveal_strlit("end_goal\n");
    reveal_strlit("end_goal");
    reveal_strlit("\n");
    assert("end_goal\n"@ =~= "end_goal"@ + "\n"@);
    assert(x + ("end_goal"@ + "\n"@) =~= x + "end_goal"@ + "\n"@);
}

proof fn lemma_text_end(x: Seq<char>)
    ensures
        x + "0\n"@ == x + "0"@ + "\n"@,
{
    reveal_strlit("0\n");
    reveal_strlit("0");
    reveal_strlit("\n");
    assert("0\n"@ =~= "0"@ + "\n"@);
    assert(x + ("0"@ + "\n"@) =~= x + "0"@ + "\n"@);
}

proof fn lemma_text_start(x: Seq<char>)
    ensures
        x + "begin_version\n3\nend_version\nbegin_metric\n0\nend_metric\n"@ == x + "begin_version"@ + "\n"@ + "3"@ + "\n"@ + "end_version"@ + "\n"@ + "begin_metric"@ + "\n"@ + "0"@ + "\n"@ + "end_metric"@ + "\n"@,
{
    reveal_strlit("begin_version\n3\nend_version\nbegin_metric\n0\nend_metric\n");
    reveal_strlit("begin_version");
    reveal_strlit("\n");
    reveal_strlit("3");
    reveal_strlit("end_version");
    reveal_strlit("begin_metric");
    reveal_strlit("0");
    reveal_strlit("end_metric");
    assert("begin_version\n3\nend_version\nbegin_metric\n0\nend_metric\n"@ =~= "begin_version"@ + "\n"@ + "3"@ + "\n"@ + "end_version"@ + "\n"@ + "begin_metric"@ + "\n"@ + "0"@ + "\n"@ + "end_metric"@ + "\n"@);
    assert(x + ("begin_version"@ + "\n"@ + "3"@ + "\n"@ + "end_version"@ + "\n"@ + "begin_metric"@ + "\n"@ + "0"@ + "\n"@ + "end_metric"@ + "\n"@) =~= x + "begin_version"@ + "\n"@ + "3"@ + "\n"@ + "end_version"@ + "\n"@ + "begin_metric"@ + "\n"@ + "0"@ + "\n"@ + "end_metric"@ + "\n"@);
}

proof fn lemma_variable_text(i: nat, name: Seq<char>)
    ensures
        variable_text(i, name) == text_of(variable_rows(i, name)),
{
    let none = Seq::<Seq<char>>::empty();
    let e = text_of(none);
    let r1 = none.push("begin_variable"@);
    let r2 = r1.push("var"@ + decimal(i));
    let r3 = r2.push("-1"@);
    let r4 = r3.push("2"@);
    let r5 = r4.push("Atom "@ + name);
    let r6 = r5.push("NegatedAtom "@ + name);
    let r7 = r6.push("end_variable"@);
    assert(r7 =~= variable_rows(i, name));
    lemma_text_push(none, "begin_variable"@);
    lemma_text_push(r1, "var"@ + decimal(i));
    lemma_text_push(r2, "-1"@);
    lemma_text_push(r3, "2"@);
    lemma_text_push(r4, "Atom "@ + name);
    lemma_text_push(r5, "NegatedAtom "@ + name);
    lemma_text_push(r6, "end_variable"@);
    lemma_assoc(text_of(r1), "var"@, decimal(i));
    lemma_assoc(text_of(r4), "Atom "@, name);
    lemma_assoc(text_of(r5), "NegatedAtom "@, name);
    lemma_variable_start(e);
    assert(e + "begin_variable\nvar"@ =~= "begin_variable\nvar"@);
    let x1 = "begin_variable\nvar"@ + decimal(i);
    lemma_variable_layer(x1);
    let x2 = x1 + "\n-1\n2\nAtom "@ + name;
    lemma_variable_negated(x2);
    lemma_variable_end(x2 + "\nNegatedAtom "@ + name);
}

proof fn lemma_variables_text(facts: Seq<Seq<char>>, n: nat)
    requires
        n <= facts.len(),
    ensures
        variable_texts(facts, n) == text_of(all_variable_rows(facts, n)),
    decreases n,
{
    if n > 0 {
        let k = (n - 1) as nat;
        lemma_variables_text(facts, k);
        lemma_variable_text(k, facts[n - 1]);
        lemma_text_add(all_variable_rows(facts, k), variable_rows(k, facts[n - 1]));
    }
}

proof fn lemma_op_text(o: GroundOpView)
    ensures
        op_text(o) == text_of(op_rows(o)),
{
    let prevail = prevail_of(o, o.pre.len());
    let none = Seq::<Seq<char>>::empty();
    let e = text_of(none);
    let r1 = none.push("begin_operator"@);
    let r2 = r1.push(o.name);
    let r3 = r2.push(decimal(prevail.len()));
    let r4 = r3 + fact_rows(prevail);
    let r5 = r4.push(decimal(o.effects.len()));
    let r6 = r5 + effect_rows(o);
    let r7 = r6.push("1"@);
    let r8 = r7.push("end_operator"@);
    assert(r3 =~= seq!["begin_operator"@, o.name, decimal(prevail.len())]);
    assert(r8 =~= op_rows(o));
    lemma_text_push(none, "begin_operator"@);
    lemma_text_push(r1, o.name);
    lemma_text_push(r2, decimal(prevail.len()));
    lemma_text_add(r3, fact_rows(prevail));
    lemma_fact_text(prevail, prevail.len());
    assert(prevail.take(prevail.len() as int) =~= prevail);
    lemma_text_push(r4, decimal(o.effects.len()));
    lemma_text_add(r5, effect_rows(o));
    lemma_effects_text(o, o.effects.len());
    assert(effect_rows(o).take(o.effects.len() as int) =~= effect_rows(o));
    lemma_text_push(r6, "1"@);
    lemma_text_push(r7, "end_operator"@);
    lemma_operator_start(e);
    assert(e + "begin_operator\n"@ =~= "begin_operator\n"@);
    lemma_operator_end(text_of(r6));
}

proof fn lemma_ops_text(ops: Seq<GroundOpView>, n: nat)
    requires
        n <= ops.len(),
    ensures
        op_texts(ops, n) == text_of(all_op_rows(ops, n)),
    decreases n,
{
    if n > 0 {
        let k = (n - 1) as nat;
        lemma_ops_text(ops, k);
        lemma_op_text(ops[n - 1]);
        lemma_text_add(all_op_rows(ops, k), op_rows(ops[n - 1]));
    }
}

proof fn lemma_head_text()
    ensures
        text_of(head_rows()) == "begin_version\n3\nend_version\nbegin_metric\n0\nend_metric\n"@,
{
    let none = Seq::<Seq<char>>::empty();
    let e = text_of(none);
    let r1 = none.push("begin_version"@);
    let r2 = r1.push("3"@);
    let r3 = r2.push("end_version"@);
    let r4 = r3.push("begin_metric"@);
    let r5 = r4.push("0"@);
    let r6 = r5.push("end_metric"@);
    assert(r6 =~= head_rows());
    lemma_text_push(none, "begin_version"@);
    lemma_text_push(r1, "3"@);
    lemma_text_push(r2, "end_version"@);
    lemma_text_push(r3, "begin_metric"@);
    lemma_text_push(r4, "0"@);
    lemma_text_push(r5, "end_metric"@);
    lemma_text_start(e);
    let whole = "begin_version\n3\nend_version\nbegin_metric\n0\nend_metric\n"@;
    assert(e + whole =~= whole);
}

/// The text of a task is its rows.
proof fn lemma_sas_text(t: GroundTaskView)
    ensures
        sas_text(t) == text_of(sas_rows(t)),
{
    lemma_head_text();
    lemma_text_push(head_rows(), decimal(t.facts.len()));
    lemma_text_add(head_rows().push(decimal(t.facts.len())), all_variable_rows(t.facts, t.facts.len()));
    lemma_variables_text(t.facts, t.facts.len());
    let v = rows_to_variables(t);
    lemma_text_push(v, "0"@);
    lemma_text_push(v.push("0"@), "begin_state"@);
    lemma_state_start(text_of(v));
    let v2 = v.push("0"@).push("begin_state"@);
    lemma_text_add(v2, state_rows(t.init));
    lemma_state_text(t.init, t.init.len());
    assert(t.init.take(t.init.len() as int) =~= t.init);
    let s = rows_to_state(t);
    lemma_text_push(s, "end_state"@);
    lemma_text_push(s.push("end_state"@), "begin_goal"@);
    lemma_goal_start(text_of(s));
    let s2 = s.push("end_state"@).push("begin_goal"@);
    lemma_text_push(s2, decimal(t.goal.len()));
    lemma_text_add(s2.push(decimal(t.goal.len())), fact_rows(t.goal));
    lemma_fact_text(t.goal, t.goal.len());
    assert(t.goal.take(t.goal.len() as int) =~= t.goal);
    let g = rows_to_goal(t);
    lemma_text_push(g, "end_goal"@);
    lemma_goal_end(text_of(g));
    lemma_text_push(g.push("end_goal"@), decimal(t.ops.len()));
    lemma_text_add(g.push("end_goal"@).push(decimal(t.ops.len())), all_op_rows(t.ops, t.ops.len()));
    lemma_ops_text(t.ops, t.ops.len());
    lemma_text_push(rows_to_operators(t), "0"@);
    lemma_text_end(text_of(rows_to_operators(t)));
}

// ---------------------------------------------------------------------------
// The rows are lines
// ---------------------------------------------------------------------------

proof fn lemma_word_begin_version()
    ensures
        is_word("begin_version"@),
        trimmed("begin_version"@) == "begin_version"@,
        is_line("begin_version"@),
{
    reveal_strlit("begin_version");
    let m = "begin_version"@;
    assert forall|i: int| 0 <= i < m.len() implies !white_space(#[trigger] m[i]) by {}
    lemma_one_word(m);
}

proof fn lemma_word_end_version()
    ensures
        is_word("end_version"@),
        trimmed("end_version"@) == "end_version"@,
        is_line("end_version"@),
{
    reveal_strlit("end_version");
    let m = "end_version"@;
    assert forall|i: int| 0 <= i < m.len() implies !white_space(#[trigger] m[i]) by {}
    lemma_one_word(m);
}

proof fn lemma_word_begin_metric()
    ensures
        is_word("begin_metric"@),
        trimmed("begin_metric"@) == "begin_metric"@,
        is_line("begin_metric"@),
{
    reveal_strlit("begin_metric");
    let m = "begin_metric"@;
    assert forall|i: int| 0 <= i < m.len() implies !white_space(#[trigger] m[i]) by {}
    lemma_one_word(m);
}

proof fn lemma_word_end_metric()
    ensures
        is_word("end_metric"@),
        trimmed("end_metric"@) == "end_metric"@,
        is_line("end_metric"@),
{
    reveal_strlit("end_metric");
    let m = "end_metric"@;
    assert forall|i: int| 0 <= i < m.len() implies !white_space(#[trigger] m[i]) by {}
    lemma_one_word(m);
}

proof fn lemma_word_begin_variable()
    ensures
        is_word("begin_variable"@),
        trimmed("begin_variable"@) == "begin_variable"@,
        is_line("begin_variable"@),
{
    reveal_strlit("begin_variable");
    let m = "begin_variable"@;
    assert forall|i: int| 0 <= i < m.len() implies !white_space(#[trigger] m[i]) by {}
    lemma_one_word(m);
}

proof fn lemma_word_end_variable()
    ensures
        is_word("end_variable"@),
        trimmed("end_variable"@) == "end_variable"@,
        is_line("end_variable"@),
{
    reveal_strlit("end_variable");
    let m = "end_variable"@;
    assert forall|i: int| 0 <= i < m.len() implies !white_space(#[trigger] m[i]) by {}
    lemma_one_word(m);
}

proof fn lemma_word_begin_state()
    ensures
        is_word("begin_state"@),
        trimmed("begin_state"@) == "begin_state"@,
        is_line("begin_state"@),
{
    reveal_strlit("begin_state");
    let m = "begin_state"@;
    assert forall|i: int| 0 <= i < m.len() implies !white_space(#[trigger] m[i]) by {}
    lemma_one_word(m);
}

proof fn lemma_word_end_state()
    ensures
        is_word("end_state"@),
        trimmed("end_state"@) == "end_state"@,
        is_line("end_state"@),
{
    reveal_strlit("end_state");
    let m = "end_state"@;
    assert forall|i: int| 0 <= i < m.len() implies !white_space(#[trigger] m[i]) by {}
    lemma_one_word(m);
}

proof fn lemma_word_begin_goal()
    ensures
        is_word("begin_goal"@),
        trimmed("begin_goal"@) == "begin_goal"@,
        is_line("begin_goal"@),
{
    reveal_strlit("begin_goal");
    let m = "begin_goal"@;
    assert forall|i: int| 0 <= i < m.len() implies !white_space(#[trigger] m[i]) by {}
    lemma_one_word(m);
}

proof fn lemma_word_end_goal()
    ensures
        is_word("end_goal"@),
        trimmed("end_goal"@) == "end_goal"@,
        is_line("end_goal"@),
{
    reveal_strlit("end_goal");
    let m = "end_goal"@;
    assert forall|i: int| 0 <= i < m.len() implies !white_space(#[trigger] m[i]) by {}
    lemma_one_word(m);
}

proof fn lemma_word_begin_operator()
    ensures
        is_word("begin_operator"@),
        trimmed("begin_operator"@) == "begin_operator"@,
        is_line("begin_operator"@),
{
    reveal_strlit("begin_operator");
    let m = "begin_operator"@;
    assert forall|i: int| 0 <= i < m.len() implies !white_space(#[trigger] m[i]) by {}
    lemma_one_word(m);
}

proof fn lemma_word_end_operator()
    ensures
        is_word("end_operator"@),
        trimmed("end_operator"@) == "end_operator"@,
        is_line("end_operator"@),
{
    reveal_strlit("end_operator");
    let m = "end_operator"@;
    assert forall|i: int| 0 <= i < m.len() implies !white_space(#[trigger] m[i]) by {}
    lemma_one_word(m);
}

proof fn lemma_word_minus_one()
    ensures
        is_word("-1"@),
        trimmed("-1"@) == "-1"@,
        is_line("-1"@),
        signed_value("-1"@) == Some(-1int),
{
    reveal_strlit("-1");
    let m = "-1"@;
    assert forall|i: int| 0 <= i < m.len() implies !white_space(#[trigger] m[i]) by {}
    lemma_one_word(m);
    assert(m.drop_first() =~= decimal(1));
    lemma_decimal(1);
}

proof fn lemma_small_numbers()
    ensures
        "0"@ == decimal(0),
        "1"@ == decimal(1),
        "2"@ == decimal(2),
        "3"@ == decimal(3),
{
    reveal_strlit("0");
    reveal_strlit("1");
    reveal_strlit("2");
    reveal_strlit("3");
    assert("0"@ =~= decimal(0));
    assert("1"@ =~= decimal(1));
    assert("2"@ =~= decimal(2));
    assert("3"@ =~= decimal(3));
}

proof fn lemma_lines_add(a: Seq<Seq<char>>, b: Seq<Seq<char>>)
    requires
        are_lines(a),
        are_lines(b),
    ensures
        are_lines(a + b),
{
}

proof fn lemma_variable_name(i: nat)
    ensures
        is_word("var"@ + decimal(i)),
        trimmed("var"@ + decimal(i)) == "var"@ + decimal(i),
        is_line("var"@ + decimal(i)),
{
    reveal_strlit("var");
    lemma_number(i);
    let w = "var"@ + decimal(i);
    assert forall|k: int| 0 <= k < w.len() implies !white_space(#[trigger] w[k]) by {
        if k >= 3 {
            assert(w[k] == decimal(i)[k - 3]);
        }
    }
    lemma_one_word(w);
}

proof fn lemma_variable_rows(i: nat, name: Seq<char>)
    requires
        is_line(name),
    ensures
        are_lines(variable_rows(i, name)),
{
    lemma_word_begin_variable();
    lemma_word_end_variable();
    lemma_word_minus_one();
    lemma_small_numbers();
    lemma_number(2);
    lemma_variable_name(i);
    reveal_strlit("Atom ");
    reveal_strlit("NegatedAtom ");
    assert forall|k: int| 0 <= k < ("Atom "@ + name).len() implies #[trigger] ("Atom "@ + name)[k] != '\n' by {
        if k >= 5 {
            assert(("Atom "@ + name)[k] == name[k - 5]);
        }
    }
    assert forall|k: int| 0 <= k < ("NegatedAtom "@ + name).len() implies #[trigger] ("NegatedAtom "@ + name)[k] != '\n' by {
        if k >= 12 {
            assert(("NegatedAtom "@ + name)[k] == name[k - 12]);
        }
    }
    assert(is_line("Atom "@ + name) && is_line("NegatedAtom "@ + name));
}

proof fn lemma_all_variable_rows(facts: Seq<Seq<char>>, n: nat)
    requires
        n <= facts.len(),
        are_lines(facts),
    ensures
        are_lines(all_variable_rows(facts, n)),
    decreases n,
{
    if n > 0 {
        lemma_all_variable_rows(facts, (n - 1) as nat);
        assert(is_line(facts[n - 1]));
        lemma_variable_rows((n - 1) as nat, facts[n - 1]);
        lemma_lines_add(all_variable_rows(facts, (n - 1) as nat), variable_rows((n - 1) as nat, facts[n - 1]));
    }
}

/// The words of a fact are words, so that they read back.
proof fn lemma_fact_words(f: (usize, bool))
    ensures
        words(spaced(fact_words(f))) == fact_words(f),
        trimmed(spaced(fact_words(f))) == spaced(fact_words(f)),
        is_line(spaced(fact_words(f))),
{
    lemma_number(f.0 as nat);
    lemma_number(truth_value(f.1));
    lemma_spaced(fact_words(f));
}

proof fn lemma_fact_rows(facts: Seq<(usize, bool)>)
    ensures
        are_lines(fact_rows(facts)),
{
    assert forall|i: int| 0 <= i < fact_rows(facts).len() implies is_line(#[trigger] fact_rows(facts)[i]) by {
        lemma_fact_words(facts[i]);
    }
}

proof fn lemma_state_rows(init: Seq<bool>)
    ensures
        are_lines(state_rows(init)),
{
    assert forall|i: int| 0 <= i < state_rows(init).len() implies is_line(#[trigger] state_rows(init)[i]) by {
        lemma_number(truth_value(init[i]));
    }
}

proof fn lemma_condition_words(cond: Seq<(usize, bool)>, n: nat)
    requires
        n <= cond.len(),
    ensures
        condition_words(cond, n).len() == 2 * n,
        are_words(condition_words(cond, n)),
        forall|i: int| 0 <= i < n ==> condition_words(cond, n)[2 * i] == decimal((#[trigger] cond[i]).0 as nat),
        forall|i: int| 0 <= i < n ==> condition_words(cond, n)[2 * i + 1] == decimal(truth_value((#[trigger] cond[i]).1)),
    decreases n,
{
    if n > 0 {
        let k = (n - 1) as nat;
        lemma_condition_words(cond, k);
        lemma_number(cond[n - 1].0 as nat);
        lemma_number(truth_value(cond[n - 1].1));
        let before = condition_words(cond, k);
        let all = condition_words(cond, n);
        assert forall|i: int| 0 <= i < n implies all[2 * i] == decimal((#[trigger] cond[i]).0 as nat) by {
            if i < k {
                assert(all[2 * i] == before[2 * i]);
            }
        }
        assert forall|i: int| 0 <= i < n implies all[2 * i + 1] == decimal(truth_value((#[trigger] cond[i]).1)) by {
            if i < k {
                assert(all[2 * i + 1] == before[2 * i + 1]);
            }
        }
        assert forall|i: int| 0 <= i < all.len() implies is_word(#[trigger] all[i]) by {
            if i < before.len() {
                assert(all[i] == before[i]);
            }
        }
    }
}

proof fn lemma_effect_words(o: GroundOpView, e: GroundEffectView)
    ensures
        words(spaced(effect_words(o, e))) == effect_words(o, e),
        trimmed(spaced(effect_words(o, e))) == spaced(effect_words(o, e)),
        is_line(spaced(effect_words(o, e))),
{
    let ws = effect_words(o, e);
    let cs = condition_words(e.cond, e.cond.len());
    lemma_condition_words(e.cond, e.cond.len());
    lemma_number(e.cond.len());
    lemma_number(e.fact as nat);
    lemma_number(truth_value(e.value));
    lemma_number(0);
    lemma_number(1);
    lemma_word_minus_one();
    assert forall|i: int| 0 <= i < ws.len() implies is_word(#[trigger] ws[i]) by {
        if 0 < i <= cs.len() {
            assert(ws[i] == cs[i - 1]);
        }
    }
    lemma_spaced(ws);
}

proof fn lemma_op_rows(o: GroundOpView)
    requires
        is_line(o.name),
    ensures
        are_lines(op_rows(o)),
{
    let prevail = prevail_of(o, o.pre.len());
    lemma_word_begin_operator();
    lemma_word_end_operator();
    lemma_small_numbers();
    lemma_number(1);
    lemma_number(prevail.len());
    lemma_number(o.effects.len());
    lemma_fact_rows(prevail);
    assert forall|i: int| 0 <= i < effect_rows(o).len() implies is_line(#[trigger] effect_rows(o)[i]) by {
        lemma_effect_words(o, o.effects[i]);
    }
    let first = seq!["begin_operator"@, o.name, decimal(prevail.len())];
    assert(are_lines(first));
    lemma_lines_add(first, fact_rows(prevail));
    let second = (first + fact_rows(prevail)).push(decimal(o.effects.len()));
    lemma_lines_add(second, effect_rows(o));
    assert(are_lines(seq!["1"@, "end_operator"@]));
    lemma_lines_add(second + effect_rows(o), seq!["1"@, "end_operator"@]);
}

/// Whether the names of operators have no line breaks.
pub open spec fn are_op_lines(ops: Seq<GroundOpView>) -> bool {
    forall|i: int| 0 <= i < ops.len() ==> is_line((#[trigger] ops[i]).name)
}

proof fn lemma_all_op_rows(ops: Seq<GroundOpView>, n: nat)
    requires
        n <= ops.len(),
        are_op_lines(ops),
    ensures
        are_lines(all_op_rows(ops, n)),
    decreases n,
{
    if n > 0 {
        lemma_all_op_rows(ops, (n - 1) as nat);
        lemma_op_rows(ops[n - 1]);
        lemma_lines_add(all_op_rows(ops, (n - 1) as nat), op_rows(ops[n - 1]));
    }
}

proof fn lemma_sas_rows(t: GroundTaskView)
    requires
        are_lines(t.facts),
        are_op_lines(t.ops),
    ensures
        are_lines(sas_rows(t)),
{
    lemma_word_begin_version();
    lemma_word_end_version();
    lemma_word_begin_metric();
    lemma_word_end_metric();
    lemma_word_begin_state();
    lemma_word_end_state();
    lemma_word_begin_goal();
    lemma_word_end_goal();
    lemma_small_numbers();
    lemma_number(0);
    lemma_number(3);
    lemma_number(t.facts.len());
    lemma_number(t.goal.len());
    lemma_number(t.ops.len());
    assert(are_lines(head_rows()));
    lemma_all_variable_rows(t.facts, t.facts.len());
    lemma_lines_add(head_rows().push(decimal(t.facts.len())), all_variable_rows(t.facts, t.facts.len()));
    lemma_state_rows(t.init);
    lemma_lines_add(rows_to_variables(t).push("0"@).push("begin_state"@), state_rows(t.init));
    lemma_fact_rows(t.goal);
    lemma_lines_add(rows_to_state(t).push("end_state"@).push("begin_goal"@).push(decimal(t.goal.len())), fact_rows(t.goal));
    lemma_all_op_rows(t.ops, t.ops.len());
    lemma_lines_add(rows_to_goal(t).push("end_goal"@).push(decimal(t.ops.len())), all_op_rows(t.ops, t.ops.len()));
}

// ---------------------------------------------------------------------------
// What the rows are read as
// ---------------------------------------------------------------------------

/// The value of a two-valued variable.
pub open spec fn read_value(truth: bool) -> usize {
    if truth {
        0
    } else {
        1
    }
}

/// The value of a required truth.
pub open spec fn read_truth(truth: Option<bool>) -> Option<usize> {
    match truth {
        None => None,
        Some(b) => Some(read_value(b)),
    }
}

pub open spec fn read_fact(f: (usize, bool)) -> Fact {
    Fact { variable: f.0, value: read_value(f.1) }
}

pub open spec fn read_facts(facts: Seq<(usize, bool)>) -> Seq<Fact> {
    facts.map_values(|f: (usize, bool)| read_fact(f))
}

/// The two-valued variable of a fact.
pub open spec fn read_variable(i: nat, name: Seq<char>) -> VariableView {
    VariableView { name: "var"@ + decimal(i), values: seq![trimmed("Atom "@ + name), trimmed("NegatedAtom "@ + name)] }
}

pub open spec fn read_variables(facts: Seq<Seq<char>>) -> Seq<VariableView> {
    Seq::new(facts.len(), |i: int| read_variable(i as nat, facts[i]))
}

/// The effect of an operator, with the value that the operator requires before.
pub open spec fn read_effect(o: GroundOpView, e: GroundEffectView) -> EffectView {
    EffectView {
        conditions: read_facts(e.cond),
        variable: e.fact,
        pre: read_truth(required_truth(o.pre, e.fact, o.pre.len())),
        post: read_value(e.value),
    }
}

pub open spec fn read_effects(o: GroundOpView) -> Seq<EffectView> {
    o.effects.map_values(|e: GroundEffectView| read_effect(o, e))
}

/// The operator at unit cost: what it requires and does not change prevails.
pub open spec fn read_op(o: GroundOpView) -> OperatorView {
    OperatorView { name: trimmed(o.name), prevail: read_facts(prevail_of(o, o.pre.len())), effects: read_effects(o), cost: 1 }
}

pub open spec fn read_ops(ops: Seq<GroundOpView>) -> Seq<OperatorView> {
    ops.map_values(|o: GroundOpView| read_op(o))
}

/// A ground task as a finite-domain task: a two-valued variable for each fact.
pub open spec fn read_task(t: GroundTaskView) -> TaskView {
    TaskView {
        variables: read_variables(t.facts),
        initial: t.init.map_values(|truth: bool| read_value(truth)),
        goals: read_facts(t.goal),
        operators: read_ops(t.ops),
        axioms: Seq::empty(),
    }
}

/// Whether facts are among the first `n`, and few enough to count.
pub open spec fn are_known(facts: Seq<(usize, bool)>, n: nat) -> bool {
    facts.len() <= isize::MAX && forall|i: int| 0 <= i < facts.len() ==> (#[trigger] facts[i]).0 < n
}

pub open spec fn is_op_known(o: GroundOpView, n: nat) -> bool {
    &&& are_known(o.pre, n)
    &&& o.effects.len() <= isize::MAX
    &&& forall|i: int| 0 <= i < o.effects.len() ==> (#[trigger] o.effects[i]).fact < n && are_known(o.effects[i].cond, n)
}

/// Whether a task speaks of its own facts only, its lists can be counted, and no name has
/// a line break.
pub open spec fn is_writable(t: GroundTaskView) -> bool {
    &&& t.wf()
    &&& t.facts.len() <= isize::MAX
    &&& are_lines(t.facts)
    &&& are_known(t.goal, t.facts.len())
    &&& t.ops.len() <= isize::MAX
    &&& are_op_lines(t.ops)
    &&& forall|i: int| 0 <= i < t.ops.len() ==> is_op_known(#[trigger] t.ops[i], t.facts.len())
}

/// Whether lines hold others from a place on.
spec fn holds(ls: Seq<Seq<char>>, pos: nat, piece: Seq<Seq<char>>) -> bool {
    pos + piece.len() <= ls.len() && forall|i: int| 0 <= i < piece.len() ==> #[trigger] ls[pos + i] == piece[i]
}

proof fn lemma_holds_at(ls: Seq<Seq<char>>, pos: nat, piece: Seq<Seq<char>>, i: int)
    requires
        holds(ls, pos, piece),
        0 <= i < piece.len(),
    ensures
        pos + i < ls.len(),
        ls[pos + i] == piece[i],
{
}

proof fn lemma_holds_parts(ls: Seq<Seq<char>>, pos: nat, a: Seq<Seq<char>>, b: Seq<Seq<char>>)
    requires
        holds(ls, pos, a + b),
    ensures
        holds(ls, pos, a),
        holds(ls, pos + a.len(), b),
{
    assert forall|i: int| 0 <= i < a.len() implies #[trigger] ls[pos + i] == a[i] by {
        lemma_holds_at(ls, pos, a + b, i);
    }
    assert forall|i: int| 0 <= i < b.len() implies #[trigger] ls[pos + a.len() + i] == b[i] by {
        lemma_holds_at(ls, pos, a + b, a.len() + i);
    }
}

/// A row that holds a number reads as the number.
proof fn lemma_number_row(ls: Seq<Seq<char>>, pos: nat, n: nat, what: Seq<char>)
    requires
        pos < ls.len(),
        ls[pos as int] == decimal(n),
        n <= usize::MAX,
    ensures
        number_line(ls, pos, what) == Ok::<(nat, nat), ParseErrorView>((n, pos + 1)),
{
    lemma_number(n);
}

proof fn lemma_fact_row(ls: Seq<Seq<char>>, pos: nat, f: (usize, bool), what: Seq<char>, facts: Seq<Seq<char>>)
    requires
        pos < ls.len(),
        ls[pos as int] == spaced(fact_words(f)),
        f.0 < facts.len(),
    ensures
        fact_line(ls, pos, what, read_variables(facts)) == Ok::<(Fact, nat), ParseErrorView>((read_fact(f), pos + 1)),
{
    lemma_fact_words(f);
    lemma_number(f.0 as nat);
    lemma_number(truth_value(f.1));
}

proof fn lemma_read_push(facts: Seq<(usize, bool)>, k: int)
    requires
        0 <= k < facts.len(),
    ensures
        read_facts(facts).take(k).push(read_fact(facts[k])) == read_facts(facts).take(k + 1),
{
    assert(read_facts(facts).take(k).push(read_fact(facts[k])) =~= read_facts(facts).take(k + 1));
}

proof fn lemma_read_fact_rows(ls: Seq<Seq<char>>, pos: nat, fs: Seq<(usize, bool)>, k: nat, what: Seq<char>, facts: Seq<Seq<char>>)
    requires
        holds(ls, pos, fact_rows(fs)),
        are_known(fs, facts.len()),
        k <= fs.len(),
    ensures
        fact_lines(ls, pos + k, (fs.len() - k) as nat, what, read_variables(facts), read_facts(fs).take(k as int)) == Ok::<
            (Seq<Fact>, nat),
            ParseErrorView,
        >((read_facts(fs), pos + fs.len())),
    decreases fs.len() - k,
{
    if k < fs.len() {
        lemma_holds_at(ls, pos, fact_rows(fs), k as int);
        lemma_fact_row(ls, pos + k, fs[k as int], what, facts);
        lemma_read_push(fs, k as int);
        lemma_read_fact_rows(ls, pos, fs, k + 1, what, facts);
    } else {
        assert(read_facts(fs).take(k as int) =~= read_facts(fs));
    }
}

/// Rows of facts read as the facts.
proof fn lemma_facts_read(ls: Seq<Seq<char>>, pos: nat, fs: Seq<(usize, bool)>, what: Seq<char>, facts: Seq<Seq<char>>)
    requires
        holds(ls, pos, fact_rows(fs)),
        are_known(fs, facts.len()),
    ensures
        fact_lines(ls, pos, fs.len(), what, read_variables(facts), Seq::empty()) == Ok::<
            (Seq<Fact>, nat),
            ParseErrorView,
        >((read_facts(fs), pos + fs.len())),
{
    lemma_read_fact_rows(ls, pos, fs, 0, what, facts);
    assert(read_facts(fs).take(0) =~= Seq::empty());
}

proof fn lemma_variable_read(ls: Seq<Seq<char>>, pos: nat, i: nat, name: Seq<char>)
    requires
        holds(ls, pos, variable_rows(i, name)),
    ensures
        variable_block(ls, pos) == Ok::<(VariableView, nat), ParseErrorView>((read_variable(i, name), pos + 7)),
{
    reveal(variable_block);
    let rows = variable_rows(i, name);
    lemma_holds_at(ls, pos, rows, 0);
    lemma_holds_at(ls, pos, rows, 1);
    lemma_holds_at(ls, pos, rows, 2);
    lemma_holds_at(ls, pos, rows, 3);
    lemma_holds_at(ls, pos, rows, 4);
    lemma_holds_at(ls, pos, rows, 5);
    lemma_holds_at(ls, pos, rows, 6);
    lemma_word_begin_variable();
    lemma_word_end_variable();
    lemma_word_minus_one();
    lemma_small_numbers();
    lemma_variable_name(i);
    lemma_number_row(ls, pos + 3, 2, "variable domain size"@);
    reveal_with_fuel(value_lines, 3);
    let a = trimmed("Atom "@ + name);
    let b = trimmed("NegatedAtom "@ + name);
    assert(Seq::empty().push(a).push(b) =~= seq![a, b]);
    assert(value_lines(ls, pos + 4, 2, Seq::empty()) == Ok::<(Seq<Seq<char>>, nat), ParseErrorView>((seq![a, b], pos + 6)));
}

proof fn lemma_block_held(ls: Seq<Seq<char>>, pos: nat, facts: Seq<Seq<char>>, n: nat, k: nat)
    requires
        holds(ls, pos, all_variable_rows(facts, n)),
        k < n <= facts.len(),
    ensures
        holds(ls, pos + 7 * k, variable_rows(k, facts[k as int])),
        all_variable_rows(facts, n).len() == 7 * n,
    decreases n,
{
    let m = (n - 1) as nat;
    lemma_holds_parts(ls, pos, all_variable_rows(facts, m), variable_rows(m, facts[n - 1]));
    if k < m {
        lemma_block_held(ls, pos, facts, m, k);
    } else {
        lemma_rows_len(facts, m);
    }
}

proof fn lemma_rows_len(facts: Seq<Seq<char>>, n: nat)
    requires
        n <= facts.len(),
    ensures
        all_variable_rows(facts, n).len() == 7 * n,
    decreases n,
{
    if n > 0 {
        lemma_rows_len(facts, (n - 1) as nat);
    }
}

proof fn lemma_variables_read(ls: Seq<Seq<char>>, pos: nat, facts: Seq<Seq<char>>, k: nat)
    requires
        holds(ls, pos, all_variable_rows(facts, facts.len())),
        k <= facts.len(),
    ensures
        variable_blocks(ls, pos + 7 * k, (facts.len() - k) as nat, read_variables(facts).take(k as int)) == Ok::<
            (Seq<VariableView>, nat),
            ParseErrorView,
        >((read_variables(facts), pos + 7 * facts.len())),
    decreases facts.len() - k,
{
    let vs = read_variables(facts);
    if k < facts.len() {
        lemma_block_held(ls, pos, facts, facts.len(), k);
        lemma_variable_read(ls, pos + 7 * k, k, facts[k as int]);
        assert(vs.take(k as int).push(read_variable(k, facts[k as int])) =~= vs.take((k + 1) as int));
        lemma_variables_read(ls, pos, facts, k + 1);
    } else {
        assert(vs.take(k as int) =~= vs);
    }
}

proof fn lemma_state_read(ls: Seq<Seq<char>>, pos: nat, init: Seq<bool>, facts: Seq<Seq<char>>, k: nat)
    requires
        holds(ls, pos, state_rows(init)),
        init.len() == facts.len(),
        facts.len() <= usize::MAX,
        k <= init.len(),
    ensures
        initial_lines(ls, pos + k, read_variables(facts), init.map_values(|truth: bool| read_value(truth)).take(k as int)) == Ok::<
            (Seq<usize>, nat),
            ParseErrorView,
        >((init.map_values(|truth: bool| read_value(truth)), pos + init.len())),
    decreases init.len() - k,
{
    let values = init.map_values(|truth: bool| read_value(truth));
    if k < init.len() {
        lemma_holds_at(ls, pos, state_rows(init), k as int);
        lemma_number_row(ls, pos + k, truth_value(init[k as int]), "initial value"@);
        assert(values.take(k as int).push(read_value(init[k as int])) =~= values.take((k + 1) as int));
        assert(fact_in(read_variables(facts), Fact { variable: k as usize, value: read_value(init[k as int]) }));
        lemma_state_read(ls, pos, init, facts, k + 1);
    } else {
        assert(values.take(k as int) =~= values);
    }
}

/// The numbers in the words of an effect.
proof fn lemma_effect_fields(o: GroundOpView, e: GroundEffectView)
    requires
        e.cond.len() <= isize::MAX,
    ensures
        ({
            let ws = effect_words(o, e);
            let n = e.cond.len() as int;
            &&& ws.len() == 4 + 2 * n
            &&& ws[0] == decimal(e.cond.len())
            &&& forall|i: int| 0 <= i < n ==> ws[1 + 2 * i] == decimal((#[trigger] e.cond[i]).0 as nat)
            &&& forall|i: int| 0 <= i < n ==> ws[2 + 2 * i] == decimal(truth_value((#[trigger] e.cond[i]).1))
            &&& ws[1 + 2 * n] == decimal(e.fact as nat)
            &&& ws[2 + 2 * n] == old_value_text(o, e.fact)
            &&& ws[3 + 2 * n] == decimal(truth_value(e.value))
        }),
{
    let ws = effect_words(o, e);
    let n = e.cond.len() as int;
    let cs = condition_words(e.cond, e.cond.len());
    lemma_condition_words(e.cond, e.cond.len());
    assert forall|i: int| 0 <= i < n implies ws[1 + 2 * i] == decimal((#[trigger] e.cond[i]).0 as nat) by {
        assert(ws[1 + 2 * i] == cs[2 * i]);
    }
    assert forall|i: int| 0 <= i < n implies ws[2 + 2 * i] == decimal(truth_value((#[trigger] e.cond[i]).1)) by {
        assert(ws[2 + 2 * i] == cs[2 * i + 1]);
    }
}

proof fn lemma_field(n: nat)
    requires
        n <= isize::MAX,
    ensures
        signed_field(decimal(n)) == Some(n as int),
{
    lemma_number(n);
}

proof fn lemma_conditions_read(o: GroundOpView, e: GroundEffectView, facts: Seq<Seq<char>>, line: nat, k: nat)
    requires
        are_known(e.cond, facts.len()),
        facts.len() <= isize::MAX,
        k <= e.cond.len(),
    ensures
        effect_conditions(effect_words(o, e), e.cond.len(), read_variables(facts), line, read_facts(e.cond).take(k as int)) == Ok::<
            Seq<Fact>,
            ParseErrorView,
        >(read_facts(e.cond)),
    decreases e.cond.len() - k,
{
    if k < e.cond.len() {
        let f = e.cond[k as int];
        lemma_effect_fields(o, e);
        lemma_field(f.0 as nat);
        lemma_field(truth_value(f.1));
        lemma_read_push(e.cond, k as int);
        assert(read_facts(e.cond).take(k as int).len() == k);
        assert(fact_in(read_variables(facts), read_fact(f)));
        lemma_conditions_read(o, e, facts, line, k + 1);
    } else {
        assert(read_facts(e.cond).take(k as int) =~= read_facts(e.cond));
    }
}

proof fn lemma_effect_read(o: GroundOpView, e: GroundEffectView, facts: Seq<Seq<char>>, line: nat)
    requires
        are_known(e.cond, facts.len()),
        facts.len() <= isize::MAX,
        e.fact < facts.len(),
    ensures
        effect_of_line(spaced(effect_words(o, e)), read_variables(facts), line) == Ok::<EffectView, ParseErrorView>(read_effect(o, e)),
{
    reveal(effect_of_line);
    let vs = read_variables(facts);
    let n = e.cond.len();
    lemma_effect_words(o, e);
    lemma_effect_fields(o, e);
    lemma_field(n);
    lemma_conditions_read(o, e, facts, line, 0);
    assert(read_facts(e.cond).take(0) =~= Seq::empty());
    lemma_field(e.fact as nat);
    lemma_field(truth_value(e.value));
    lemma_field(0);
    lemma_field(1);
    lemma_word_minus_one();
    assert(fact_in(vs, Fact { variable: e.fact, value: 0 }));
    assert(fact_in(vs, Fact { variable: e.fact, value: 1 }));
}

proof fn lemma_effects_read(ls: Seq<Seq<char>>, pos: nat, o: GroundOpView, facts: Seq<Seq<char>>, k: nat)
    requires
        holds(ls, pos, effect_rows(o)),
        is_op_known(o, facts.len()),
        facts.len() <= isize::MAX,
        k <= o.effects.len(),
    ensures
        effect_lines(ls, pos + k, (o.effects.len() - k) as nat, read_variables(facts), read_effects(o).take(k as int)) == Ok::<
            (Seq<EffectView>, nat),
            ParseErrorView,
        >((read_effects(o), pos + o.effects.len())),
    decreases o.effects.len() - k,
{
    let es = read_effects(o);
    if k < o.effects.len() {
        let e = o.effects[k as int];
        lemma_holds_at(ls, pos, effect_rows(o), k as int);
        lemma_effect_words(o, e);
        lemma_effect_read(o, e, facts, crate::fdr_text::line_at(pos + k + 1));
        assert(es.take(k as int).push(read_effect(o, e)) =~= es.take((k + 1) as int));
        lemma_effects_read(ls, pos, o, facts, k + 1);
    } else {
        assert(es.take(k as int) =~= es);
    }
}

proof fn lemma_prevail_known(o: GroundOpView, n: nat, m: nat)
    requires
        n <= o.pre.len(),
        forall|i: int| 0 <= i < o.pre.len() ==> (#[trigger] o.pre[i]).0 < m,
    ensures
        prevail_of(o, n).len() <= n,
        forall|i: int| 0 <= i < prevail_of(o, n).len() ==> (#[trigger] prevail_of(o, n)[i]).0 < m,
    decreases n,
{
    if n > 0 {
        lemma_prevail_known(o, (n - 1) as nat, m);
    }
}

proof fn lemma_op_read(ls: Seq<Seq<char>>, pos: nat, o: GroundOpView, facts: Seq<Seq<char>>)
    requires
        holds(ls, pos, op_rows(o)),
        is_op_known(o, facts.len()),
        facts.len() <= isize::MAX,
    ensures
        operator_block(ls, pos, read_variables(facts)) == Ok::<(OperatorView, nat), ParseErrorView>((read_op(o), pos + op_rows(o).len())),
{
    reveal(operator_block);
    let prevail = prevail_of(o, o.pre.len());
    lemma_prevail_known(o, o.pre.len(), facts.len());
    let first = seq!["begin_operator"@, o.name, decimal(prevail.len())];
    let second = (first + fact_rows(prevail)).push(decimal(o.effects.len()));
    let last = seq!["1"@, "end_operator"@];
    let third = second + effect_rows(o);
    lemma_holds_parts(ls, pos, third, last);
    lemma_holds_parts(ls, pos, second, effect_rows(o));
    let p = prevail.len();
    let q = o.effects.len();
    assert(second =~= first + fact_rows(prevail) + seq![decimal(q)]);
    lemma_holds_parts(ls, pos, first + fact_rows(prevail), seq![decimal(q)]);
    lemma_holds_parts(ls, pos, first, fact_rows(prevail));
    lemma_holds_at(ls, pos, first, 0);
    lemma_holds_at(ls, pos, first, 1);
    lemma_holds_at(ls, pos, first, 2);
    lemma_word_begin_operator();
    lemma_word_end_operator();
    lemma_small_numbers();
    lemma_number_row(ls, pos + 2, p, "prevail count"@);
    lemma_facts_read(ls, pos + 3, prevail, "prevail fact"@, facts);
    lemma_holds_at(ls, pos + 3 + p, seq![decimal(q)], 0);
    lemma_number_row(ls, pos + 3 + p, q, "effect count"@);
    lemma_effects_read(ls, pos + 4 + p, o, facts, 0);
    assert(read_effects(o).take(0) =~= Seq::empty());
    lemma_holds_at(ls, pos + 4 + p + q, last, 0);
    lemma_holds_at(ls, pos + 4 + p + q, last, 1);
    lemma_number_row(ls, pos + 4 + p + q, 1, "operator cost"@);
}

proof fn lemma_op_held(ls: Seq<Seq<char>>, pos: nat, ops: Seq<GroundOpView>, n: nat, k: nat)
    requires
        holds(ls, pos, all_op_rows(ops, n)),
        k < n <= ops.len(),
    ensures
        holds(ls, pos + all_op_rows(ops, k).len(), op_rows(ops[k as int])),
    decreases n,
{
    let m = (n - 1) as nat;
    lemma_holds_parts(ls, pos, all_op_rows(ops, m), op_rows(ops[n - 1]));
    if k < m {
        lemma_op_held(ls, pos, ops, m, k);
    }
}

proof fn lemma_ops_read(ls: Seq<Seq<char>>, pos: nat, ops: Seq<GroundOpView>, facts: Seq<Seq<char>>, k: nat)
    requires
        holds(ls, pos, all_op_rows(ops, ops.len())),
        forall|i: int| 0 <= i < ops.len() ==> is_op_known(#[trigger] ops[i], facts.len()),
        facts.len() <= isize::MAX,
        k <= ops.len(),
    ensures
        operator_blocks(
            ls,
            pos + all_op_rows(ops, k).len(),
            (ops.len() - k) as nat,
            read_variables(facts),
            read_ops(ops).take(k as int),
        ) == Ok::<(Seq<OperatorView>, nat), ParseErrorView>((read_ops(ops), pos + all_op_rows(ops, ops.len()).len())),
    decreases ops.len() - k,
{
    let os = read_ops(ops);
    if k < ops.len() {
        let o = ops[k as int];
        lemma_op_held(ls, pos, ops, ops.len(), k);
        lemma_op_read(ls, pos + all_op_rows(ops, k).len(), o, facts);
        assert(os.take(k as int).push(read_op(o)) =~= os.take((k + 1) as int));
        assert(all_op_rows(ops, k + 1).len() == all_op_rows(ops, k).len() + op_rows(o).len());
        lemma_ops_read(ls, pos, ops, facts, k + 1);
    } else {
        assert(os.take(k as int) =~= os);
    }
}

spec fn variable_part(t: GroundTaskView) -> Seq<Seq<char>> {
    seq![decimal(t.facts.len())] + all_variable_rows(t.facts, t.facts.len()) + seq!["0"@]
}

spec fn state_part(t: GroundTaskView) -> Seq<Seq<char>> {
    seq!["begin_state"@] + state_rows(t.init) + seq!["end_state"@]
}

spec fn goal_part(t: GroundTaskView) -> Seq<Seq<char>> {
    seq!["begin_goal"@, decimal(t.goal.len())] + fact_rows(t.goal) + seq!["end_goal"@]
}

spec fn operator_part(t: GroundTaskView) -> Seq<Seq<char>> {
    seq![decimal(t.ops.len())] + all_op_rows(t.ops, t.ops.len()) + seq!["0"@]
}

proof fn lemma_parts(t: GroundTaskView)
    ensures
        sas_rows(t) == head_rows() + variable_part(t) + state_part(t) + goal_part(t) + operator_part(t),
{
    let r2 = head_rows() + variable_part(t);
    assert(rows_to_variables(t).push("0"@) =~= r2);
    let r3 = r2 + state_part(t);
    assert(rows_to_state(t).push("end_state"@) =~= r3);
    let r4 = r3 + goal_part(t);
    assert(rows_to_goal(t).push("end_goal"@) =~= r4);
    let r5 = r4 + operator_part(t);
    assert(rows_to_operators(t).push("0"@) =~= r5);
}

proof fn lemma_head_read(ls: Seq<Seq<char>>)
    requires
        holds(ls, 0, head_rows()),
    ensures
        header(ls) == Ok::<nat, ParseErrorView>(6),
{
    reveal(header);
    lemma_holds_at(ls, 0, head_rows(), 0);
    lemma_holds_at(ls, 0, head_rows(), 1);
    lemma_holds_at(ls, 0, head_rows(), 2);
    lemma_holds_at(ls, 0, head_rows(), 3);
    lemma_holds_at(ls, 0, head_rows(), 4);
    lemma_holds_at(ls, 0, head_rows(), 5);
    lemma_word_begin_version();
    lemma_word_end_version();
    lemma_word_begin_metric();
    lemma_word_end_metric();
    lemma_small_numbers();
    lemma_number_row(ls, 1, 3, "SAS+ version"@);
    lemma_number_row(ls, 4, 0, "metric flag"@);
}

proof fn lemma_variable_part_read(ls: Seq<Seq<char>>, pos: nat, t: GroundTaskView)
    requires
        holds(ls, pos, variable_part(t)),
        t.facts.len() <= isize::MAX,
    ensures
        variable_section(ls, pos) == Ok::<(Seq<VariableView>, nat), ParseErrorView>((read_variables(t.facts), pos + variable_part(t).len())),
{
    reveal(variable_section);
    let n = t.facts.len();
    let first = seq![decimal(n)];
    let rows = all_variable_rows(t.facts, n);
    lemma_holds_parts(ls, pos, first + rows, seq!["0"@]);
    lemma_holds_parts(ls, pos, first, rows);
    lemma_holds_at(ls, pos, first, 0);
    lemma_number_row(ls, pos, n, "variable count"@);
    lemma_variables_read(ls, pos + 1, t.facts, 0);
    assert(read_variables(t.facts).take(0) =~= Seq::empty());
    lemma_rows_len(t.facts, n);
    lemma_holds_at(ls, pos + 1 + 7 * n, seq!["0"@], 0);
    lemma_small_numbers();
    lemma_number_row(ls, pos + 1 + 7 * n, 0, "mutex group count"@);
}

proof fn lemma_state_part_read(ls: Seq<Seq<char>>, pos: nat, t: GroundTaskView)
    requires
        holds(ls, pos, state_part(t)),
        t.wf(),
        t.facts.len() <= isize::MAX,
    ensures
        state_section(ls, pos, read_variables(t.facts)) == Ok::<(Seq<usize>, nat), ParseErrorView>(
            (t.init.map_values(|truth: bool| read_value(truth)), pos + state_part(t).len()),
        ),
{
    reveal(state_section);
    let first = seq!["begin_state"@];
    let rows = state_rows(t.init);
    lemma_holds_parts(ls, pos, first + rows, seq!["end_state"@]);
    lemma_holds_parts(ls, pos, first, rows);
    lemma_holds_at(ls, pos, first, 0);
    lemma_word_begin_state();
    lemma_word_end_state();
    lemma_state_read(ls, pos + 1, t.init, t.facts, 0);
    assert(t.init.map_values(|truth: bool| read_value(truth)).take(0) =~= Seq::empty());
    lemma_holds_at(ls, pos + 1 + t.init.len(), seq!["end_state"@], 0);
}

proof fn lemma_goal_part_read(ls: Seq<Seq<char>>, pos: nat, t: GroundTaskView)
    requires
        holds(ls, pos, goal_part(t)),
        are_known(t.goal, t.facts.len()),
    ensures
        goal_section(ls, pos, read_variables(t.facts)) == Ok::<(Seq<Fact>, nat), ParseErrorView>(
            (read_facts(t.goal), pos + goal_part(t).len()),
        ),
{
    reveal(goal_section);
    let first = seq!["begin_goal"@, decimal(t.goal.len())];
    let rows = fact_rows(t.goal);
    lemma_holds_parts(ls, pos, first + rows, seq!["end_goal"@]);
    lemma_holds_parts(ls, pos, first, rows);
    lemma_holds_at(ls, pos, first, 0);
    lemma_holds_at(ls, pos, first, 1);
    lemma_word_begin_goal();
    lemma_word_end_goal();
    lemma_number_row(ls, pos + 1, t.goal.len(), "goal count"@);
    lemma_facts_read(ls, pos + 2, t.goal, "goal fact"@, t.facts);
    lemma_holds_at(ls, pos + 2 + t.goal.len(), seq!["end_goal"@], 0);
}

proof fn lemma_operator_part_read(ls: Seq<Seq<char>>, pos: nat, t: GroundTaskView)
    requires
        holds(ls, pos, operator_part(t)),
        ls.len() == pos + operator_part(t).len(),
        is_writable(t),
    ensures
        rule_sections(ls, pos, read_variables(t.facts)) == Ok::<(Seq<OperatorView>, Seq<AxiomView>), ParseErrorView>(
            (read_ops(t.ops), Seq::empty()),
        ),
{
    reveal(rule_sections);
    let n = t.ops.len();
    let first = seq![decimal(n)];
    let rows = all_op_rows(t.ops, n);
    lemma_holds_parts(ls, pos, first + rows, seq!["0"@]);
    lemma_holds_parts(ls, pos, first, rows);
    lemma_holds_at(ls, pos, first, 0);
    lemma_number_row(ls, pos, n, "operator count"@);
    lemma_ops_read(ls, pos + 1, t.ops, t.facts, 0);
    assert(read_ops(t.ops).take(0) =~= Seq::empty());
    assert(all_op_rows(t.ops, 0).len() == 0);
    lemma_holds_at(ls, pos + 1 + rows.len(), seq!["0"@], 0);
    lemma_small_numbers();
    lemma_number_row(ls, pos + 1 + rows.len(), 0, "axiom count"@);
}

/// A task that is written down reads back as the same task: the text of a ground task,
/// where it speaks of its own facts only and its names keep to one line, denotes the
/// finite-domain task with a two-valued variable for each fact.
pub proof fn written_tasks_read_back(t: GroundTaskView)
    requires
        is_writable(t),
    ensures
        task_of(lines(sas_text(t))) == Ok::<TaskView, ParseErrorView>(read_task(t)),
{
    let ls = sas_rows(t);
    lemma_sas_text(t);
    lemma_sas_rows(t);
    lemma_lines_back(ls);
    lemma_parts(t);
    let r1 = head_rows();
    let r2 = r1 + variable_part(t);
    let r3 = r2 + state_part(t);
    let r4 = r3 + goal_part(t);
    assert(holds(ls, 0, ls));
    lemma_holds_parts(ls, 0, r4, operator_part(t));
    lemma_holds_parts(ls, 0, r3, goal_part(t));
    lemma_holds_parts(ls, 0, r2, state_part(t));
    lemma_holds_parts(ls, 0, r1, variable_part(t));
    lemma_head_read(ls);
    lemma_variable_part_read(ls, 6, t);
    lemma_state_part_read(ls, r2.len(), t);
    lemma_goal_part_read(ls, r3.len(), t);
    lemma_operator_part_read(ls, r4.len(), t);
}

proof fn lemma_last_pre(o: GroundOpView, v: usize, k: nat)
    requires
        k <= o.effects.len(),
    ensures
        last_pre(read_effects(o).take(k as int), v) == if is_affected(o.effects.take(k as int), v) {
            read_truth(required_truth(o.pre, v, o.pre.len()))
        } else {
            None
        },
    decreases k,
{
    let es = o.effects.take(k as int);
    if k > 0 {
        let m = (k - 1) as nat;
        lemma_last_pre(o, v, m);
        let before = o.effects.take(m as int);
        assert(read_effects(o).take(k as int).drop_last() =~= read_effects(o).take(m as int));
        assert(read_effects(o).take(k as int).last() == read_effect(o, o.effects[k - 1]));
        if is_affected(before, v) {
            let i = choose|i: int| 0 <= i < before.len() && (#[trigger] before[i]).fact == v;
            assert(es[i].fact == v);
        }
        if o.effects[k - 1].fact == v {
            assert(es[k - 1].fact == v);
        } else if is_affected(es, v) {
            let i = choose|i: int| 0 <= i < es.len() && (#[trigger] es[i]).fact == v;
            assert(before[i].fact == v);
        }
    }
}

proof fn lemma_last_value(o: GroundOpView, v: usize, k: nat)
    requires
        k <= o.pre.len(),
    ensures
        last_value(read_facts(prevail_of(o, k)), v) == if is_affected(o.effects, v) {
            None
        } else {
            read_truth(required_truth(o.pre, v, k))
        },
    decreases k,
{
    if k > 0 {
        let m = (k - 1) as nat;
        lemma_last_value(o, v, m);
        let f = o.pre[k - 1];
        if !is_affected(o.effects, f.0) {
            let before = prevail_of(o, m);
            assert(read_facts(before.push(f)).drop_last() =~= read_facts(before));
            assert(read_facts(before.push(f)).last() == read_fact(f));
        }
    }
}

/// An operator that is written down and read back requires of each fact what it required.
pub proof fn written_operators_keep_their_preconditions(o: GroundOpView, fact: usize)
    ensures
        required_value(read_op(o), fact) == read_truth(required_truth(o.pre, fact, o.pre.len())),
{
    lemma_last_pre(o, fact, o.effects.len());
    lemma_last_value(o, fact, o.pre.len());
    assert(o.effects.take(o.effects.len() as int) =~= o.effects);
    assert(read_effects(o).take(o.effects.len() as int) =~= read_effects(o));
}

} // verus!
