//! What may follow a task in a text: blank lines, and nothing else.
use vstd::prelude::*;

use crate::fdr::{AxiomView, Fact, EffectView, OperatorView, VariableView};
use crate::fdr_text::{
    axiom_block, axiom_blocks, effect_lines, end_of_task, fact_line, fact_lines, goal_section, header, initial_lines, marker_line,
    mutex_blocks, next_line, number_line, operator_block, operator_blocks, rule_sections, signed_line, state_section, task_of,
    value_lines, variable_block, variable_blocks, variable_section,
};
use crate::text::{find_char, lemma_find_char, lines, split, trimmed};

verus! {

/// Whether a line is blank.
pub open spec fn is_blank(line: Seq<char>) -> bool {
    trimmed(line).len() == 0
}

/// Whether all lines are blank.
pub open spec fn all_blank(ls: Seq<Seq<char>>) -> bool {
    forall|i: int| 0 <= i < ls.len() ==> is_blank(#[trigger] ls[i])
}

/// Whether the one list of lines begins with the other.
spec fn begins(more: Seq<Seq<char>>, ls: Seq<Seq<char>>) -> bool {
    ls.len() <= more.len() && forall|i: int| 0 <= i < ls.len() ==> #[trigger] more[i] == ls[i]
}

/// Single lines read the same in a longer text.
proof fn lemma_line(ls: Seq<Seq<char>>, more: Seq<Seq<char>>)
    requires
        begins(more, ls),
    ensures
        forall|pos: nat, what: Seq<char>|
            (#[trigger] next_line(ls, pos, what)) matches Ok(x) ==> next_line(more, pos, what) == next_line(ls, pos, what) && x.1 <= ls.len(),
        forall|pos: nat, what: Seq<char>|
            (#[trigger] marker_line(ls, pos, what)) matches Ok(p) ==> marker_line(more, pos, what) == marker_line(ls, pos, what) && p
                <= ls.len(),
        forall|pos: nat, what: Seq<char>|
            (#[trigger] number_line(ls, pos, what)) matches Ok(x) ==> number_line(more, pos, what) == number_line(ls, pos, what) && x.1
                <= ls.len(),
        forall|pos: nat, what: Seq<char>|
            (#[trigger] signed_line(ls, pos, what)) matches Ok(x) ==> signed_line(more, pos, what) == signed_line(ls, pos, what) && x.1
                <= ls.len(),
        forall|pos: nat, what: Seq<char>, variables: Seq<VariableView>|
            (#[trigger] fact_line(ls, pos, what, variables)) matches Ok(x) ==> fact_line(more, pos, what, variables) == fact_line(
                ls,
                pos,
                what,
                variables,
            ) && x.1 <= ls.len(),
{
    assert forall|pos: nat, what: Seq<char>| (#[trigger] next_line(ls, pos, what)) matches Ok(x) implies next_line(more, pos, what)
        == next_line(ls, pos, what) && next_line(ls, pos, what)->Ok_0.1 <= ls.len() by {
        assert(more[pos as int] == ls[pos as int]);
    }
}

proof fn lemma_fact_lines(ls: Seq<Seq<char>>, more: Seq<Seq<char>>, pos: nat, n: nat, what: Seq<char>, variables: Seq<VariableView>, acc: Seq<Fact>)
    requires
        begins(more, ls),
        fact_lines(ls, pos, n, what, variables, acc) is Ok,
    ensures
        fact_lines(more, pos, n, what, variables, acc) == fact_lines(ls, pos, n, what, variables, acc),
    decreases n,
{
    lemma_line(ls, more);
    if n > 0 {
        let (fact, p) = fact_line(ls, pos, what, variables)->Ok_0;
        lemma_fact_lines(ls, more, p, (n - 1) as nat, what, variables, acc.push(fact));
    }
}

proof fn lemma_value_lines(ls: Seq<Seq<char>>, more: Seq<Seq<char>>, pos: nat, n: nat, acc: Seq<Seq<char>>)
    requires
        begins(more, ls),
        value_lines(ls, pos, n, acc) is Ok,
    ensures
        value_lines(more, pos, n, acc) == value_lines(ls, pos, n, acc),
    decreases n,
{
    lemma_line(ls, more);
    if n > 0 {
        let (value, p) = next_line(ls, pos, "variable value"@)->Ok_0;
        lemma_value_lines(ls, more, p, (n - 1) as nat, acc.push(value));
    }
}

proof fn lemma_variable_block(ls: Seq<Seq<char>>, more: Seq<Seq<char>>, pos: nat)
    requires
        begins(more, ls),
        variable_block(ls, pos) is Ok,
    ensures
        variable_block(more, pos) == variable_block(ls, pos),
{
    reveal(variable_block);
    lemma_line(ls, more);
    let p1 = marker_line(ls, pos, "begin_variable"@)->Ok_0;
    let (name, p2) = next_line(ls, p1, "variable name"@)->Ok_0;
    let (layer, p3) = signed_line(ls, p2, "axiom layer"@)->Ok_0;
    let (size, p4) = number_line(ls, p3, "variable domain size"@)->Ok_0;
    lemma_value_lines(ls, more, p4, size, Seq::empty());
}

proof fn lemma_variable_blocks(ls: Seq<Seq<char>>, more: Seq<Seq<char>>, pos: nat, n: nat, acc: Seq<VariableView>)
    requires
        begins(more, ls),
        variable_blocks(ls, pos, n, acc) is Ok,
    ensures
        variable_blocks(more, pos, n, acc) == variable_blocks(ls, pos, n, acc),
    decreases n,
{
    if n > 0 {
        lemma_variable_block(ls, more, pos);
        let (v, p) = variable_block(ls, pos)->Ok_0;
        lemma_variable_blocks(ls, more, p, (n - 1) as nat, acc.push(v));
    }
}

proof fn lemma_mutex_blocks(ls: Seq<Seq<char>>, more: Seq<Seq<char>>, pos: nat, n: nat, variables: Seq<VariableView>)
    requires
        begins(more, ls),
        mutex_blocks(ls, pos, n, variables) is Ok,
    ensures
        mutex_blocks(more, pos, n, variables) == mutex_blocks(ls, pos, n, variables),
    decreases n,
{
    lemma_line(ls, more);
    if n > 0 {
        let p1 = marker_line(ls, pos, "begin_mutex_group"@)->Ok_0;
        let (size, p2) = number_line(ls, p1, "mutex group size"@)->Ok_0;
        lemma_fact_lines(ls, more, p2, size, "mutex fact"@, variables, Seq::empty());
        let (facts, p3) = fact_lines(ls, p2, size, "mutex fact"@, variables, Seq::empty())->Ok_0;
        let p4 = marker_line(ls, p3, "end_mutex_group"@)->Ok_0;
        lemma_mutex_blocks(ls, more, p4, (n - 1) as nat, variables);
    }
}

proof fn lemma_initial_lines(ls: Seq<Seq<char>>, more: Seq<Seq<char>>, pos: nat, variables: Seq<VariableView>, acc: Seq<usize>)
    requires
        begins(more, ls),
        initial_lines(ls, pos, variables, acc) is Ok,
    ensures
        initial_lines(more, pos, variables, acc) == initial_lines(ls, pos, variables, acc),
    decreases variables.len() - acc.len(),
{
    lemma_line(ls, more);
    if acc.len() < variables.len() {
        let (value, p) = number_line(ls, pos, "initial value"@)->Ok_0;
        lemma_initial_lines(ls, more, p, variables, acc.push(value as usize));
    }
}

proof fn lemma_effect_lines(ls: Seq<Seq<char>>, more: Seq<Seq<char>>, pos: nat, n: nat, variables: Seq<VariableView>, acc: Seq<EffectView>)
    requires
        begins(more, ls),
        effect_lines(ls, pos, n, variables, acc) is Ok,
    ensures
        effect_lines(more, pos, n, variables, acc) == effect_lines(ls, pos, n, variables, acc),
    decreases n,
{
    lemma_line(ls, more);
    if n > 0 {
        let (text, p) = next_line(ls, pos, "effect"@)->Ok_0;
        let effect = crate::fdr_text::effect_of_line(text, variables, crate::fdr_text::line_at(p))->Ok_0;
        lemma_effect_lines(ls, more, p, (n - 1) as nat, variables, acc.push(effect));
    }
}

proof fn lemma_operator_block(ls: Seq<Seq<char>>, more: Seq<Seq<char>>, pos: nat, variables: Seq<VariableView>)
    requires
        begins(more, ls),
        operator_block(ls, pos, variables) is Ok,
    ensures
        operator_block(more, pos, variables) == operator_block(ls, pos, variables),
{
    reveal(operator_block);
    lemma_line(ls, more);
    let p1 = marker_line(ls, pos, "begin_operator"@)->Ok_0;
    let (name, p2) = next_line(ls, p1, "operator name"@)->Ok_0;
    let (n, p3) = number_line(ls, p2, "prevail count"@)->Ok_0;
    lemma_fact_lines(ls, more, p3, n, "prevail fact"@, variables, Seq::empty());
    let (prevail, p4) = fact_lines(ls, p3, n, "prevail fact"@, variables, Seq::empty())->Ok_0;
    let (m, p5) = number_line(ls, p4, "effect count"@)->Ok_0;
    lemma_effect_lines(ls, more, p5, m, variables, Seq::empty());
}

proof fn lemma_operator_blocks(ls: Seq<Seq<char>>, more: Seq<Seq<char>>, pos: nat, n: nat, variables: Seq<VariableView>, acc: Seq<OperatorView>)
    requires
        begins(more, ls),
        operator_blocks(ls, pos, n, variables, acc) is Ok,
    ensures
        operator_blocks(more, pos, n, variables, acc) == operator_blocks(ls, pos, n, variables, acc),
    decreases n,
{
    if n > 0 {
        lemma_operator_block(ls, more, pos, variables);
        let (o, p) = operator_block(ls, pos, variables)->Ok_0;
        lemma_operator_blocks(ls, more, p, (n - 1) as nat, variables, acc.push(o));
    }
}

proof fn lemma_rule_block(ls: Seq<Seq<char>>, more: Seq<Seq<char>>, pos: nat, variables: Seq<VariableView>)
    requires
        begins(more, ls),
        axiom_block(ls, pos, variables) is Ok,
    ensures
        axiom_block(more, pos, variables) == axiom_block(ls, pos, variables),
        axiom_block(ls, pos, variables)->Ok_0.1 <= ls.len(),
{
    reveal(axiom_block);
    lemma_line(ls, more);
    let p1 = marker_line(ls, pos, "begin_rule"@)->Ok_0;
    let (n, p2) = number_line(ls, p1, "axiom condition count"@)->Ok_0;
    lemma_fact_lines(ls, more, p2, n, "axiom condition"@, variables, Seq::empty());
    let (conditions, p3) = fact_lines(ls, p2, n, "axiom condition"@, variables, Seq::empty())->Ok_0;
    let (text, p4) = next_line(ls, p3, "axiom effect"@)->Ok_0;
    assert(marker_line(ls, p4, "end_rule"@) is Ok);
}

proof fn lemma_rule_blocks(ls: Seq<Seq<char>>, more: Seq<Seq<char>>, pos: nat, n: nat, variables: Seq<VariableView>, acc: Seq<AxiomView>)
    requires
        begins(more, ls),
        pos <= ls.len(),
        axiom_blocks(ls, pos, n, variables, acc) is Ok,
    ensures
        axiom_blocks(more, pos, n, variables, acc) == axiom_blocks(ls, pos, n, variables, acc),
        axiom_blocks(ls, pos, n, variables, acc)->Ok_0.1 <= ls.len(),
    decreases n,
{
    if n > 0 {
        lemma_rule_block(ls, more, pos, variables);
        let (a, p) = axiom_block(ls, pos, variables)->Ok_0;
        lemma_rule_blocks(ls, more, p, (n - 1) as nat, variables, acc.push(a));
    }
}

/// A list ends in blank lines exactly if the end of the task is found there.
proof fn lemma_end(ls: Seq<Seq<char>>, pos: nat, found: nat)
    requires
        pos <= ls.len(),
    ensures
        end_of_task(ls, pos, found) is Ok <==> forall|i: int| pos <= i < ls.len() ==> is_blank(#[trigger] ls[i]),
    decreases ls.len() - pos,
{
    if pos < ls.len() {
        if is_blank(ls[pos as int]) {
            lemma_end(ls, pos + 1, found);
        }
    }
}

/// The sections read the same in a longer text, if what follows is blank; else the rest
/// is refused.
proof fn lemma_rules(ls: Seq<Seq<char>>, more: Seq<Seq<char>>, pos: nat, variables: Seq<VariableView>)
    requires
        begins(more, ls),
        rule_sections(ls, pos, variables) is Ok,
    ensures
        if forall|i: int| ls.len() <= i < more.len() ==> is_blank(#[trigger] more[i]) {
            rule_sections(more, pos, variables) == rule_sections(ls, pos, variables)
        } else {
            rule_sections(more, pos, variables) is Err
        },
{
    reveal(rule_sections);
    lemma_line(ls, more);
    let (n, p1) = number_line(ls, pos, "operator count"@)->Ok_0;
    lemma_operator_blocks(ls, more, p1, n, variables, Seq::empty());
    let (operators, p2) = operator_blocks(ls, p1, n, variables, Seq::empty())->Ok_0;
    let (m, p3) = number_line(ls, p2, "axiom count"@)->Ok_0;
    lemma_rule_blocks(ls, more, p3, m, variables, Seq::empty());
    let (rules, p4) = axiom_blocks(ls, p3, m, variables, Seq::empty())->Ok_0;
    lemma_end(ls, p4, p4);
    lemma_end(more, p4, p4);
    assert(forall|i: int| p4 <= i < ls.len() ==> is_blank(#[trigger] more[i]));
}

/// A list of lines that makes a task makes the same task with blank lines behind it,
/// and none with anything else behind it.
pub proof fn only_blanks_follow_a_task(ls: Seq<Seq<char>>, extra: Seq<Seq<char>>)
    requires
        task_of(ls) is Ok,
    ensures
        all_blank(extra) ==> task_of(ls + extra) == task_of(ls),
        !all_blank(extra) ==> task_of(ls + extra) is Err,
{
    let more = ls + extra;
    assert(begins(more, ls));
    assert((forall|i: int| ls.len() <= i < more.len() ==> is_blank(#[trigger] more[i])) <==> all_blank(extra)) by {
        if all_blank(extra) {
            assert forall|i: int| ls.len() <= i < more.len() implies is_blank(#[trigger] more[i]) by {
                assert(more[i] == extra[i - ls.len()]);
            }
        } else {
            let i = choose|i: int| 0 <= i < extra.len() && !is_blank(#[trigger] extra[i]);
            assert(more[i + ls.len()] == extra[i]);
        }
    }
    lemma_line(ls, more);
    let p1 = header(ls)->Ok_0;
    assert(header(more) == header(ls)) by {
        reveal(header);
    }
    let (variables, p2) = variable_section(ls, p1)->Ok_0;
    assert(variable_section(more, p1) == variable_section(ls, p1)) by {
        reveal(variable_section);
        let (n, q1) = number_line(ls, p1, "variable count"@)->Ok_0;
        lemma_variable_blocks(ls, more, q1, n, Seq::empty());
        let (vs, q2) = variable_blocks(ls, q1, n, Seq::empty())->Ok_0;
        let (m, q3) = number_line(ls, q2, "mutex group count"@)->Ok_0;
        lemma_mutex_blocks(ls, more, q3, m, vs);
    }
    let (initial, p3) = state_section(ls, p2, variables)->Ok_0;
    assert(state_section(more, p2, variables) == state_section(ls, p2, variables)) by {
        reveal(state_section);
        let q1 = marker_line(ls, p2, "begin_state"@)->Ok_0;
        lemma_initial_lines(ls, more, q1, variables, Seq::empty());
    }
    let (goals, p4) = goal_section(ls, p3, variables)->Ok_0;
    assert(goal_section(more, p3, variables) == goal_section(ls, p3, variables)) by {
        reveal(goal_section);
        let q1 = marker_line(ls, p3, "begin_goal"@)->Ok_0;
        let (n, q2) = number_line(ls, q1, "goal count"@)->Ok_0;
        lemma_fact_lines(ls, more, q2, n, "goal fact"@, variables, Seq::empty());
    }
    lemma_rules(ls, more, p4, variables);
}

/// Splitting two texts that a separator joins splits each of them.
pub proof fn lemma_split_joined(s: Seq<char>, u: Seq<char>, sep: char)
    ensures
        split(s + seq![sep] + u, sep) == split(s, sep) + split(u, sep),
    decreases s.len(),
{
    let whole = s + seq![sep] + u;
    let k = find_char(s, sep);
    lemma_find_char(s, sep);
    lemma_find_char(whole, sep);
    let m = find_char(whole, sep);
    if 0 <= k < s.len() {
        assert(whole[k] == sep);
        assert(m == k) by {
            if m < k {
                assert(whole[m] == s[m]);
            }
        }
        assert(whole.take(k) =~= s.take(k));
        assert(whole.skip(k + 1) =~= s.skip(k + 1) + seq![sep] + u);
        lemma_split_joined(s.skip(k + 1), u, sep);
        assert(split(whole, sep) =~= split(s, sep) + split(u, sep));
    } else {
        assert(whole[s.len() as int] == sep);
        assert(m == s.len()) by {
            if m < s.len() {
                assert(whole[m] == s[m]);
            }
        }
        assert(whole.take(m) =~= s);
        assert(whole.skip(m + 1) =~= u);
        assert(split(whole, sep) =~= split(s, sep) + split(u, sep));
    }
}

/// The lines of a text with a second one behind it on lines of its own: those of the
/// first, an empty one where the first ends a line already, and those of the second.
proof fn lemma_lines_joined(s: Seq<char>, u: Seq<char>) -> (extra: Seq<Seq<char>>)
    ensures
        lines(s + seq!['\n'] + u) == lines(s) + extra,
        all_blank(extra) <==> all_blank(lines(u)),
{
    let a = split(s, '\n');
    let b = split(u, '\n');
    lemma_split_joined(s, u, '\n');
    assert((a + b).last() == b.last());
    assert(lines(s + seq!['\n'] + u) =~= a + lines(u));
    if a.last().len() == 0 {
        let extra = seq![a.last()] + lines(u);
        assert(a =~= lines(s) + seq![a.last()]);
        assert(lines(s) + extra =~= a + lines(u));
        assert(is_blank(a.last())) by {
            assert(a.last() =~= Seq::empty());
        }
        if all_blank(lines(u)) {
            assert forall|i: int| 0 <= i < extra.len() implies is_blank(#[trigger] extra[i]) by {
                if i > 0 {
                    assert(extra[i] == lines(u)[i - 1]);
                }
            }
        } else {
            let i = choose|i: int| 0 <= i < lines(u).len() && !is_blank(#[trigger] lines(u)[i]);
            assert(extra[i + 1] == lines(u)[i]);
        }
        extra
    } else {
        lines(u)
    }
}

/// A text that denotes a task denotes the same task with blank lines behind it.
pub proof fn trailing_blanks_are_ignored(s: Seq<char>, blanks: Seq<char>)
    requires
        task_of(lines(s)) is Ok,
        all_blank(lines(blanks)),
    ensures
        task_of(lines(s + seq!['\n'] + blanks)) == task_of(lines(s)),
{
    let extra = lemma_lines_joined(s, blanks);
    only_blanks_follow_a_task(lines(s), extra);
}

/// A text that denotes a task is refused with other text on the lines behind it.
pub proof fn trailing_text_is_refused(s: Seq<char>, text: Seq<char>)
    requires
        task_of(lines(s)) is Ok,
        !all_blank(lines(text)),
    ensures
        task_of(lines(s + seq!['\n'] + text)) is Err,
{
    let extra = lemma_lines_joined(s, text);
    only_blanks_follow_a_task(lines(s), extra);
}

} // verus!
