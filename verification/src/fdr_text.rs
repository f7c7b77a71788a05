//! The SAS+ text format, version 3: what a text denotes, and its parser.
use vstd::prelude::*;

use crate::fdr::{
    axiom_views, effect_views, fact_in, facts_in, operator_views, string_views, variable_views, Axiom, AxiomView, Effect,
    EffectView, Fact, Operator, OperatorView, ParseError, ParseErrorView, Task, TaskView, Variable, VariableView,
};
use crate::text::{
    bounded_value, chars_of, decimal, lines, parse_isize, parse_usize, push_number, push_signed, signed_decimal,
    signed_value, spells, split_lines, split_words, string_of, texts, trim, trimmed, words,
};

verus! {

/// The line number that an error met after reading `pos` lines reports.
pub open spec fn line_at(pos: nat) -> nat {
    if pos > 1 {
        pos
    } else {
        1
    }
}

pub open spec fn fail<T>(pos: nat, message: Seq<char>) -> Result<T, ParseErrorView> {
    Err(ParseErrorView { line: line_at(pos), message })
}

pub open spec fn invalid(what: Seq<char>, text: Seq<char>) -> Seq<char> {
    "invalid "@ + what + " `"@ + text + "`"@
}

/// The next line, trimmed.
pub open spec fn next_line(ls: Seq<Seq<char>>, pos: nat, what: Seq<char>) -> Result<(Seq<char>, nat), ParseErrorView> {
    if pos < ls.len() {
        Ok((trimmed(ls[pos as int]), pos + 1))
    } else {
        fail(pos, "expected "@ + what + ", found end of input"@)
    }
}

/// A line that holds exactly `expected`.
pub open spec fn marker_line(ls: Seq<Seq<char>>, pos: nat, expected: Seq<char>) -> Result<nat, ParseErrorView> {
    match next_line(ls, pos, expected) {
        Err(e) => Err(e),
        Ok((actual, p)) => if actual == expected {
            Ok(p)
        } else {
            fail(p, "expected `"@ + expected + "`, found `"@ + actual + "`"@)
        },
    }
}

/// A line that holds one unsigned number.
pub open spec fn number_line(ls: Seq<Seq<char>>, pos: nat, what: Seq<char>) -> Result<(nat, nat), ParseErrorView> {
    match next_line(ls, pos, what) {
        Err(e) => Err(e),
        Ok((text, p)) => match bounded_value(text, usize::MAX as nat) {
            Some(n) => Ok((n, p)),
            None => fail(p, invalid(what, text)),
        },
    }
}

/// The signed number that the text denotes, when it fits in an `isize`.
pub open spec fn signed_field(text: Seq<char>) -> Option<int> {
    match signed_value(text) {
        Some(n) => if isize::MIN <= n <= isize::MAX {
            Some(n)
        } else {
            None
        },
        None => None,
    }
}

/// A line that holds one signed number.
pub open spec fn signed_line(ls: Seq<Seq<char>>, pos: nat, what: Seq<char>) -> Result<(int, nat), ParseErrorView> {
    match next_line(ls, pos, what) {
        Err(e) => Err(e),
        Ok((text, p)) => match signed_field(text) {
            Some(n) => Ok((n, p)),
            None => fail(p, invalid(what, text)),
        },
    }
}

pub open spec fn out_of_range(variables: Seq<VariableView>, fact: Fact) -> Seq<char> {
    if fact.variable >= variables.len() {
        "variable "@ + decimal(fact.variable as nat) + " is out of range"@
    } else {
        "value "@ + decimal(fact.value as nat) + " is out of range for variable "@ + decimal(fact.variable as nat)
            + " (domain size "@ + decimal(variables[fact.variable as int].values.len()) + ")"@
    }
}

/// A line that holds a fact: a variable and a value of it.
pub open spec fn fact_line(ls: Seq<Seq<char>>, pos: nat, what: Seq<char>, variables: Seq<VariableView>) -> Result<
    (Fact, nat),
    ParseErrorView,
> {
    match next_line(ls, pos, what) {
        Err(e) => Err(e),
        Ok((text, p)) => {
            let fields = words(text);
            if fields.len() != 2 {
                fail(p, invalid(what, text))
            } else {
                match bounded_value(fields[0], usize::MAX as nat) {
                    None => fail(p, "invalid variable in "@ + what + " `"@ + text + "`"@),
                    Some(variable) => match bounded_value(fields[1], usize::MAX as nat) {
                        None => fail(p, "invalid value in "@ + what + " `"@ + text + "`"@),
                        Some(value) => {
                            let fact = Fact { variable: variable as usize, value: value as usize };
                            if fact_in(variables, fact) {
                                Ok((fact, p))
                            } else {
                                fail(p, out_of_range(variables, fact))
                            }
                        },
                    },
                }
            }
        },
    }
}

/// `n` fact lines, behind those in `acc`.
pub open spec fn fact_lines(
    ls: Seq<Seq<char>>,
    pos: nat,
    n: nat,
    what: Seq<char>,
    variables: Seq<VariableView>,
    acc: Seq<Fact>,
) -> Result<(Seq<Fact>, nat), ParseErrorView>
    decreases n,
{
    if n == 0 {
        Ok((acc, pos))
    } else {
        match fact_line(ls, pos, what, variables) {
            Err(e) => Err(e),
            Ok((fact, p)) => fact_lines(ls, p, (n - 1) as nat, what, variables, acc.push(fact)),
        }
    }
}

/// `n` value names, behind those in `acc`.
pub open spec fn value_lines(ls: Seq<Seq<char>>, pos: nat, n: nat, acc: Seq<Seq<char>>) -> Result<
    (Seq<Seq<char>>, nat),
    ParseErrorView,
>
    decreases n,
{
    if n == 0 {
        Ok((acc, pos))
    } else {
        match next_line(ls, pos, "variable value"@) {
            Err(e) => Err(e),
            Ok((value, p)) => value_lines(ls, p, (n - 1) as nat, acc.push(value)),
        }
    }
}

/// One variable: its name, its axiom layer (unused), its values.
#[verifier::opaque]
pub open spec fn variable_block(ls: Seq<Seq<char>>, pos: nat) -> Result<(VariableView, nat), ParseErrorView> {
    match marker_line(ls, pos, "begin_variable"@) {
        Err(e) => Err(e),
        Ok(p1) => match next_line(ls, p1, "variable name"@) {
            Err(e) => Err(e),
            Ok((name, p2)) => match signed_line(ls, p2, "axiom layer"@) {
                Err(e) => Err(e),
                Ok((layer, p3)) => if layer < -1 {
                    fail(p3, "variable `"@ + name + "` has invalid axiom layer "@ + signed_decimal(layer))
                } else {
                    match number_line(ls, p3, "variable domain size"@) {
                        Err(e) => Err(e),
                        Ok((size, p4)) => if size == 0 {
                            fail(p4, "variable `"@ + name + "` has an empty domain"@)
                        } else {
                            match value_lines(ls, p4, size, Seq::empty()) {
                                Err(e) => Err(e),
                                Ok((values, p5)) => match marker_line(ls, p5, "end_variable"@) {
                                    Err(e) => Err(e),
                                    Ok(p6) => Ok((VariableView { name, values }, p6)),
                                },
                            }
                        },
                    }
                },
            },
        },
    }
}

pub open spec fn variable_blocks(ls: Seq<Seq<char>>, pos: nat, n: nat, acc: Seq<VariableView>) -> Result<
    (Seq<VariableView>, nat),
    ParseErrorView,
>
    decreases n,
{
    if n == 0 {
        Ok((acc, pos))
    } else {
        match variable_block(ls, pos) {
            Err(e) => Err(e),
            Ok((v, p)) => variable_blocks(ls, p, (n - 1) as nat, acc.push(v)),
        }
    }
}

/// Mutex groups are checked and dropped: `variable = value` already carries the
/// invariants.
pub open spec fn mutex_blocks(ls: Seq<Seq<char>>, pos: nat, n: nat, variables: Seq<VariableView>) -> Result<nat, ParseErrorView>
    decreases n,
{
    if n == 0 {
        Ok(pos)
    } else {
        match marker_line(ls, pos, "begin_mutex_group"@) {
            Err(e) => Err(e),
            Ok(p1) => match number_line(ls, p1, "mutex group size"@) {
                Err(e) => Err(e),
                Ok((size, p2)) => match fact_lines(ls, p2, size, "mutex fact"@, variables, Seq::empty()) {
                    Err(e) => Err(e),
                    Ok((_, p3)) => match marker_line(ls, p3, "end_mutex_group"@) {
                        Err(e) => Err(e),
                        Ok(p4) => mutex_blocks(ls, p4, (n - 1) as nat, variables),
                    },
                },
            },
        }
    }
}

/// One initial value per variable, behind those in `acc`.
pub open spec fn initial_lines(ls: Seq<Seq<char>>, pos: nat, variables: Seq<VariableView>, acc: Seq<usize>) -> Result<
    (Seq<usize>, nat),
    ParseErrorView,
>
    decreases variables.len() - acc.len(),
{
    if acc.len() >= variables.len() {
        Ok((acc, pos))
    } else {
        match number_line(ls, pos, "initial value"@) {
            Err(e) => Err(e),
            Ok((value, p)) => {
                let fact = Fact { variable: acc.len() as usize, value: value as usize };
                if fact_in(variables, fact) {
                    initial_lines(ls, p, variables, acc.push(value as usize))
                } else {
                    fail(p, out_of_range(variables, fact))
                }
            },
        }
    }
}

/// The signed number in field `i`.
pub open spec fn effect_field(fields: Seq<Seq<char>>, i: int, what: Seq<char>, line: nat) -> Result<int, ParseErrorView> {
    match signed_field(fields[i]) {
        Some(n) => Ok(n),
        None => Err(ParseErrorView { line, message: invalid(what, fields[i]) }),
    }
}

/// The condition facts of an effect line, from the pair at `1 + 2 * acc.len()` on.
pub open spec fn effect_conditions(
    fields: Seq<Seq<char>>,
    n: nat,
    variables: Seq<VariableView>,
    line: nat,
    acc: Seq<Fact>,
) -> Result<Seq<Fact>, ParseErrorView>
    decreases n - acc.len(),
{
    if acc.len() >= n {
        Ok(acc)
    } else {
        match effect_field(fields, 1 + 2 * acc.len() as int, "effect-condition variable"@, line) {
            Err(e) => Err(e),
            Ok(variable) => match effect_field(fields, 2 + 2 * acc.len() as int, "effect-condition value"@, line) {
                Err(e) => Err(e),
                Ok(value) => if variable < 0 || value < 0 {
                    Err(ParseErrorView { line, message: "negative variable/value in effect condition"@ })
                } else {
                    let fact = Fact { variable: variable as usize, value: value as usize };
                    if fact_in(variables, fact) {
                        effect_conditions(fields, n, variables, line, acc.push(fact))
                    } else {
                        Err(ParseErrorView { line, message: out_of_range(variables, fact) })
                    }
                },
            },
        }
    }
}

/// The transition `variable pre post` of an effect line, at field `at`.
pub open spec fn effect_transition(
    fields: Seq<Seq<char>>,
    at: int,
    conditions: Seq<Fact>,
    variables: Seq<VariableView>,
    line: nat,
) -> Result<EffectView, ParseErrorView> {
    match effect_field(fields, at, "effect variable"@, line) {
        Err(e) => Err(e),
        Ok(variable) => match effect_field(fields, at + 1, "effect pre-value"@, line) {
            Err(e) => Err(e),
            Ok(pre) => match effect_field(fields, at + 2, "effect post-value"@, line) {
                Err(e) => Err(e),
                Ok(post) => if variable < 0 || pre < -1 || post < 0 {
                    Err(ParseErrorView { line, message: "invalid negative value in effect transition"@ })
                } else {
                    let to = Fact { variable: variable as usize, value: post as usize };
                    let from = Fact { variable: variable as usize, value: pre as usize };
                    if !fact_in(variables, to) {
                        Err(ParseErrorView { line, message: out_of_range(variables, to) })
                    } else if pre != -1 && !fact_in(variables, from) {
                        Err(ParseErrorView { line, message: out_of_range(variables, from) })
                    } else {
                        Ok(
                            EffectView {
                                conditions,
                                variable: variable as usize,
                                pre: if pre == -1 {
                                    None
                                } else {
                                    Some(pre as usize)
                                },
                                post: post as usize,
                            },
                        )
                    }
                },
            },
        },
    }
}

/// An effect line: the number of conditions, the condition facts, and the
/// transition.
#[verifier::opaque]
pub open spec fn effect_of_line(text: Seq<char>, variables: Seq<VariableView>, line: nat) -> Result<EffectView, ParseErrorView> {
    let fields = words(text);
    if fields.len() == 0 {
        Err(ParseErrorView { line, message: "empty effect line"@ })
    } else {
        match effect_field(fields, 0, "effect-condition count"@, line) {
            Err(e) => Err(e),
            Ok(n) => if n < 0 {
                Err(ParseErrorView { line, message: "negative effect-condition count"@ })
            } else if fields.len() != 4 + 2 * n {
                Err(
                    ParseErrorView {
                        line,
                        message: "effect has "@ + decimal(fields.len()) + " field(s), expected "@ + decimal((4 + 2 * n) as nat)
                            + " for "@ + decimal(n as nat) + " condition(s)"@,
                    },
                )
            } else {
                match effect_conditions(fields, n as nat, variables, line, Seq::empty()) {
                    Err(e) => Err(e),
                    Ok(conditions) => effect_transition(fields, 1 + 2 * n, conditions, variables, line),
                }
            },
        }
    }
}

pub open spec fn effect_lines(
    ls: Seq<Seq<char>>,
    pos: nat,
    n: nat,
    variables: Seq<VariableView>,
    acc: Seq<EffectView>,
) -> Result<(Seq<EffectView>, nat), ParseErrorView>
    decreases n,
{
    if n == 0 {
        Ok((acc, pos))
    } else {
        match next_line(ls, pos, "effect"@) {
            Err(e) => Err(e),
            Ok((text, p)) => match effect_of_line(text, variables, line_at(p)) {
                Err(e) => Err(e),
                Ok(effect) => effect_lines(ls, p, (n - 1) as nat, variables, acc.push(effect)),
            },
        }
    }
}

#[verifier::opaque]
pub open spec fn operator_block(ls: Seq<Seq<char>>, pos: nat, variables: Seq<VariableView>) -> Result<
    (OperatorView, nat),
    ParseErrorView,
> {
    match marker_line(ls, pos, "begin_operator"@) {
        Err(e) => Err(e),
        Ok(p1) => match next_line(ls, p1, "operator name"@) {
            Err(e) => Err(e),
            Ok((name, p2)) => match number_line(ls, p2, "prevail count"@) {
                Err(e) => Err(e),
                Ok((n, p3)) => match fact_lines(ls, p3, n, "prevail fact"@, variables, Seq::empty()) {
                    Err(e) => Err(e),
                    Ok((prevail, p4)) => match number_line(ls, p4, "effect count"@) {
                        Err(e) => Err(e),
                        Ok((m, p5)) => match effect_lines(ls, p5, m, variables, Seq::empty()) {
                            Err(e) => Err(e),
                            Ok((effects, p6)) => match number_line(ls, p6, "operator cost"@) {
                                Err(e) => Err(e),
                                Ok((cost, p7)) => match marker_line(ls, p7, "end_operator"@) {
                                    Err(e) => Err(e),
                                    Ok(p8) => Ok((OperatorView { name, prevail, effects, cost: cost as usize }, p8)),
                                },
                            },
                        },
                    },
                },
            },
        },
    }
}

pub open spec fn operator_blocks(
    ls: Seq<Seq<char>>,
    pos: nat,
    n: nat,
    variables: Seq<VariableView>,
    acc: Seq<OperatorView>,
) -> Result<(Seq<OperatorView>, nat), ParseErrorView>
    decreases n,
{
    if n == 0 {
        Ok((acc, pos))
    } else {
        match operator_block(ls, pos, variables) {
            Err(e) => Err(e),
            Ok((o, p)) => operator_blocks(ls, p, (n - 1) as nat, variables, acc.push(o)),
        }
    }
}

pub open spec fn axiom_field(text: Seq<char>, what: Seq<char>, pos: nat) -> Result<nat, ParseErrorView> {
    match bounded_value(text, usize::MAX as nat) {
        Some(n) => Ok(n),
        None => fail(pos, invalid(what, text)),
    }
}

/// The head `variable old new` of an axiom rule.
pub open spec fn axiom_head(text: Seq<char>, pos: nat, conditions: Seq<Fact>, variables: Seq<VariableView>) -> Result<
    AxiomView,
    ParseErrorView,
> {
    let fields = words(text);
    if fields.len() != 3 {
        fail(pos, "axiom effect has "@ + decimal(fields.len()) + " field(s), expected 3"@)
    } else {
        match axiom_field(fields[0], "axiom variable"@, pos) {
            Err(e) => Err(e),
            Ok(variable) => match axiom_field(fields[1], "axiom old value"@, pos) {
                Err(e) => Err(e),
                Ok(pre) => match axiom_field(fields[2], "axiom new value"@, pos) {
                    Err(e) => Err(e),
                    Ok(post) => {
                        let from = Fact { variable: variable as usize, value: pre as usize };
                        let to = Fact { variable: variable as usize, value: post as usize };
                        if !fact_in(variables, from) {
                            fail(pos, out_of_range(variables, from))
                        } else if !fact_in(variables, to) {
                            fail(pos, out_of_range(variables, to))
                        } else {
                            Ok(AxiomView { conditions, variable: variable as usize, pre: pre as usize, post: post as usize })
                        }
                    },
                },
            },
        }
    }
}

#[verifier::opaque]
pub open spec fn axiom_block(ls: Seq<Seq<char>>, pos: nat, variables: Seq<VariableView>) -> Result<(AxiomView, nat), ParseErrorView> {
    match marker_line(ls, pos, "begin_rule"@) {
        Err(e) => Err(e),
        Ok(p1) => match number_line(ls, p1, "axiom condition count"@) {
            Err(e) => Err(e),
            Ok((n, p2)) => match fact_lines(ls, p2, n, "axiom condition"@, variables, Seq::empty()) {
                Err(e) => Err(e),
                Ok((conditions, p3)) => match next_line(ls, p3, "axiom effect"@) {
                    Err(e) => Err(e),
                    Ok((text, p4)) => match axiom_head(text, p4, conditions, variables) {
                        Err(e) => Err(e),
                        Ok(rule) => match marker_line(ls, p4, "end_rule"@) {
                            Err(e) => Err(e),
                            Ok(p5) => Ok((rule, p5)),
                        },
                    },
                },
            },
        },
    }
}

pub open spec fn axiom_blocks(
    ls: Seq<Seq<char>>,
    pos: nat,
    n: nat,
    variables: Seq<VariableView>,
    acc: Seq<AxiomView>,
) -> Result<(Seq<AxiomView>, nat), ParseErrorView>
    decreases n,
{
    if n == 0 {
        Ok((acc, pos))
    } else {
        match axiom_block(ls, pos, variables) {
            Err(e) => Err(e),
            Ok((a, p)) => axiom_blocks(ls, p, (n - 1) as nat, variables, acc.push(a)),
        }
    }
}

/// Nothing but blank lines may follow; `found` is the line that the error reports.
pub open spec fn end_of_task(ls: Seq<Seq<char>>, pos: nat, found: nat) -> Result<(), ParseErrorView>
    decreases ls.len() - pos,
{
    if pos >= ls.len() {
        Ok(())
    } else if trimmed(ls[pos as int]).len() > 0 {
        fail(found, "unexpected trailing input `"@ + trimmed(ls[pos as int]) + "`"@)
    } else {
        end_of_task(ls, pos + 1, found)
    }
}

/// The version and metric sections.
#[verifier::opaque]
pub open spec fn header(ls: Seq<Seq<char>>) -> Result<nat, ParseErrorView> {
    match marker_line(ls, 0, "begin_version"@) {
        Err(e) => Err(e),
        Ok(p1) => match number_line(ls, p1, "SAS+ version"@) {
            Err(e) => Err(e),
            Ok((version, p2)) => if version != 3 {
                fail(p2, "unsupported SAS+ version "@ + decimal(version) + "; expected 3"@)
            } else {
                match marker_line(ls, p2, "end_version"@) {
                    Err(e) => Err(e),
                    Ok(p3) => match marker_line(ls, p3, "begin_metric"@) {
                        Err(e) => Err(e),
                        Ok(p4) => match number_line(ls, p4, "metric flag"@) {
                            Err(e) => Err(e),
                            Ok((_, p5)) => marker_line(ls, p5, "end_metric"@),
                        },
                    },
                }
            },
        },
    }
}

#[verifier::opaque]
pub open spec fn variable_section(ls: Seq<Seq<char>>, pos: nat) -> Result<(Seq<VariableView>, nat), ParseErrorView> {
    match number_line(ls, pos, "variable count"@) {
        Err(e) => Err(e),
        Ok((n, p1)) => match variable_blocks(ls, p1, n, Seq::empty()) {
            Err(e) => Err(e),
            Ok((variables, p2)) => match number_line(ls, p2, "mutex group count"@) {
                Err(e) => Err(e),
                Ok((m, p3)) => match mutex_blocks(ls, p3, m, variables) {
                    Err(e) => Err(e),
                    Ok(p4) => Ok((variables, p4)),
                },
            },
        },
    }
}

#[verifier::opaque]
pub open spec fn state_section(ls: Seq<Seq<char>>, pos: nat, variables: Seq<VariableView>) -> Result<
    (Seq<usize>, nat),
    ParseErrorView,
> {
    match marker_line(ls, pos, "begin_state"@) {
        Err(e) => Err(e),
        Ok(p1) => match initial_lines(ls, p1, variables, Seq::empty()) {
            Err(e) => Err(e),
            Ok((initial, p2)) => match marker_line(ls, p2, "end_state"@) {
                Err(e) => Err(e),
                Ok(p3) => Ok((initial, p3)),
            },
        },
    }
}

#[verifier::opaque]
pub open spec fn goal_section(ls: Seq<Seq<char>>, pos: nat, variables: Seq<VariableView>) -> Result<(Seq<Fact>, nat), ParseErrorView> {
    match marker_line(ls, pos, "begin_goal"@) {
        Err(e) => Err(e),
        Ok(p1) => match number_line(ls, p1, "goal count"@) {
            Err(e) => Err(e),
            Ok((n, p2)) => match fact_lines(ls, p2, n, "goal fact"@, variables, Seq::empty()) {
                Err(e) => Err(e),
                Ok((goals, p3)) => match marker_line(ls, p3, "end_goal"@) {
                    Err(e) => Err(e),
                    Ok(p4) => Ok((goals, p4)),
                },
            },
        },
    }
}

/// The operator and axiom sections, up to the end of the text.
#[verifier::opaque]
pub open spec fn rule_sections(ls: Seq<Seq<char>>, pos: nat, variables: Seq<VariableView>) -> Result<
    (Seq<OperatorView>, Seq<AxiomView>),
    ParseErrorView,
> {
    match number_line(ls, pos, "operator count"@) {
        Err(e) => Err(e),
        Ok((n, p1)) => match operator_blocks(ls, p1, n, variables, Seq::empty()) {
            Err(e) => Err(e),
            Ok((operators, p2)) => match number_line(ls, p2, "axiom count"@) {
                Err(e) => Err(e),
                Ok((m, p3)) => match axiom_blocks(ls, p3, m, variables, Seq::empty()) {
                    Err(e) => Err(e),
                    Ok((axioms, p4)) => match end_of_task(ls, p4, p4) {
                        Err(e) => Err(e),
                        Ok(_) => Ok((operators, axioms)),
                    },
                },
            },
        },
    }
}

/// The task that a text in SAS+ format version 3 denotes, or what is wrong with it.
pub open spec fn task_of(ls: Seq<Seq<char>>) -> Result<TaskView, ParseErrorView> {
    match header(ls) {
        Err(e) => Err(e),
        Ok(p1) => match variable_section(ls, p1) {
            Err(e) => Err(e),
            Ok((variables, p2)) => match state_section(ls, p2, variables) {
                Err(e) => Err(e),
                Ok((initial, p3)) => match goal_section(ls, p3, variables) {
                    Err(e) => Err(e),
                    Ok((goals, p4)) => match rule_sections(ls, p4, variables) {
                        Err(e) => Err(e),
                        Ok((operators, axioms)) => Ok(TaskView { variables, initial, goals, operators, axioms }),
                    },
                },
            },
        },
    }
}

// ---------------------------------------------------------------------------
// The parser
// ---------------------------------------------------------------------------

fn error_at(line: usize, message: String) -> (res: ParseError)
    ensures
        res@ == (ParseErrorView { line: line as nat, message: message@ }),
{
    ParseError { line, message }
}

fn invalid_text(what: &str, text: &Vec<char>) -> (res: String)
    ensures
        res@ == invalid(what@, text@),
{
    let mut m = String::from_str("invalid ");
    m.append(what);
    m.append(" `");
    let t = string_of(text);
    m.append(t.as_str());
    m.append("`");
    m
}

/// Whether the fact names a variable and one of its values; if not, why.
fn check_fact(variables: &Vec<Variable>, fact: Fact, line: usize) -> (res: Result<(), ParseError>)
    ensures
        res is Ok <==> fact_in(variable_views(variables@), fact),
        res matches Err(e) ==> e@ == (ParseErrorView {
            line: line as nat,
            message: out_of_range(variable_views(variables@), fact),
        }),
{
    if fact.variable >= variables.len() {
        let mut m = String::from_str("variable ");
        push_number(&mut m, fact.variable as u128);
        m.append(" is out of range");
        return Err(error_at(line, m));
    }
    assert(variable_views(variables@)[fact.variable as int].values.len() == variables@[fact.variable as int].values@.len());
    if fact.value >= variables[fact.variable].values.len() {
        let mut m = String::from_str("value ");
        push_number(&mut m, fact.value as u128);
        m.append(" is out of range for variable ");
        push_number(&mut m, fact.variable as u128);
        m.append(" (domain size ");
        push_number(&mut m, variables[fact.variable].values.len() as u128);
        m.append(")");
        return Err(error_at(line, m));
    }
    Ok(())
}

/// A cursor over the lines of a text.
struct Lines {
    lines: Vec<Vec<char>>,
    position: usize,
}

impl Lines {
    spec fn all(self) -> Seq<Seq<char>> {
        texts(self.lines@)
    }

    spec fn at(self) -> nat {
        self.position as nat
    }

    spec fn wf(self) -> bool {
        self.position <= self.lines@.len()
    }

    fn new(input: &str) -> (res: Lines)
        ensures
            res.wf(),
            res.all() == lines(input@),
            res.at() == 0,
    {
        let chars = chars_of(input);
        Lines { lines: split_lines(&chars), position: 0 }
    }

    fn line_number(&self) -> (n: usize)
        ensures
            n == line_at(self.at()),
    {
        if self.position > 1 {
            self.position
        } else {
            1
        }
    }

    fn error(&self, message: String) -> (res: ParseError)
        ensures
            res@ == (ParseErrorView { line: line_at(self.at()), message: message@ }),
    {
        error_at(self.line_number(), message)
    }

    fn next(&mut self, what: &str) -> (res: Result<Vec<char>, ParseError>)
        requires
            old(self).wf(),
        ensures
            final(self).wf(),
            final(self).all() == old(self).all(),
            match (res, next_line(old(self).all(), old(self).at(), what@)) {
                (Ok(t), Ok((text, p))) => t@ == text && final(self).at() == p,
                (Err(e), Err(x)) => e@ == x,
                _ => false,
            },
    {
        if self.position >= self.lines.len() {
            let mut m = String::from_str("expected ");
            m.append(what);
            m.append(", found end of input");
            return Err(self.error(m));
        }
        let line = trim(&self.lines[self.position]);
        self.position = self.position + 1;
        Ok(line)
    }

    fn marker(&mut self, expected: &str) -> (res: Result<(), ParseError>)
        requires
            old(self).wf(),
        ensures
            final(self).wf(),
            final(self).all() == old(self).all(),
            match (res, marker_line(old(self).all(), old(self).at(), expected@)) {
                (Ok(_), Ok(p)) => final(self).at() == p,
                (Err(e), Err(x)) => e@ == x,
                _ => false,
            },
    {
        match self.next(expected) {
            Err(e) => Err(e),
            Ok(actual) => {
                if spells(&actual, expected) {
                    Ok(())
                } else {
                    let mut m = String::from_str("expected `");
                    m.append(expected);
                    m.append("`, found `");
                    let t = string_of(&actual);
                    m.append(t.as_str());
                    m.append("`");
                    Err(self.error(m))
                }
            },
        }
    }

    fn usize(&mut self, what: &str) -> (res: Result<usize, ParseError>)
        requires
            old(self).wf(),
        ensures
            final(self).wf(),
            final(self).all() == old(self).all(),
            match (res, number_line(old(self).all(), old(self).at(), what@)) {
                (Ok(n), Ok((m, p))) => n == m && final(self).at() == p,
                (Err(e), Err(x)) => e@ == x,
                _ => false,
            },
    {
        match self.next(what) {
            Err(e) => Err(e),
            Ok(text) => match parse_usize(&text) {
                Some(n) => Ok(n),
                None => Err(self.error(invalid_text(what, &text))),
            },
        }
    }

    fn isize(&mut self, what: &str) -> (res: Result<isize, ParseError>)
        requires
            old(self).wf(),
        ensures
            final(self).wf(),
            final(self).all() == old(self).all(),
            match (res, signed_line(old(self).all(), old(self).at(), what@)) {
                (Ok(n), Ok((m, p))) => n == m && final(self).at() == p,
                (Err(e), Err(x)) => e@ == x,
                _ => false,
            },
    {
        match self.next(what) {
            Err(e) => Err(e),
            Ok(text) => match parse_isize(&text) {
                Some(n) => Ok(n),
                None => Err(self.error(invalid_text(what, &text))),
            },
        }
    }

    fn fact(&mut self, what: &str, variables: &Vec<Variable>) -> (res: Result<Fact, ParseError>)
        requires
            old(self).wf(),
        ensures
            final(self).wf(),
            final(self).all() == old(self).all(),
            match (res, fact_line(old(self).all(), old(self).at(), what@, variable_views(variables@))) {
                (Ok(f), Ok((g, p))) => f == g && final(self).at() == p && fact_in(variable_views(variables@), f),
                (Err(e), Err(x)) => e@ == x,
                _ => false,
            },
    {
        let text = match self.next(what) {
            Err(e) => {
                return Err(e);
            },
            Ok(text) => text,
        };
        let fields = split_words(&text);
        assert(texts(fields@).len() == fields@.len());
        if fields.len() != 2 {
            return Err(self.error(invalid_text(what, &text)));
        }
        assert(texts(fields@)[0] == fields@[0]@ && texts(fields@)[1] == fields@[1]@);
        let variable = match parse_usize(&fields[0]) {
            Some(n) => n,
            None => {
                let mut m = String::from_str("invalid variable in ");
                m.append(what);
                m.append(" `");
                let t = string_of(&text);
                m.append(t.as_str());
                m.append("`");
                return Err(self.error(m));
            },
        };
        let value = match parse_usize(&fields[1]) {
            Some(n) => n,
            None => {
                let mut m = String::from_str("invalid value in ");
                m.append(what);
                m.append(" `");
                let t = string_of(&text);
                m.append(t.as_str());
                m.append("`");
                return Err(self.error(m));
            },
        };
        let fact = Fact::new(variable, value);
        match check_fact(variables, fact, self.line_number()) {
            Ok(_) => Ok(fact),
            Err(e) => Err(e),
        }
    }

    fn facts(&mut self, n: usize, what: &str, variables: &Vec<Variable>) -> (res: Result<Vec<Fact>, ParseError>)
        requires
            old(self).wf(),
        ensures
            final(self).wf(),
            final(self).all() == old(self).all(),
            match (
                res,
                fact_lines(old(self).all(), old(self).at(), n as nat, what@, variable_views(variables@), Seq::empty()),
            ) {
                (Ok(f), Ok((g, p))) => f@ == g && final(self).at() == p && facts_in(variable_views(variables@), f@),
                (Err(e), Err(x)) => e@ == x,
                _ => false,
            },
    {
        let ghost vs = variable_views(variables@);
        let ghost all = self.all();
        let ghost start = self.at();
        let mut res: Vec<Fact> = Vec::new();
        let mut i: usize = 0;
        while i < n
            invariant
                self.wf(),
                self.all() == all,
                all == old(self).all(),
                start == old(self).at(),
                vs == variable_views(variables@),
                i <= n,
                facts_in(vs, res@),
                fact_lines(all, start, n as nat, what@, vs, Seq::empty()) == fact_lines(
                    all,
                    self.at(),
                    (n - i) as nat,
                    what@,
                    vs,
                    res@,
                ),
            decreases n - i,
        {
            match self.fact(what, variables) {
                Err(e) => {
                    return Err(e);
                },
                Ok(fact) => {
                    res.push(fact);
                },
            }
            i = i + 1;
        }
        Ok(res)
    }

    fn values(&mut self, n: usize) -> (res: Result<Vec<String>, ParseError>)
        requires
            old(self).wf(),
        ensures
            final(self).wf(),
            final(self).all() == old(self).all(),
            match (res, value_lines(old(self).all(), old(self).at(), n as nat, Seq::empty())) {
                (Ok(f), Ok((g, p))) => string_views(f@) == g && final(self).at() == p && f@.len() == n,
                (Err(e), Err(x)) => e@ == x,
                _ => false,
            },
    {
        let ghost all = self.all();
        let ghost start = self.at();
        let mut res: Vec<String> = Vec::new();
        let mut i: usize = 0;
        assert(string_views(res@) =~= Seq::<Seq<char>>::empty());
        while i < n
            invariant
                self.wf(),
                self.all() == all,
                all == old(self).all(),
                start == old(self).at(),
                i <= n,
                res@.len() == i,
                value_lines(all, start, n as nat, Seq::empty()) == value_lines(
                    all,
                    self.at(),
                    (n - i) as nat,
                    string_views(res@),
                ),
            decreases n - i,
        {
            match self.next("variable value") {
                Err(e) => {
                    return Err(e);
                },
                Ok(text) => {
                    let ghost before = string_views(res@);
                    let value = string_of(&text);
                    res.push(value);
                    assert(string_views(res@) =~= before.push(text@));
                },
            }
            i = i + 1;
        }
        Ok(res)
    }

    fn variable(&mut self) -> (res: Result<Variable, ParseError>)
        requires
            old(self).wf(),
        ensures
            final(self).wf(),
            final(self).all() == old(self).all(),
            match (res, variable_block(old(self).all(), old(self).at())) {
                (Ok(v), Ok((w, p))) => v@ == w && final(self).at() == p && v.values@.len() > 0,
                (Err(e), Err(x)) => e@ == x,
                _ => false,
            },
    {
        proof {
            reveal(variable_block);
        }
        match self.marker("begin_variable") {
            Err(e) => {
                return Err(e);
            },
            Ok(_) => {},
        }
        let name = match self.next("variable name") {
            Err(e) => {
                return Err(e);
            },
            Ok(text) => string_of(&text),
        };
        let layer = match self.isize("axiom layer") {
            Err(e) => {
                return Err(e);
            },
            Ok(n) => n,
        };
        if layer < -1 {
            let mut m = String::from_str("variable `");
            m.append(name.as_str());
            m.append("` has invalid axiom layer ");
            push_signed(&mut m, layer as i128);
            return Err(self.error(m));
        }
        let size = match self.usize("variable domain size") {
            Err(e) => {
                return Err(e);
            },
            Ok(n) => n,
        };
        if size == 0 {
            let mut m = String::from_str("variable `");
            m.append(name.as_str());
            m.append("` has an empty domain");
            return Err(self.error(m));
        }
        let values = match self.values(size) {
            Err(e) => {
                return Err(e);
            },
            Ok(v) => v,
        };
        match self.marker("end_variable") {
            Err(e) => {
                return Err(e);
            },
            Ok(_) => {},
        }
        Ok(Variable { name, values })
    }

    fn variables(&mut self, n: usize) -> (res: Result<Vec<Variable>, ParseError>)
        requires
            old(self).wf(),
        ensures
            final(self).wf(),
            final(self).all() == old(self).all(),
            match (res, variable_blocks(old(self).all(), old(self).at(), n as nat, Seq::empty())) {
                (Ok(v), Ok((w, p))) => variable_views(v@) == w && final(self).at() == p && v@.len() == n,
                (Err(e), Err(x)) => e@ == x,
                _ => false,
            },
    {
        let ghost all = self.all();
        let ghost start = self.at();
        let mut res: Vec<Variable> = Vec::new();
        let mut i: usize = 0;
        assert(variable_views(res@) =~= Seq::<VariableView>::empty());
        while i < n
            invariant
                self.wf(),
                self.all() == all,
                all == old(self).all(),
                start == old(self).at(),
                i <= n,
                res@.len() == i,
                variable_blocks(all, start, n as nat, Seq::empty()) == variable_blocks(
                    all,
                    self.at(),
                    (n - i) as nat,
                    variable_views(res@),
                ),
            decreases n - i,
        {
            match self.variable() {
                Err(e) => {
                    return Err(e);
                },
                Ok(v) => {
                    let ghost before = variable_views(res@);
                    let ghost view = v@;
                    res.push(v);
                    assert(variable_views(res@) =~= before.push(view));
                },
            }
            i = i + 1;
        }
        Ok(res)
    }

    fn mutex_groups(&mut self, n: usize, variables: &Vec<Variable>) -> (res: Result<(), ParseError>)
        requires
            old(self).wf(),
        ensures
            final(self).wf(),
            final(self).all() == old(self).all(),
            match (res, mutex_blocks(old(self).all(), old(self).at(), n as nat, variable_views(variables@))) {
                (Ok(_), Ok(p)) => final(self).at() == p,
                (Err(e), Err(x)) => e@ == x,
                _ => false,
            },
    {
        let ghost vs = variable_views(variables@);
        let ghost all = self.all();
        let ghost start = self.at();
        let mut i: usize = 0;
        while i < n
            invariant
                self.wf(),
                self.all() == all,
                all == old(self).all(),
                start == old(self).at(),
                vs == variable_views(variables@),
                i <= n,
                mutex_blocks(all, start, n as nat, vs) == mutex_blocks(all, self.at(), (n - i) as nat, vs),
            decreases n - i,
        {
            match self.marker("begin_mutex_group") {
                Err(e) => {
                    return Err(e);
                },
                Ok(_) => {},
            }
            let size = match self.usize("mutex group size") {
                Err(e) => {
                    return Err(e);
                },
                Ok(n) => n,
            };
            match self.facts(size, "mutex fact", variables) {
                Err(e) => {
                    return Err(e);
                },
                Ok(_) => {},
            }
            match self.marker("end_mutex_group") {
                Err(e) => {
                    return Err(e);
                },
                Ok(_) => {},
            }
            i = i + 1;
        }
        Ok(())
    }

    fn initial(&mut self, variables: &Vec<Variable>) -> (res: Result<Vec<usize>, ParseError>)
        requires
            old(self).wf(),
        ensures
            final(self).wf(),
            final(self).all() == old(self).all(),
            match (res, initial_lines(old(self).all(), old(self).at(), variable_views(variables@), Seq::empty())) {
                (Ok(v), Ok((w, p))) => v@ == w && final(self).at() == p && crate::fdr::state_in(
                    variable_views(variables@),
                    v@,
                ),
                (Err(e), Err(x)) => e@ == x,
                _ => false,
            },
    {
        let ghost vs = variable_views(variables@);
        let ghost all = self.all();
        let ghost start = self.at();
        let mut res: Vec<usize> = Vec::new();
        let mut i: usize = 0;
        while i < variables.len()
            invariant
                self.wf(),
                self.all() == all,
                all == old(self).all(),
                start == old(self).at(),
                vs == variable_views(variables@),
                i <= variables@.len(),
                res@.len() == i,
                forall|v: int| 0 <= v < i ==> #[trigger] res@[v] < vs[v].values.len(),
                initial_lines(all, start, vs, Seq::empty()) == initial_lines(all, self.at(), vs, res@),
            decreases variables@.len() - i,
        {
            let value = match self.usize("initial value") {
                Err(e) => {
                    return Err(e);
                },
                Ok(n) => n,
            };
            match check_fact(variables, Fact::new(i, value), self.line_number()) {
                Err(e) => {
                    return Err(e);
                },
                Ok(_) => {},
            }
            res.push(value);
            i = i + 1;
        }
        Ok(res)
    }

    fn effects(&mut self, n: usize, variables: &Vec<Variable>) -> (res: Result<Vec<Effect>, ParseError>)
        requires
            old(self).wf(),
        ensures
            final(self).wf(),
            final(self).all() == old(self).all(),
            match (res, effect_lines(old(self).all(), old(self).at(), n as nat, variable_views(variables@), Seq::empty())) {
                (Ok(v), Ok((w, p))) => effect_views(v@) == w && final(self).at() == p && forall|i: int|
                    0 <= i < w.len() ==> crate::fdr::effect_in(variable_views(variables@), #[trigger] w[i]),
                (Err(e), Err(x)) => e@ == x,
                _ => false,
            },
    {
        let ghost vs = variable_views(variables@);
        let ghost all = self.all();
        let ghost start = self.at();
        let mut res: Vec<Effect> = Vec::new();
        let mut i: usize = 0;
        assert(effect_views(res@) =~= Seq::<EffectView>::empty());
        while i < n
            invariant
                self.wf(),
                self.all() == all,
                all == old(self).all(),
                start == old(self).at(),
                vs == variable_views(variables@),
                i <= n,
                forall|k: int| 0 <= k < effect_views(res@).len() ==> crate::fdr::effect_in(vs, #[trigger] effect_views(res@)[k]),
                effect_lines(all, start, n as nat, vs, Seq::empty()) == effect_lines(
                    all,
                    self.at(),
                    (n - i) as nat,
                    vs,
                    effect_views(res@),
                ),
            decreases n - i,
        {
            let text = match self.next("effect") {
                Err(e) => {
                    return Err(e);
                },
                Ok(text) => text,
            };
            match parse_effect(&text, variables, self.line_number()) {
                Err(e) => {
                    return Err(e);
                },
                Ok(effect) => {
                    let ghost before = effect_views(res@);
                    let ghost view = effect@;
                    res.push(effect);
                    assert(effect_views(res@) =~= before.push(view));
                },
            }
            i = i + 1;
        }
        Ok(res)
    }

    fn operator(&mut self, variables: &Vec<Variable>) -> (res: Result<Operator, ParseError>)
        requires
            old(self).wf(),
        ensures
            final(self).wf(),
            final(self).all() == old(self).all(),
            match (res, operator_block(old(self).all(), old(self).at(), variable_views(variables@))) {
                (Ok(v), Ok((w, p))) => v@ == w && final(self).at() == p && crate::fdr::operator_in(
                    variable_views(variables@),
                    w,
                ),
                (Err(e), Err(x)) => e@ == x,
                _ => false,
            },
    {
        proof {
            reveal(operator_block);
        }
        match self.marker("begin_operator") {
            Err(e) => {
                return Err(e);
            },
            Ok(_) => {},
        }
        let name = match self.next("operator name") {
            Err(e) => {
                return Err(e);
            },
            Ok(text) => string_of(&text),
        };
        let num_prevail = match self.usize("prevail count") {
            Err(e) => {
                return Err(e);
            },
            Ok(n) => n,
        };
        let prevail = match self.facts(num_prevail, "prevail fact", variables) {
            Err(e) => {
                return Err(e);
            },
            Ok(f) => f,
        };
        let num_effects = match self.usize("effect count") {
            Err(e) => {
                return Err(e);
            },
            Ok(n) => n,
        };
        let effects = match self.effects(num_effects, variables) {
            Err(e) => {
                return Err(e);
            },
            Ok(f) => f,
        };
        let cost = match self.usize("operator cost") {
            Err(e) => {
                return Err(e);
            },
            Ok(n) => n,
        };
        match self.marker("end_operator") {
            Err(e) => {
                return Err(e);
            },
            Ok(_) => {},
        }
        Ok(Operator { name, prevail, effects, cost })
    }

    fn operators(&mut self, n: usize, variables: &Vec<Variable>) -> (res: Result<Vec<Operator>, ParseError>)
        requires
            old(self).wf(),
        ensures
            final(self).wf(),
            final(self).all() == old(self).all(),
            match (res, operator_blocks(old(self).all(), old(self).at(), n as nat, variable_views(variables@), Seq::empty())) {
                (Ok(v), Ok((w, p))) => operator_views(v@) == w && final(self).at() == p && forall|i: int|
                    0 <= i < w.len() ==> crate::fdr::operator_in(variable_views(variables@), #[trigger] w[i]),
                (Err(e), Err(x)) => e@ == x,
                _ => false,
            },
    {
        let ghost vs = variable_views(variables@);
        let ghost all = self.all();
        let ghost start = self.at();
        let mut res: Vec<Operator> = Vec::new();
        let mut i: usize = 0;
        assert(operator_views(res@) =~= Seq::<OperatorView>::empty());
        while i < n
            invariant
                self.wf(),
                self.all() == all,
                all == old(self).all(),
                start == old(self).at(),
                vs == variable_views(variables@),
                i <= n,
                forall|k: int|
                    0 <= k < operator_views(res@).len() ==> crate::fdr::operator_in(vs, #[trigger] operator_views(res@)[k]),
                operator_blocks(all, start, n as nat, vs, Seq::empty()) == operator_blocks(
                    all,
                    self.at(),
                    (n - i) as nat,
                    vs,
                    operator_views(res@),
                ),
            decreases n - i,
        {
            match self.operator(variables) {
                Err(e) => {
                    return Err(e);
                },
                Ok(o) => {
                    let ghost before = operator_views(res@);
                    let ghost view = o@;
                    res.push(o);
                    assert(operator_views(res@) =~= before.push(view));
                },
            }
            i = i + 1;
        }
        Ok(res)
    }

    fn rule(&mut self, variables: &Vec<Variable>) -> (res: Result<Axiom, ParseError>)
        requires
            old(self).wf(),
        ensures
            final(self).wf(),
            final(self).all() == old(self).all(),
            match (res, axiom_block(old(self).all(), old(self).at(), variable_views(variables@))) {
                (Ok(v), Ok((w, p))) => v@ == w && final(self).at() == p && crate::fdr::axiom_in(variable_views(variables@), w),
                (Err(e), Err(x)) => e@ == x,
                _ => false,
            },
    {
        proof {
            reveal(axiom_block);
        }
        match self.marker("begin_rule") {
            Err(e) => {
                return Err(e);
            },
            Ok(_) => {},
        }
        let n = match self.usize("axiom condition count") {
            Err(e) => {
                return Err(e);
            },
            Ok(n) => n,
        };
        let conditions = match self.facts(n, "axiom condition", variables) {
            Err(e) => {
                return Err(e);
            },
            Ok(f) => f,
        };
        let text = match self.next("axiom effect") {
            Err(e) => {
                return Err(e);
            },
            Ok(text) => text,
        };
        let rule = match self.rule_head(&text, conditions, variables) {
            Err(e) => {
                return Err(e);
            },
            Ok(rule) => rule,
        };
        match self.marker("end_rule") {
            Err(e) => {
                return Err(e);
            },
            Ok(_) => {},
        }
        Ok(rule)
    }

    fn rule_field(&self, text: &Vec<char>, what: &str) -> (res: Result<usize, ParseError>)
        ensures
            match (res, axiom_field(text@, what@, self.at())) {
                (Ok(n), Ok(m)) => n == m,
                (Err(e), Err(x)) => e@ == x,
                _ => false,
            },
    {
        match parse_usize(text) {
            Some(n) => Ok(n),
            None => Err(self.error(invalid_text(what, text))),
        }
    }

    fn rule_head(&self, text: &Vec<char>, conditions: Vec<Fact>, variables: &Vec<Variable>) -> (res: Result<Axiom, ParseError>)
        ensures
            match (res, axiom_head(text@, self.at(), conditions@, variable_views(variables@))) {
                (Ok(v), Ok(w)) => v@ == w,
                (Err(e), Err(x)) => e@ == x,
                _ => false,
            },
    {
        let fields = split_words(text);
        assert(texts(fields@).len() == fields@.len());
        if fields.len() != 3 {
            let mut m = String::from_str("axiom effect has ");
            push_number(&mut m, fields.len() as u128);
            m.append(" field(s), expected 3");
            return Err(self.error(m));
        }
        assert(texts(fields@)[0] == fields@[0]@ && texts(fields@)[1] == fields@[1]@ && texts(fields@)[2] == fields@[2]@);
        let variable = match self.rule_field(&fields[0], "axiom variable") {
            Err(e) => {
                return Err(e);
            },
            Ok(n) => n,
        };
        let pre = match self.rule_field(&fields[1], "axiom old value") {
            Err(e) => {
                return Err(e);
            },
            Ok(n) => n,
        };
        let post = match self.rule_field(&fields[2], "axiom new value") {
            Err(e) => {
                return Err(e);
            },
            Ok(n) => n,
        };
        match check_fact(variables, Fact::new(variable, pre), self.line_number()) {
            Err(e) => {
                return Err(e);
            },
            Ok(_) => {},
        }
        match check_fact(variables, Fact::new(variable, post), self.line_number()) {
            Err(e) => {
                return Err(e);
            },
            Ok(_) => {},
        }
        Ok(Axiom { conditions, variable, pre, post })
    }

    fn rules(&mut self, n: usize, variables: &Vec<Variable>) -> (res: Result<Vec<Axiom>, ParseError>)
        requires
            old(self).wf(),
        ensures
            final(self).wf(),
            final(self).all() == old(self).all(),
            match (res, axiom_blocks(old(self).all(), old(self).at(), n as nat, variable_views(variables@), Seq::empty())) {
                (Ok(v), Ok((w, p))) => axiom_views(v@) == w && final(self).at() == p && forall|i: int|
                    0 <= i < w.len() ==> crate::fdr::axiom_in(variable_views(variables@), #[trigger] w[i]),
                (Err(e), Err(x)) => e@ == x,
                _ => false,
            },
    {
        let ghost vs = variable_views(variables@);
        let ghost all = self.all();
        let ghost start = self.at();
        let mut res: Vec<Axiom> = Vec::new();
        let mut i: usize = 0;
        assert(axiom_views(res@) =~= Seq::<AxiomView>::empty());
        while i < n
            invariant
                self.wf(),
                self.all() == all,
                all == old(self).all(),
                start == old(self).at(),
                vs == variable_views(variables@),
                i <= n,
                forall|k: int| 0 <= k < axiom_views(res@).len() ==> crate::fdr::axiom_in(vs, #[trigger] axiom_views(res@)[k]),
                axiom_blocks(all, start, n as nat, vs, Seq::empty()) == axiom_blocks(
                    all,
                    self.at(),
                    (n - i) as nat,
                    vs,
                    axiom_views(res@),
                ),
            decreases n - i,
        {
            match self.rule(variables) {
                Err(e) => {
                    return Err(e);
                },
                Ok(rule) => {
                    let ghost before = axiom_views(res@);
                    let ghost view = rule@;
                    res.push(rule);
                    assert(axiom_views(res@) =~= before.push(view));
                },
            }
            i = i + 1;
        }
        Ok(res)
    }

    fn end(&self) -> (res: Result<(), ParseError>)
        requires
            self.wf(),
        ensures
            match (res, end_of_task(self.all(), self.at(), self.at())) {
                (Ok(_), Ok(_)) => true,
                (Err(e), Err(x)) => e@ == x,
                _ => false,
            },
    {
        let mut i: usize = self.position;
        while i < self.lines.len()
            invariant
                self.position <= i <= self.lines@.len(),
                end_of_task(self.all(), self.at(), self.at()) == end_of_task(self.all(), i as nat, self.at()),
            decreases self.lines@.len() - i,
        {
            let line = trim(&self.lines[i]);
            assert(self.all()[i as int] == self.lines@[i as int]@);
            if line.len() > 0 {
                let mut m = String::from_str("unexpected trailing input `");
                let t = string_of(&line);
                m.append(t.as_str());
                m.append("`");
                return Err(self.error(m));
            }
            i = i + 1;
        }
        Ok(())
    }

    fn header(&mut self) -> (res: Result<(), ParseError>)
        requires
            old(self).wf(),
            old(self).at() == 0,
        ensures
            final(self).wf(),
            final(self).all() == old(self).all(),
            match (res, header(old(self).all())) {
                (Ok(_), Ok(p)) => final(self).at() == p,
                (Err(e), Err(x)) => e@ == x,
                _ => false,
            },
    {
        proof {
            reveal(header);
        }
        match self.marker("begin_version") {
            Err(e) => {
                return Err(e);
            },
            Ok(_) => {},
        }
        let version = match self.usize("SAS+ version") {
            Err(e) => {
                return Err(e);
            },
            Ok(n) => n,
        };
        if version != 3 {
            let mut m = String::from_str("unsupported SAS+ version ");
            push_number(&mut m, version as u128);
            m.append("; expected 3");
            return Err(self.error(m));
        }
        match self.marker("end_version") {
            Err(e) => {
                return Err(e);
            },
            Ok(_) => {},
        }
        match self.marker("begin_metric") {
            Err(e) => {
                return Err(e);
            },
            Ok(_) => {},
        }
        match self.usize("metric flag") {
            Err(e) => {
                return Err(e);
            },
            Ok(_) => {},
        }
        self.marker("end_metric")
    }

    fn variable_part(&mut self) -> (res: Result<Vec<Variable>, ParseError>)
        requires
            old(self).wf(),
        ensures
            final(self).wf(),
            final(self).all() == old(self).all(),
            match (res, variable_section(old(self).all(), old(self).at())) {
                (Ok(v), Ok((w, p))) => variable_views(v@) == w && final(self).at() == p,
                (Err(e), Err(x)) => e@ == x,
                _ => false,
            },
    {
        proof {
            reveal(variable_section);
        }
        let n = match self.usize("variable count") {
            Err(e) => {
                return Err(e);
            },
            Ok(n) => n,
        };
        let variables = match self.variables(n) {
            Err(e) => {
                return Err(e);
            },
            Ok(v) => v,
        };
        let m = match self.usize("mutex group count") {
            Err(e) => {
                return Err(e);
            },
            Ok(n) => n,
        };
        match self.mutex_groups(m, &variables) {
            Err(e) => {
                return Err(e);
            },
            Ok(_) => {},
        }
        Ok(variables)
    }

    fn state_part(&mut self, variables: &Vec<Variable>) -> (res: Result<Vec<usize>, ParseError>)
        requires
            old(self).wf(),
        ensures
            final(self).wf(),
            final(self).all() == old(self).all(),
            match (res, state_section(old(self).all(), old(self).at(), variable_views(variables@))) {
                (Ok(v), Ok((w, p))) => v@ == w && final(self).at() == p && crate::fdr::state_in(
                    variable_views(variables@),
                    v@,
                ),
                (Err(e), Err(x)) => e@ == x,
                _ => false,
            },
    {
        proof {
            reveal(state_section);
        }
        match self.marker("begin_state") {
            Err(e) => {
                return Err(e);
            },
            Ok(_) => {},
        }
        let initial = match self.initial(variables) {
            Err(e) => {
                return Err(e);
            },
            Ok(v) => v,
        };
        match self.marker("end_state") {
            Err(e) => {
                return Err(e);
            },
            Ok(_) => {},
        }
        Ok(initial)
    }

    fn goal_part(&mut self, variables: &Vec<Variable>) -> (res: Result<Vec<Fact>, ParseError>)
        requires
            old(self).wf(),
        ensures
            final(self).wf(),
            final(self).all() == old(self).all(),
            match (res, goal_section(old(self).all(), old(self).at(), variable_views(variables@))) {
                (Ok(v), Ok((w, p))) => v@ == w && final(self).at() == p && facts_in(variable_views(variables@), v@),
                (Err(e), Err(x)) => e@ == x,
                _ => false,
            },
    {
        proof {
            reveal(goal_section);
        }
        match self.marker("begin_goal") {
            Err(e) => {
                return Err(e);
            },
            Ok(_) => {},
        }
        let n = match self.usize("goal count") {
            Err(e) => {
                return Err(e);
            },
            Ok(n) => n,
        };
        let goals = match self.facts(n, "goal fact", variables) {
            Err(e) => {
                return Err(e);
            },
            Ok(v) => v,
        };
        match self.marker("end_goal") {
            Err(e) => {
                return Err(e);
            },
            Ok(_) => {},
        }
        Ok(goals)
    }

    fn rule_part(&mut self, variables: &Vec<Variable>) -> (res: Result<(Vec<Operator>, Vec<Axiom>), ParseError>)
        requires
            old(self).wf(),
        ensures
            final(self).wf(),
            match (res, rule_sections(old(self).all(), old(self).at(), variable_views(variables@))) {
                (Ok((v, a)), Ok((w, b))) => {
                    &&& operator_views(v@) == w
                    &&& axiom_views(a@) == b
                    &&& forall|i: int|
                        0 <= i < w.len() ==> crate::fdr::operator_in(variable_views(variables@), #[trigger] w[i])
                    &&& forall|i: int| 0 <= i < b.len() ==> crate::fdr::axiom_in(variable_views(variables@), #[trigger] b[i])
                },
                (Err(e), Err(x)) => e@ == x,
                _ => false,
            },
    {
        proof {
            reveal(rule_sections);
        }
        let n = match self.usize("operator count") {
            Err(e) => {
                return Err(e);
            },
            Ok(n) => n,
        };
        let operators = match self.operators(n, variables) {
            Err(e) => {
                return Err(e);
            },
            Ok(v) => v,
        };
        let m = match self.usize("axiom count") {
            Err(e) => {
                return Err(e);
            },
            Ok(n) => n,
        };
        let rules = match self.rules(m, variables) {
            Err(e) => {
                return Err(e);
            },
            Ok(v) => v,
        };
        match self.end() {
            Err(e) => {
                return Err(e);
            },
            Ok(_) => {},
        }
        Ok((operators, rules))
    }
}

/// One signed field of an effect line.
fn effect_number(fields: &Vec<Vec<char>>, i: usize, what: &str, line: usize) -> (res: Result<isize, ParseError>)
    requires
        i < fields@.len(),
    ensures
        match (res, effect_field(texts(fields@), i as int, what@, line as nat)) {
            (Ok(n), Ok(m)) => n == m,
            (Err(e), Err(x)) => e@ == x,
            _ => false,
        },
{
    assert(texts(fields@)[i as int] == fields@[i as int]@);
    match parse_isize(&fields[i]) {
        Some(n) => Ok(n),
        None => Err(error_at(line, invalid_text(what, &fields[i]))),
    }
}

/// The condition facts of an effect line with `n` conditions.
fn condition_facts(fields: &Vec<Vec<char>>, n: usize, variables: &Vec<Variable>, line: usize) -> (res: Result<Vec<Fact>, ParseError>)
    requires
        fields@.len() == 4 + 2 * n,
        4 + 2 * n <= usize::MAX,
    ensures
        match (res, effect_conditions(texts(fields@), n as nat, variable_views(variables@), line as nat, Seq::empty())) {
            (Ok(v), Ok(w)) => v@ == w && facts_in(variable_views(variables@), w),
            (Err(e), Err(x)) => e@ == x,
            _ => false,
        },
{
    let ghost vs = variable_views(variables@);
    let ghost fs = texts(fields@);
    let mut conditions: Vec<Fact> = Vec::new();
    let mut i: usize = 0;
    while i < n
        invariant
            fs == texts(fields@),
            vs == variable_views(variables@),
            i <= n,
            fields@.len() == 4 + 2 * n,
            4 + 2 * n <= usize::MAX,
            conditions@.len() == i,
            facts_in(vs, conditions@),
            effect_conditions(fs, n as nat, vs, line as nat, Seq::empty()) == effect_conditions(
                fs,
                n as nat,
                vs,
                line as nat,
                conditions@,
            ),
        decreases n - i,
    {
        let variable = match effect_number(fields, 1 + 2 * i, "effect-condition variable", line) {
            Err(e) => {
                return Err(e);
            },
            Ok(n) => n,
        };
        let value = match effect_number(fields, 2 + 2 * i, "effect-condition value", line) {
            Err(e) => {
                return Err(e);
            },
            Ok(n) => n,
        };
        if variable < 0 || value < 0 {
            return Err(error_at(line, String::from_str("negative variable/value in effect condition")));
        }
        let fact = Fact::new(variable as usize, value as usize);
        match check_fact(variables, fact, line) {
            Err(e) => {
                return Err(e);
            },
            Ok(_) => {},
        }
        conditions.push(fact);
        i = i + 1;
    }
    Ok(conditions)
}

/// Parses one effect line.
pub fn parse_effect(text: &Vec<char>, variables: &Vec<Variable>, line: usize) -> (res: Result<Effect, ParseError>)
    ensures
        match (res, effect_of_line(text@, variable_views(variables@), line as nat)) {
            (Ok(v), Ok(w)) => v@ == w && crate::fdr::effect_in(variable_views(variables@), w),
            (Err(e), Err(x)) => e@ == x,
            _ => false,
        },
{
    proof {
        reveal(effect_of_line);
    }
    let ghost vs = variable_views(variables@);
    let fields = split_words(text);
    let ghost fs = texts(fields@);
    assert(fs.len() == fields@.len());
    if fields.len() == 0 {
        return Err(error_at(line, String::from_str("empty effect line")));
    }
    let n = match effect_number(&fields, 0, "effect-condition count", line) {
        Err(e) => {
            return Err(e);
        },
        Ok(n) => n,
    };
    if n < 0 {
        return Err(error_at(line, String::from_str("negative effect-condition count")));
    }
    let n: usize = n as usize;
    let expected: u128 = 4 + 2 * (n as u128);
    if fields.len() as u128 != expected {
        let mut m = String::from_str("effect has ");
        push_number(&mut m, fields.len() as u128);
        m.append(" field(s), expected ");
        push_number(&mut m, expected);
        m.append(" for ");
        push_number(&mut m, n as u128);
        m.append(" condition(s)");
        return Err(error_at(line, m));
    }
    let conditions = match condition_facts(&fields, n, variables, line) {
        Err(e) => {
            return Err(e);
        },
        Ok(conditions) => conditions,
    };
    let at: usize = 1 + 2 * n;
    let variable = match effect_number(&fields, at, "effect variable", line) {
        Err(e) => {
            return Err(e);
        },
        Ok(n) => n,
    };
    let pre = match effect_number(&fields, at + 1, "effect pre-value", line) {
        Err(e) => {
            return Err(e);
        },
        Ok(n) => n,
    };
    let post = match effect_number(&fields, at + 2, "effect post-value", line) {
        Err(e) => {
            return Err(e);
        },
        Ok(n) => n,
    };
    if variable < 0 || pre < -1 || post < 0 {
        return Err(error_at(line, String::from_str("invalid negative value in effect transition")));
    }
    match check_fact(variables, Fact::new(variable as usize, post as usize), line) {
        Err(e) => {
            return Err(e);
        },
        Ok(_) => {},
    }
    if pre != -1 {
        match check_fact(variables, Fact::new(variable as usize, pre as usize), line) {
            Err(e) => {
                return Err(e);
            },
            Ok(_) => {},
        }
    }
    let pre_value: Option<usize> = if pre == -1 {
        None
    } else {
        Some(pre as usize)
    };
    Ok(Effect { conditions, variable: variable as usize, pre: pre_value, post: post as usize })
}

impl Task {
    /// Parses Fast Downward's SAS+ format version 3.
    pub fn parse(input: &str) -> (res: Result<Self, ParseError>)
        ensures
            match (res, task_of(lines(input@))) {
                (Ok(task), Ok(view)) => task@ == view && task.wf(),
                (Err(e), Err(x)) => e@ == x,
                _ => false,
            },
    {
        let mut cursor = Lines::new(input);
        match cursor.header() {
            Err(e) => {
                return Err(e);
            },
            Ok(_) => {},
        }
        let variables = match cursor.variable_part() {
            Err(e) => {
                return Err(e);
            },
            Ok(v) => v,
        };
        let initial = match cursor.state_part(&variables) {
            Err(e) => {
                return Err(e);
            },
            Ok(v) => v,
        };
        let goals = match cursor.goal_part(&variables) {
            Err(e) => {
                return Err(e);
            },
            Ok(v) => v,
        };
        match cursor.rule_part(&variables) {
            Err(e) => Err(e),
            Ok((operators, rules)) => Ok(Task { variables, initial, goals, operators, axioms: rules }),
        }
    }
}

} // verus!
