//! Reading PDDL source text: normalization, classification and the call of the
//! `pddl` crate's parsers.
use pddl::parsers::Parser;
use pddl::{Domain as PddlDomain, Problem as PddlProblem};

use vstd::prelude::*;

use crate::text::{chars_of, digit_value, find_text, is_digit, is_white_space, lower, lower_case, occurs_at, stands_at, string_of, white_space};

verus! {

/// A parsed PDDL domain of the `pddl` crate.
#[verifier::external_type_specification]
#[verifier::external_body]
pub struct ExDomain(PddlDomain);

/// A parsed PDDL problem of the `pddl` crate.
#[verifier::external_type_specification]
#[verifier::external_body]
pub struct ExProblem(PddlProblem);

/// A successfully parsed PDDL compilation unit.
pub enum ParsedUnit {
    Domain(PddlDomain),
    Problem(PddlProblem),
}

/// Error produced while reading PDDL source.
#[derive(Debug)]
pub enum ReadError {
    /// The source could not be parsed as either a domain or a problem.
    Parse(String),
}

impl ReadError {
    /// The error as a message.
    pub open spec fn message(&self) -> Seq<char> {
        match self {
            ReadError::Parse(msg) => "parse error: "@ + msg@,
        }
    }

    /// The error as a text.
    pub fn to_text(&self) -> (res: String)
        ensures
            res@ == self.message(),
    {
        match self {
            ReadError::Parse(msg) => {
                let mut res = "parse error: ".to_string();
                res.append(msg.as_str());
                res
            },
        }
    }
}

/// The least number that is refused: those below it are finite as an `f32`, and it and
/// those above it are not.
pub const NUMBER_LIMIT: u128 = 340_282_356_779_733_661_637_539_395_458_142_568_448;

/// Whether a text ends in the decimals of a number: in a `.` with nothing but digits
/// behind.
pub open spec fn ends_in_decimals(s: Seq<char>) -> bool
    decreases s.len(),
{
    s.len() > 0 && (s.last() == '.' || (is_digit(s.last()) && ends_in_decimals(s.drop_last())))
}

pub open spec fn is_letter(c: char) -> bool {
    'a' <= c <= 'z' || 'A' <= c <= 'Z'
}

/// Whether a character may stand in a name.
pub open spec fn is_name_char(c: char) -> bool {
    is_letter(c) || is_digit(c) || c == '-' || c == '_'
}

/// Whether a text ends in another.
pub open spec fn ends_in(s: Seq<char>, end: Seq<char>) -> bool {
    occurs_at(s, end, s.len() - end.len())
}

/// Whether a text ends in a keyword that a number may follow on directly.
pub open spec fn ends_in_time_word(s: Seq<char>) -> bool {
    ends_in(s, "(at"@) || ends_in(s, "(within"@) || ends_in(s, "(always-within"@) || ends_in(s, "(hold-during"@) || ends_in(
        s,
        "(hold-after"@,
    )
}

/// Whether a text ends in a name: a letter with name characters behind. Digits right behind
/// a time keyword are a number.
pub open spec fn ends_in_name(s: Seq<char>) -> bool
    decreases s.len(),
{
    if s.len() == 0 || !is_name_char(s.last()) {
        false
    } else {
        let rest = s.drop_last();
        if rest.len() == 0 || !is_name_char(rest.last()) {
            is_letter(s.last())
        } else {
            ends_in_name(rest) && !(is_digit(s.last()) && ends_in_time_word(rest))
        }
    }
}

/// The number that the digits at the end of a text denote; zero where there are none,
/// or where they are decimals or part of a name.
pub open spec fn last_number(s: Seq<char>) -> nat
    decreases s.len(),
{
    if s.len() == 0 || !is_digit(s.last()) || ends_in_decimals(s) || ends_in_name(s) {
        0
    } else {
        last_number(s.drop_last()) * 10 + digit_value(s.last())
    }
}

/// Whether all numbers of a text are below the limit, their decimals aside.
pub open spec fn numbers_fit(s: Seq<char>) -> bool {
    forall|n: int| 0 <= n <= s.len() ==> last_number(#[trigger] s.take(n)) < NUMBER_LIMIT
}

/// What [`PddlDomain`]'s parser makes of a text: the domain, or the error as a
/// text.
pub uninterp spec fn parsed_domain(src: Seq<char>) -> Result<PddlDomain, Seq<char>>;

/// What [`PddlProblem`]'s parser makes of a text: the problem, or the error as a
/// text.
pub uninterp spec fn parsed_problem(src: Seq<char>) -> Result<PddlProblem, Seq<char>>;

/// Calls `pddl::Domain::from_str`. What it returns is a function of the text, named
/// [`parsed_domain`]; nothing else is claimed of it. It reads numbers as `f32` and panics
/// on one that is not finite, so that the numbers of the text have to fit. It descends
/// into nested forms, as deep as the stack allows.
#[verifier::external_body]
fn parse_domain(src: &str) -> (res: Result<PddlDomain, String>)
    requires
        numbers_fit(src@),
    ensures
        match res {
            Ok(d) => parsed_domain(src@) == Ok::<PddlDomain, Seq<char>>(d),
            Err(e) => parsed_domain(src@) == Err::<PddlDomain, Seq<char>>(e@),
        },
{
    match PddlDomain::from_str(src) {
        Ok(d) => Ok(d),
        Err(e) => Err(format!("{e}")),
    }
}

/// Calls `pddl::Problem::from_str`. What it returns is a function of the text, named
/// [`parsed_problem`]; nothing else is claimed of it. It reads numbers as `f32` and panics
/// on one that is not finite, so that the numbers of the text have to fit. It descends
/// into nested forms, as deep as the stack allows.
#[verifier::external_body]
fn parse_problem(src: &str) -> (res: Result<PddlProblem, String>)
    requires
        numbers_fit(src@),
    ensures
        match res {
            Ok(p) => parsed_problem(src@) == Ok::<PddlProblem, Seq<char>>(p),
            Err(e) => parsed_problem(src@) == Err::<PddlProblem, Seq<char>>(e@),
        },
{
    match PddlProblem::from_str(src) {
        Ok(p) => Ok(p),
        Err(e) => Err(format!("{e}")),
    }
}

/// Whether a comment is open behind a text: a `;` stands in it with no line end
/// behind.
pub open spec fn comment_open(s: Seq<char>) -> bool
    decreases s.len(),
{
    if s.len() == 0 {
        false
    } else if s.last() == ';' {
        true
    } else if s.last() == '\n' {
        false
    } else {
        comment_open(s.drop_last())
    }
}

/// A text without its comments, but with the line ends behind them.
pub open spec fn uncommented(s: Seq<char>) -> Seq<char>
    decreases s.len(),
{
    if s.len() == 0 {
        seq![]
    } else if comment_open(s) {
        uncommented(s.drop_last())
    } else {
        uncommented(s.drop_last()).push(s.last())
    }
}

/// A text without the white space at its end.
pub open spec fn trimmed_end(s: Seq<char>) -> Seq<char>
    decreases s.len(),
{
    if s.len() > 0 && white_space(s.last()) {
        trimmed_end(s.drop_last())
    } else {
        s
    }
}

/// A text with a space before every `(` that follows on neither white space nor a
/// `(`, and without the white space before every `)`.
pub open spec fn delimited(s: Seq<char>) -> Seq<char>
    decreases s.len(),
{
    if s.len() == 0 {
        seq![]
    } else {
        let rest = delimited(s.drop_last());
        let c = s.last();
        if c == '(' && s.len() > 1 && s[s.len() - 2] != '(' && !white_space(s[s.len() - 2]) {
            rest.push(' ').push(c)
        } else if c == ')' {
            trimmed_end(rest).push(c)
        } else {
            rest.push(c)
        }
    }
}

/// A source text as the parsers get it.
pub open spec fn normalized(src: Seq<char>) -> Seq<char> {
    delimited(uncommented(lower(src)))
}

/// Whether a text declares a problem: it holds `(define`, and a `(problem` before
/// every `(domain`.
pub open spec fn declares_problem(s: Seq<char>) -> bool {
    &&& exists|k: int| occurs_at(lower(s), "(define"@, k)
    &&& exists|p: int| occurs_at(lower(s), "(problem"@, p) && forall|d: int| occurs_at(lower(s), "(domain"@, d) ==> p < d
}

/// What reading a source text leads to: a text with too large a number is refused, and
/// else the parser decides.
pub open spec fn is_read(src: Seq<char>, res: Result<ParsedUnit, ReadError>) -> bool {
    let s = normalized(src);
    if !numbers_fit(s) {
        res matches Err(ReadError::Parse(m)) && m@ == "number out of range"@
    } else if declares_problem(s) {
        match (parsed_problem(s), res) {
            (Ok(p), Ok(ParsedUnit::Problem(q))) => q == p,
            (Err(msg), Err(ReadError::Parse(m))) => m@ == msg,
            _ => false,
        }
    } else {
        match (parsed_domain(s), res) {
            (Ok(d), Ok(ParsedUnit::Domain(q))) => q == d,
            (Err(msg), Err(ReadError::Parse(m))) => m@ == msg,
            _ => false,
        }
    }
}

/// Parses a PDDL source string, auto-detecting whether it declares a domain or a
/// problem from the leading `(define (domain ...))` / `(define (problem ...))`.
pub fn read_pddl(src: &str) -> (res: Result<ParsedUnit, ReadError>)
    ensures
        is_read(src@, res),
{
    let text = normalize(src);
    if !has_fitting_numbers(&chars_of(text.as_str())) {
        return Err(ReadError::Parse("number out of range".to_string()));
    }
    if looks_like_problem(text.as_str()) {
        match parse_problem(text.as_str()) {
            Ok(p) => Ok(ParsedUnit::Problem(p)),
            Err(e) => Err(ReadError::Parse(e)),
        }
    } else {
        match parse_domain(text.as_str()) {
            Ok(d) => Ok(ParsedUnit::Domain(d)),
            Err(e) => Err(ReadError::Parse(e)),
        }
    }
}

fn may_stand_in_name(c: char) -> (res: bool)
    ensures
        res == is_name_char(c),
{
    ('a' <= c && c <= 'z') || ('A' <= c && c <= 'Z') || ('0' <= c && c <= '9') || c == '-' || c == '_'
}

/// Whether a word ends at `at`.
fn word_ends(text: &Vec<char>, at: usize, word: &str) -> (res: bool)
    requires
        at <= text@.len(),
    ensures
        res == ends_in(text@.take(at as int), word@),
{
    let w = chars_of(word);
    if w.len() > at {
        return false;
    }
    let from: usize = at - w.len();
    assert(text@.take(at as int).subrange(from as int, at as int) =~= text@.subrange(from as int, at as int));
    stands_at(text, &w, from)
}

/// See [`ends_in_time_word`].
fn time_word_ends(text: &Vec<char>, at: usize) -> (res: bool)
    requires
        at <= text@.len(),
    ensures
        res == ends_in_time_word(text@.take(at as int)),
{
    word_ends(text, at, "(at") || word_ends(text, at, "(within") || word_ends(text, at, "(always-within") || word_ends(
        text,
        at,
        "(hold-during",
    ) || word_ends(text, at, "(hold-after")
}

/// See [`numbers_fit`].
fn has_fitting_numbers(text: &Vec<char>) -> (res: bool)
    ensures
        res == numbers_fit(text@),
{
    let mut value: u128 = 0;
    let mut decimals = false;
    let mut name = false;
    let mut i: usize = 0;
    assert(text@.take(0) =~= Seq::empty());
    while i < text.len()
        invariant
            i <= text@.len(),
            decimals == ends_in_decimals(text@.take(i as int)),
            name == ends_in_name(text@.take(i as int)),
            value == last_number(text@.take(i as int)),
            forall|n: int| 0 <= n <= i ==> last_number(#[trigger] text@.take(n)) < NUMBER_LIMIT,
        decreases text@.len() - i,
    {
        let c = text[i];
        let ghost here = text@.take(i + 1);
        proof {
            assert(here.drop_last() =~= text@.take(i as int));
            assert(here.last() == c);
            assert(i > 0 ==> text@.take(i as int).last() == text@[i - 1]);
        }
        let digit = '0' <= c && c <= '9';
        decimals = c == '.' || (digit && decimals);
        name = if !may_stand_in_name(c) {
            false
        } else if i == 0 || !may_stand_in_name(text[i - 1]) {
            ('a' <= c && c <= 'z') || ('A' <= c && c <= 'Z')
        } else {
            name && !(digit && time_word_ends(text, i))
        };
        if !digit || decimals || name {
            value = 0;
        } else {
            let d: u128 = (c as u32 - '0' as u32) as u128;
            if value > NUMBER_LIMIT / 10 {
                assert(last_number(here) >= NUMBER_LIMIT);
                return false;
            }
            value = value * 10 + d;
            if value >= NUMBER_LIMIT {
                assert(last_number(here) >= NUMBER_LIMIT);
                return false;
            }
        }
        i = i + 1;
    }
    true
}

/// Normalizes source so that the parsers accept permissive PDDL input.
///
/// PDDL treats `(` and `)` as self-delimiting tokens, so a token boundary needs no
/// white space and stray white space at one is insignificant. The parsers are
/// stricter: they require a separator between adjacent forms and reject padding
/// before a closing parenthesis. PDDL has no string literals, so no parenthesis can
/// occur inside a token.
///
/// Names are also folded to lower case: PDDL identifiers are case-insensitive, but
/// the symbol tables key on the exact string.
///
/// Comments are deleted first (keeping their terminating newline). They must not
/// survive: deleting the white space before a `)` could otherwise pull the
/// parenthesis onto the end of a comment line and swallow it.
pub fn normalize(src: &str) -> (res: String)
    ensures
        res@ == normalized(src@),
{
    let all = chars_of(src);
    let folded = lower_case(&all);
    let text = strip_comments(&folded);
    let mut out: Vec<char> = Vec::new();
    let mut i: usize = 0;
    while i < text.len()
        invariant
            i <= text@.len(),
            out@ == delimited(text@.take(i as int)),
        decreases text@.len() - i,
    {
        let c = text[i];
        let ghost here = text@.take(i + 1);
        proof {
            assert(here.drop_last() =~= text@.take(i as int));
            assert(here.last() == c);
            assert(i > 0 ==> here[here.len() - 2] == text@[i - 1]);
        }
        if c == '(' && i > 0 && text[i - 1] != '(' && !is_white_space(text[i - 1]) {
            out.push(' ');
        } else if c == ')' {
            drop_trailing(&mut out);
        }
        out.push(c);
        i = i + 1;
    }
    assert(text@.take(i as int) =~= text@);
    string_of(&out)
}

/// Removes the white space at the end.
fn drop_trailing(out: &mut Vec<char>)
    ensures
        final(out)@ == trimmed_end(old(out)@),
{
    let ghost start = out@;
    while out.len() > 0 && is_white_space(out[out.len() - 1])
        invariant
            start == old(out)@,
            trimmed_end(out@) == trimmed_end(start),
        decreases out@.len(),
    {
        let ghost before = out@;
        out.pop();
        assert(out@ =~= before.drop_last());
    }
}

/// Removes `;`-to-end-of-line comments, preserving the newlines so that line
/// numbers in parse errors still line up with the input.
pub fn strip_comments(src: &Vec<char>) -> (res: Vec<char>)
    ensures
        res@ == uncommented(src@),
{
    let mut out: Vec<char> = Vec::new();
    let mut in_comment = false;
    let mut i: usize = 0;
    while i < src.len()
        invariant
            i <= src@.len(),
            in_comment == comment_open(src@.take(i as int)),
            out@ == uncommented(src@.take(i as int)),
        decreases src@.len() - i,
    {
        let c = src[i];
        proof {
            assert(src@.take(i + 1).drop_last() =~= src@.take(i as int));
            assert(src@.take(i + 1).last() == c);
        }
        if c == ';' {
            in_comment = true;
        } else if c == '\n' {
            in_comment = false;
        }
        if !in_comment {
            out.push(c);
        }
        i = i + 1;
    }
    assert(src@.take(i as int) =~= src@);
    out
}

/// The first occurrence of the `problem`/`domain` keyword classifies well-formed
/// PDDL.
pub fn looks_like_problem(src: &str) -> (res: bool)
    ensures
        res == declares_problem(src@),
{
    let all = chars_of(src);
    let text = lower_case(&all);
    let define = find_text(&text, &chars_of("(define"));
    let problem = find_text(&text, &chars_of("(problem"));
    let domain = find_text(&text, &chars_of("(domain"));
    proof {
        reveal_strlit("(problem");
        reveal_strlit("(domain");
    }
    match (define, problem, domain) {
        (Some(_), Some(p), Some(d)) => {
            proof {
                if p == d {
                    let s = lower(src@);
                    assert(s.subrange(p as int, p + "(problem"@.len())[1] == 'p');
                    assert(s.subrange(d as int, d + "(domain"@.len())[1] == 'd');
                }
            }
            p < d
        },
        (Some(_), Some(_), None) => true,
        _ => false,
    }
}

/// Whether parentheses delimit: before a `(` stands a `(` or white space, before a
/// `)` no white space.
pub open spec fn is_delimited(s: Seq<char>) -> bool {
    forall|i: int|
        0 < i < s.len() ==> (#[trigger] s[i] == '(' ==> s[i - 1] == '(' || white_space(s[i - 1])) && (s[i] == ')' ==> !white_space(s[i - 1]))
}

proof fn lemma_trimmed_end(s: Seq<char>)
    ensures
        trimmed_end(s).len() <= s.len(),
        trimmed_end(s) == s.take(trimmed_end(s).len() as int),
        trimmed_end(s).len() > 0 ==> !white_space(trimmed_end(s).last()),
    decreases s.len(),
{
    if s.len() > 0 && white_space(s.last()) {
        lemma_trimmed_end(s.drop_last());
        assert(s.drop_last().take(trimmed_end(s).len() as int) =~= s.take(trimmed_end(s).len() as int));
    } else {
        assert(s.take(s.len() as int) =~= s);
    }
}

/// Delimiting makes parentheses delimit and keeps the last character; every other
/// character is a space or one that was there.
proof fn lemma_delimited(s: Seq<char>)
    ensures
        is_delimited(delimited(s)),
        s.len() > 0 ==> delimited(s).len() > 0 && delimited(s).last() == s.last(),
        s.len() == 0 ==> delimited(s).len() == 0,
        forall|i: int| 0 <= i < delimited(s).len() ==> (#[trigger] delimited(s)[i]) == ' ' || s.contains(delimited(s)[i]),
    decreases s.len(),
{
    if s.len() > 0 {
        let front = s.drop_last();
        let rest = delimited(front);
        lemma_delimited(front);
        lemma_trimmed_end(rest);
        assert(s[s.len() - 1] == s.last());
        let out = delimited(s);
        assert forall|i: int| 0 <= i < out.len() implies (#[trigger] out[i]) == ' ' || s.contains(out[i]) by {
            if i < rest.len() && out[i] == rest[i] && rest[i] != ' ' {
                let k = choose|k: int| 0 <= k < front.len() && front[k] == rest[i];
                assert(s[k] == rest[i]);
            }
        }
    }
}

proof fn lemma_delimited_stays(s: Seq<char>)
    requires
        is_delimited(s),
    ensures
        delimited(s) == s,
    decreases s.len(),
{
    if s.len() > 0 {
        let front = s.drop_last();
        assert forall|i: int| 0 < i < front.len() implies (#[trigger] front[i] == '(' ==> front[i - 1] == '(' || white_space(front[i - 1])) && (
        front[i] == ')' ==> !white_space(front[i - 1])) by {
            assert(front[i] == s[i] && front[i - 1] == s[i - 1]);
        }
        lemma_delimited_stays(front);
        let n = s.len() - 1;
        assert(s[n] == s.last());
        if s.len() > 1 {
            assert(front.last() == s[n - 1]);
        }
        assert(front.push(s.last()) =~= s);
    } else {
        assert(delimited(s) =~= s);
    }
}

proof fn lemma_uncommented(s: Seq<char>)
    ensures
        forall|i: int| 0 <= i < uncommented(s).len() ==> (#[trigger] uncommented(s)[i]) != ';' && s.contains(uncommented(s)[i]),
    decreases s.len(),
{
    if s.len() > 0 {
        let front = s.drop_last();
        lemma_uncommented(front);
        assert(s[s.len() - 1] == s.last());
        assert forall|i: int| 0 <= i < uncommented(s).len() implies (#[trigger] uncommented(s)[i]) != ';' && s.contains(uncommented(s)[i]) by {
            if i < uncommented(front).len() {
                assert(uncommented(s)[i] == uncommented(front)[i]);
                let k = choose|k: int| 0 <= k < front.len() && front[k] == uncommented(front)[i];
                assert(s[k] == uncommented(s)[i]);
            }
        }
    }
}

proof fn lemma_uncommented_stays(s: Seq<char>)
    requires
        forall|i: int| 0 <= i < s.len() ==> (#[trigger] s[i]) != ';',
    ensures
        uncommented(s) == s,
        !comment_open(s),
    decreases s.len(),
{
    if s.len() > 0 {
        let front = s.drop_last();
        assert forall|i: int| 0 <= i < front.len() implies (#[trigger] front[i]) != ';' by {
            assert(front[i] == s[i]);
        }
        lemma_uncommented_stays(front);
        assert(s[s.len() - 1] == s.last());
        assert(front.push(s.last()) =~= s);
    } else {
        assert(uncommented(s) =~= s);
    }
}

/// No comment survives normalization: the parsers never see a `;`.
pub proof fn no_comment_survives(src: Seq<char>)
    ensures
        forall|i: int| 0 <= i < normalized(src).len() ==> (#[trigger] normalized(src)[i]) != ';',
{
    let text = uncommented(lower(src));
    lemma_uncommented(lower(src));
    lemma_delimited(text);
    assert forall|i: int| 0 <= i < normalized(src).len() implies (#[trigger] normalized(src)[i]) != ';' by {
        let c = normalized(src)[i];
        if c != ' ' {
            let k = choose|k: int| 0 <= k < text.len() && text[k] == c;
            assert(text[k] != ';');
        }
    }
}

/// Normalized source is in lower case, its parentheses delimit, and normalizing it
/// once more changes nothing.
pub proof fn normalization_is_idempotent(src: Seq<char>)
    ensures
        is_delimited(normalized(src)),
        lower(normalized(src)) == normalized(src),
        normalized(normalized(src)) == normalized(src),
{
    let text = uncommented(lower(src));
    let s = normalized(src);
    lemma_uncommented(lower(src));
    lemma_delimited(text);
    no_comment_survives(src);
    assert forall|i: int| 0 <= i < s.len() implies lower(s)[i] == #[trigger] s[i] by {
        let c = s[i];
        if c != ' ' {
            let k = choose|k: int| 0 <= k < text.len() && text[k] == c;
            assert(lower(src).contains(text[k]));
            let m = choose|m: int| 0 <= m < lower(src).len() && lower(src)[m] == c;
            assert(c == crate::text::lower_char(src[m]));
        }
    }
    assert(lower(s) =~= s);
    lemma_uncommented_stays(s);
    lemma_delimited_stays(s);
}

} // verus!
