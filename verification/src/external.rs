//! The heuristics that Fast Downward can evaluate, and its printed results.
use vstd::prelude::*;

use crate::numerals::{bounded, magnitude, parse_scaled, scaled_of, unscaled};
use crate::text::{
    chars_of, digit_value, find_char, find_from, is_digit, lines, lower, lower_case, number_of, occurs_at, same_chars, slice_of, spells,
    split_lines, stands_at, string_of, texts, trim, trimmed,
};

verus! {

/// A state-based heuristic Fast Downward can evaluate. The variant maps to the
/// evaluator syntax (`evaluator`) and to the name printed in the
/// "Initial heuristic value for <name>:" line (`fd_name`).
#[derive(Debug, Clone, Copy, PartialEq, Eq, Hash, Structural)]
pub enum FdHeuristic {
    /// FF heuristic (`ff()`).
    Ff,
    /// Landmark-cut (`lmcut()`).
    LmCut,
    /// h^max (`hmax()`).
    HMax,
    /// Additive heuristic (`add()`).
    HAdd,
    /// Goal-count / blind sanity heuristic (`blind()`).
    Blind,
}

impl FdHeuristic {
    pub open spec fn name(self) -> Seq<char> {
        match self {
            FdHeuristic::Ff => "ff"@,
            FdHeuristic::LmCut => "lmcut"@,
            FdHeuristic::HMax => "hmax"@,
            FdHeuristic::HAdd => "add"@,
            FdHeuristic::Blind => "blind"@,
        }
    }

    /// The evaluator expression (e.g. `ff()`).
    pub fn evaluator(self) -> (res: &'static str)
        ensures
            res@ == self.name() + "()"@,
    {
        proof {
            reveal_strlit("ff()");
            reveal_strlit("ff");
            reveal_strlit("lmcut()");
            reveal_strlit("lmcut");
            reveal_strlit("hmax()");
            reveal_strlit("hmax");
            reveal_strlit("add()");
            reveal_strlit("add");
            reveal_strlit("blind()");
            reveal_strlit("blind");
            reveal_strlit("()");
        }
        let res = match self {
            FdHeuristic::Ff => "ff()",
            FdHeuristic::LmCut => "lmcut()",
            FdHeuristic::HMax => "hmax()",
            FdHeuristic::HAdd => "add()",
            FdHeuristic::Blind => "blind()",
        };
        assert(res@ =~= self.name() + "()"@);
        res
    }

    /// The name printed in "Initial heuristic value for <name>:".
    pub fn fd_name(self) -> (res: &'static str)
        ensures
            res@ == self.name(),
    {
        match self {
            FdHeuristic::Ff => "ff",
            FdHeuristic::LmCut => "lmcut",
            FdHeuristic::HMax => "hmax",
            FdHeuristic::HAdd => "add",
            FdHeuristic::Blind => "blind",
        }
    }

    /// A short number for cache keying; no two heuristics share it.
    pub fn tag(self) -> (res: u8)
        ensures
            res == (match self {
                FdHeuristic::Ff => 0u8,
                FdHeuristic::LmCut => 1u8,
                FdHeuristic::HMax => 2u8,
                FdHeuristic::HAdd => 3u8,
                FdHeuristic::Blind => 4u8,
            }),
    {
        match self {
            FdHeuristic::Ff => 0,
            FdHeuristic::LmCut => 1,
            FdHeuristic::HMax => 2,
            FdHeuristic::HAdd => 3,
            FdHeuristic::Blind => 4,
        }
    }
}

/// Why Fast Downward gave no result.
#[derive(Debug)]
pub enum FdError {
    /// The executable could not be spawned (not installed, not on `PATH`, or a
    /// bad `POTOROO_FD`).
    Spawn { path: String, reason: String },
    /// Reading or writing its files failed.
    Io(String),
    /// It ran, and its output holds no result.
    ParseFailure { output: String },
}

impl FdError {
    /// What the error says.
    pub open spec fn message(&self) -> Seq<char> {
        match self {
            FdError::Spawn { path, reason } => "could not run Fast Downward ("@ + path@ + "): "@ + reason@
                + "; set POTOROO_FD to its path"@,
            FdError::Io(reason) => "I/O error preparing Fast Downward inputs: "@ + reason@,
            FdError::ParseFailure { .. } => "could not parse initial heuristic value from Fast Downward output"@,
        }
    }

    pub fn to_text(&self) -> (res: String)
        ensures
            res@ == self.message(),
    {
        match self {
            FdError::Spawn { path, reason } => {
                let mut res = String::from_str("could not run Fast Downward (");
                res.append(path.as_str());
                res.append("): ");
                res.append(reason.as_str());
                res.append("; set POTOROO_FD to its path");
                res
            },
            FdError::Io(reason) => {
                let mut res = String::from_str("I/O error preparing Fast Downward inputs: ");
                res.append(reason.as_str());
                res
            },
            FdError::ParseFailure { .. } => String::from_str("could not parse initial heuristic value from Fast Downward output"),
        }
    }
}

/// The value of a heuristic on an initial state: an estimate, or that the goal
/// was proved out of reach.
#[derive(Debug, Clone, Copy, PartialEq, Eq, Structural)]
pub enum HResult {
    /// A whole value. Values beyond the range count as the last one in it.
    Finite(i128),
    /// A value between two whole ones, in billionths.
    Fraction(i128),
    Infinite,
}

/// The leading decimal digits of a text.
pub open spec fn leading_digits(s: Seq<char>) -> Seq<char>
    decreases s.len(),
{
    if s.len() == 0 || !is_digit(s[0]) {
        Seq::empty()
    } else {
        seq![s[0]] + leading_digits(s.drop_first())
    }
}

pub open spec fn capped_number(n: nat) -> i128 {
    if n > i128::MAX {
        i128::MAX
    } else {
        n as i128
    }
}

/// A printed value: `infinity`, `inf`, or a number with whatever follows it.
pub open spec fn h_value_of(text: Seq<char>) -> Option<HResult> {
    let s = trimmed(text);
    if lower(s) == "infinity"@ || lower(s) == "inf"@ {
        Some(HResult::Infinite)
    } else if leading_digits(s).len() == 0 {
        None
    } else {
        Some(HResult::Finite(capped_number(number_of(leading_digits(s)))))
    }
}

proof fn lemma_number_grows(s: Seq<char>, n: int)
    requires
        0 <= n < s.len(),
    ensures
        number_of(s.take(n + 1)) == number_of(s.take(n)) * 10 + digit_value(s[n]),
{
    assert(s.take(n + 1).drop_last() =~= s.take(n));
}

proof fn lemma_leading_digits(s: Seq<char>, n: int)
    requires
        0 <= n <= s.len(),
        forall|i: int| 0 <= i < n ==> is_digit(#[trigger] s[i]),
        n < s.len() ==> !is_digit(s[n]),
    ensures
        leading_digits(s) == s.take(n),
    decreases n,
{
    if n > 0 {
        let rest = s.drop_first();
        assert forall|i: int| 0 <= i < n - 1 implies is_digit(#[trigger] rest[i]) by {
            assert(rest[i] == s[i + 1]);
        }
        lemma_leading_digits(rest, n - 1);
        assert(seq![s[0]] + rest.take(n - 1) =~= s.take(n));
    } else {
        assert(s.take(0) =~= Seq::empty());
    }
}

/// Reads a printed value.
pub fn parse_h_value(text: &Vec<char>) -> (res: Option<HResult>)
    ensures
        res == h_value_of(text@),
{
    let s = trim(text);
    let low = lower_case(&s);
    if spells(&low, "infinity") || spells(&low, "inf") {
        return Some(HResult::Infinite);
    }
    let mut n: usize = 0;
    let mut value: i128 = 0;
    assert(s@.take(0) =~= Seq::empty());
    while n < s.len() && '0' <= s[n] && s[n] <= '9'
        invariant
            n <= s@.len(),
            forall|i: int| 0 <= i < n ==> is_digit(#[trigger] s@[i]),
            value == capped_number(number_of(s@.take(n as int))),
        decreases s@.len() - n,
    {
        let digit: i128 = (s[n] as u32 - '0' as u32) as i128;
        proof {
            lemma_number_grows(s@, n as int);
        }
        value = if value > (i128::MAX - digit) / 10 {
            i128::MAX
        } else {
            value * 10 + digit
        };
        n = n + 1;
    }
    proof {
        lemma_leading_digits(s@, n as int);
    }
    if n == 0 {
        return None;
    }
    Some(HResult::Finite(value))
}

/// The text stands somewhere in the other one.
pub open spec fn holds_text(s: Seq<char>, pat: Seq<char>) -> bool {
    exists|j: int| #[trigger] occurs_at(s, pat, j)
}

/// The text first stands at `at`.
pub open spec fn first_at(s: Seq<char>, pat: Seq<char>, at: int) -> bool {
    occurs_at(s, pat, at) && forall|j: int| 0 <= j < at ==> !(#[trigger] occurs_at(s, pat, j))
}

/// What follows the first place of the text.
pub open spec fn after_text(s: Seq<char>, pat: Seq<char>) -> Option<Seq<char>> {
    if holds_text(s, pat) {
        Some(s.skip((choose|at: int| first_at(s, pat, at)) + pat.len()))
    } else {
        None
    }
}

/// What follows the first place of the text.
fn rest_after(v: &Vec<char>, pat: &Vec<char>) -> (res: Option<Vec<char>>)
    ensures
        match (res, after_text(v@, pat@)) {
            (Some(rest), Some(spec)) => rest@ == spec,
            (None, None) => true,
            _ => false,
        },
{
    match crate::text::find_text(v, pat) {
        Some(k) => {
            proof {
                assert(first_at(v@, pat@, k as int));
                let at = choose|at: int| first_at(v@, pat@, at);
                if at < k {
                    assert(occurs_at(v@, pat@, at));
                }
                if k < at {
                    assert(occurs_at(v@, pat@, k as int));
                }
            }
            let n = v.len();
            let rest = slice_of(v, k + pat.len(), n);
            assert(rest@ =~= v@.skip(k + pat@.len()));
            Some(rest)
        },
        None => None,
    }
}

/// What a line says of the initial heuristic value: the name that it gives and
/// the value's text. `None` for a line that says nothing of it.
pub open spec fn initial_h_line(line: Seq<char>) -> Option<(Seq<char>, Seq<char>)> {
    match after_text(trimmed(line), "Initial heuristic value for "@) {
        Some(rest) => {
            let colon = find_char(rest, ':');
            if 0 <= colon < rest.len() {
                Some((trimmed(rest.take(colon)), trimmed(rest.skip(colon + 1))))
            } else {
                None
            }
        },
        None => None,
    }
}

/// What the lines of an output say.
pub enum Scan {
    /// The value under the wanted name.
    Found(HResult),
    /// A value that cannot be read.
    Failed,
    /// The first value under another name, if any.
    End(Option<HResult>),
}

/// Reads the lines until one gives the value under the name.
pub open spec fn scan_lines(lines: Seq<Seq<char>>, name: Seq<char>, other: Option<HResult>) -> Scan
    decreases lines.len(),
{
    if lines.len() == 0 {
        Scan::End(other)
    } else {
        match initial_h_line(lines[0]) {
            None => scan_lines(lines.drop_first(), name, other),
            Some((found, value)) => match h_value_of(value) {
                None => Scan::Failed,
                Some(h) => if found == name {
                    Scan::Found(h)
                } else {
                    scan_lines(
                        lines.drop_first(),
                        name,
                        if other is Some {
                            other
                        } else {
                            Some(h)
                        },
                    )
                },
            },
        }
    }
}

/// The output reports that there is no solution.
pub open spec fn reports_unsolvable(output: Seq<char>) -> bool {
    let low = lower(output);
    ||| holds_text(low, "search stopped without finding a solution"@)
    ||| holds_text(low, "completely explored state space -- no solution"@)
    ||| holds_text(low, "task is provably unsolvable"@)
    ||| holds_text(low, "unsolvable"@)
}

/// The initial heuristic value that the output gives. A line under the wanted
/// name is preferred to the first one under another. Without any line, a report
/// that there is no solution stands for a dead end.
pub open spec fn initial_h(output: Seq<char>, name: Seq<char>) -> Option<HResult> {
    match scan_lines(lines(output), name, None) {
        Scan::Found(h) => Some(h),
        Scan::Failed => None,
        Scan::End(Some(h)) => Some(h),
        Scan::End(None) => if reports_unsolvable(output) {
            Some(HResult::Infinite)
        } else {
            None
        },
    }
}

fn has_text(v: &Vec<char>, pat: &str) -> (res: bool)
    ensures
        res == holds_text(v@, pat@),
{
    let pat = chars_of(pat);
    match crate::text::find_text(v, &pat) {
        Some(k) => {
            assert(occurs_at(v@, pat@, k as int));
            true
        },
        None => false,
    }
}

/// Parses the initial heuristic value from Fast Downward output.
pub fn parse_initial_h(output: &str, heur: FdHeuristic) -> (res: Option<HResult>)
    ensures
        res == initial_h(output@, heur.name()),
{
    let chars = chars_of(output);
    let all = split_lines(&chars);
    let mark = chars_of("Initial heuristic value for ");
    let want = chars_of(heur.fd_name());
    let ghost ls = texts(all@);
    let mut other: Option<HResult> = None;
    let mut i: usize = 0;
    assert(ls.skip(0) =~= ls);
    while i < all.len()
        invariant
            ls == texts(all@),
            ls == lines(output@),
            mark@ == "Initial heuristic value for "@,
            want@ == heur.name(),
            i <= all@.len(),
            scan_lines(ls, want@, None) == scan_lines(ls.skip(i as int), want@, other),
        decreases all@.len() - i,
    {
        assert(ls.skip(i as int)[0] == all@[i as int]@);
        assert(ls.skip(i as int).drop_first() =~= ls.skip(i + 1));
        let line = trim(&all[i]);
        if let Some(rest) = rest_after(&line, &mark) {
            let colon = find_from(&rest, ':', 0);
            assert(rest@.skip(0) =~= rest@);
            if colon < rest.len() {
                let n = rest.len();
                let name = slice_of(&rest, 0, colon);
                let value = slice_of(&rest, colon + 1, n);
                assert(name@ =~= rest@.take(colon as int));
                assert(value@ =~= rest@.skip(colon + 1));
                let name = trim(&name);
                let value = trim(&value);
                match parse_h_value(&value) {
                    None => {
                        return None;
                    },
                    Some(h) => {
                        if same_chars(&name, &want) {
                            return Some(h);
                        }
                        if other.is_none() {
                            other = Some(h);
                        }
                    },
                }
            }
        }
        i = i + 1;
    }
    if other.is_some() {
        return other;
    }
    let low = lower_case(&chars);
    if has_text(&low, "search stopped without finding a solution") || has_text(&low, "completely explored state space -- no solution")
        || has_text(&low, "task is provably unsolvable") || has_text(&low, "unsolvable") {
        return Some(HResult::Infinite);
    }
    None
}

/// A finite value in billionths.
pub open spec fn h_of_scaled(n: i128) -> HResult {
    if n as int % 1_000_000_000 == 0 {
        HResult::Finite(unscaled(n as int) as i128)
    } else {
        HResult::Fraction(n)
    }
}

/// The value in a reply line of an evaluation server: what follows `HRESULT `.
/// `None` for an incidental line. A value that is no decimal number counts as infinite.
pub open spec fn h_reply_of(line: Seq<char>) -> Option<HResult> {
    let s = trimmed(line);
    let mark = "HRESULT "@;
    if occurs_at(s, mark, 0) {
        match scaled_of(trimmed(s.skip(mark.len() as int))) {
            Some(n) => Some(h_of_scaled(bounded(n))),
            None => Some(HResult::Infinite),
        }
    } else {
        None
    }
}

/// Reads a reply line of an evaluation server.
pub fn parse_h_reply(line: &str) -> (res: Option<HResult>)
    ensures
        res == h_reply_of(line@),
{
    let s = trim(&chars_of(line));
    let mark = chars_of("HRESULT ");
    if !stands_at(&s, &mark, 0) {
        return None;
    }
    let n = s.len();
    let rest = slice_of(&s, mark.len(), n);
    assert(rest@ =~= s@.skip(mark@.len() as int));
    let rest = trim(&rest);
    match parse_scaled(&rest) {
        Some(n) => {
            let size = magnitude(n);
            assert(n as int % 1_000_000_000 == 0 <==> size % 1_000_000_000 == 0);
            if size % 1_000_000_000 == 0 {
                let whole = (size / 1_000_000_000) as i128;
                if n < 0 {
                    Some(HResult::Finite(-whole))
                } else {
                    Some(HResult::Finite(whole))
                }
            } else {
                Some(HResult::Fraction(n))
            }
        },
        None => Some(HResult::Infinite),
    }
}

/// How many bytes a character takes in UTF-8.
pub open spec fn width(c: char) -> nat {
    let n = c as u32;
    if n < 0x80 {
        1
    } else if n < 0x800 {
        2
    } else if n < 0x10000 {
        3
    } else {
        4
    }
}

/// How many bytes a text takes in UTF-8.
pub open spec fn byte_len(s: Seq<char>) -> nat
    decreases s.len(),
{
    if s.len() == 0 {
        0
    } else {
        byte_len(s.drop_last()) + width(s.last())
    }
}

/// Whether the first `n` characters are those that fit in `max` bytes.
pub open spec fn fits(s: Seq<char>, n: int, max: nat) -> bool {
    0 <= n <= s.len() && byte_len(s.take(n)) <= max && (n < s.len() ==> byte_len(s.take(n + 1)) > max)
}

/// The text, cut after the characters that fit in `max` bytes.
pub open spec fn is_shortened(s: Seq<char>, max: nat, res: Seq<char>) -> bool {
    exists|n: int| #[trigger] fits(s, n, max) && res == (if n == s.len() {
        s
    } else {
        s.take(n) + "…(truncated)"@
    })
}

/// Cuts a long output for a diagnosis.
pub fn truncate(text: &str, max: usize) -> (res: String)
    ensures
        is_shortened(text@, max as nat, res@),
{
    let chars = chars_of(text);
    let mut n: usize = 0;
    let mut room: usize = max;
    assert(text@.take(0) =~= Seq::empty());
    while n < chars.len()
        invariant
            chars@ == text@,
            n <= chars@.len(),
            room <= max,
            byte_len(text@.take(n as int)) == max - room,
        decreases chars@.len() - n,
    {
        let code = chars[n] as u32;
        let wide: usize = if code < 0x80 {
            1
        } else if code < 0x800 {
            2
        } else if code < 0x10000 {
            3
        } else {
            4
        };
        assert(text@.take(n + 1).drop_last() =~= text@.take(n as int));
        assert(byte_len(text@.take(n + 1)) == max - room + wide);
        if room < wide {
            let head = slice_of(&chars, 0, n);
            assert(head@ =~= text@.take(n as int));
            assert(fits(text@, n as int, max as nat));
            let mut res = string_of(&head);
            res.append("…(truncated)");
            return res;
        }
        room = room - wide;
        n = n + 1;
    }
    assert(fits(text@, n as int, max as nat));
    string_of(&chars)
}

} // verus!
