//! Text over sequences of characters: lines, words, trimming, numbers and case.
//!
//! A text is modelled as a `Seq<char>`; executable code holds it as a `String`,
//! a `&str` or a vector of characters.
use vstd::prelude::*;

verus! {

/// `String::push` appends one character to the end of the string.
pub assume_specification[ String::push ](s: &mut String, c: char)
    ensures
        final(s)@ == old(s)@.push(c),
;

/// Copies a vector of plain values.
pub fn copy_vec<T: Copy>(v: &Vec<T>) -> (res: Vec<T>)
    ensures
        res@ == v@,
{
    let mut res: Vec<T> = Vec::new();
    let mut i: usize = 0;
    while i < v.len()
        invariant
            i <= v.len(),
            res@ == v@.take(i as int),
        decreases v.len() - i,
    {
        res.push(v[i]);
        i = i + 1;
        assert(v@.take(i as int) =~= v@.take(i - 1).push(v@[i - 1]));
    }
    assert(v@.take(i as int) =~= v@);
    res
}

/// The characters of a string, in order.
pub fn chars_of(s: &str) -> (res: Vec<char>)
    ensures
        res@ == s@,
{
    let mut res: Vec<char> = Vec::new();
    for c in it: s.chars()
        invariant
            it.seq() == s@,
            res@ == s@.take(it.index() as int),
    {
        res.push(c);
        assert(s@.take(it.index() + 1) =~= s@.take(it.index() as int).push(s@[it.index() as int]));
    }
    assert(res@ =~= s@);
    res
}

/// The string made of the given characters.
pub fn string_of(v: &Vec<char>) -> (res: String)
    ensures
        res@ == v@,
{
    let mut res = String::new();
    let mut i: usize = 0;
    while i < v.len()
        invariant
            i <= v.len(),
            res@ == v@.take(i as int),
        decreases v.len() - i,
    {
        res.push(v[i]);
        i = i + 1;
        assert(v@.take(i as int) =~= v@.take(i - 1).push(v@[i - 1]));
    }
    assert(v@.take(i as int) =~= v@);
    res
}

/// Whether two character vectors spell the same text.
pub fn same_chars(a: &Vec<char>, b: &Vec<char>) -> (res: bool)
    ensures
        res == (a@ == b@),
{
    if a.len() != b.len() {
        return false;
    }
    let mut i: usize = 0;
    while i < a.len()
        invariant
            a.len() == b.len(),
            i <= a.len(),
            forall|k: int| 0 <= k < i ==> a@[k] == b@[k],
        decreases a.len() - i,
    {
        if a[i] != b[i] {
            return false;
        }
        i = i + 1;
    }
    assert(a@ =~= b@);
    true
}

/// Whether a character vector spells the given string.
pub fn spells(a: &Vec<char>, s: &str) -> (res: bool)
    ensures
        res == (a@ == s@),
{
    let b = chars_of(s);
    same_chars(a, &b)
}

/// Whether two strings are the same text.
pub fn same_text(a: &str, b: &str) -> (res: bool)
    ensures
        res == (a@ == b@),
{
    let a = chars_of(a);
    let b = chars_of(b);
    same_chars(&a, &b)
}

/// The Unicode `White_Space` property.
pub open spec fn white_space(c: char) -> bool {
    ||| '\u{9}' <= c <= '\u{d}'
    ||| c == ' '
    ||| c == '\u{85}'
    ||| c == '\u{a0}'
    ||| c == '\u{1680}'
    ||| '\u{2000}' <= c <= '\u{200a}'
    ||| c == '\u{2028}'
    ||| c == '\u{2029}'
    ||| c == '\u{202f}'
    ||| c == '\u{205f}'
    ||| c == '\u{3000}'
}

pub fn is_white_space(c: char) -> (res: bool)
    ensures
        res == white_space(c),
{
    ('\u{9}' <= c && c <= '\u{d}') || c == ' ' || c == '\u{85}' || c == '\u{a0}' || c == '\u{1680}' || ('\u{2000}'
        <= c && c <= '\u{200a}') || c == '\u{2028}' || c == '\u{2029}' || c == '\u{202f}' || c == '\u{205f}' || c
        == '\u{3000}'
}

/// The text without the white space at its two ends.
pub open spec fn trimmed(s: Seq<char>) -> Seq<char>
    decreases s.len(),
{
    if s.len() == 0 {
        s
    } else if white_space(s[0]) {
        trimmed(s.drop_first())
    } else if white_space(s.last()) {
        trimmed(s.drop_last())
    } else {
        s
    }
}

/// The part of `v` from `from` up to (not including) `to`.
pub fn slice_of(v: &Vec<char>, from: usize, to: usize) -> (res: Vec<char>)
    requires
        from <= to <= v.len(),
    ensures
        res@ == v@.subrange(from as int, to as int),
{
    let mut res: Vec<char> = Vec::new();
    let mut i: usize = from;
    while i < to
        invariant
            from <= i <= to <= v.len(),
            res@ == v@.subrange(from as int, i as int),
        decreases to - i,
    {
        res.push(v[i]);
        i = i + 1;
        assert(v@.subrange(from as int, i as int) =~= v@.subrange(from as int, i - 1).push(v@[i - 1]));
    }
    res
}

/// See [`trimmed`].
pub fn trim(v: &Vec<char>) -> (res: Vec<char>)
    ensures
        res@ == trimmed(v@),
{
    let mut from: usize = 0;
    let mut to: usize = v.len();
    assert(v@.subrange(0, v.len() as int) =~= v@);
    while from < to && is_white_space(v[from])
        invariant
            from <= to == v.len(),
            trimmed(v@) == trimmed(v@.subrange(from as int, to as int)),
        decreases to - from,
    {
        proof {
            let s = v@.subrange(from as int, to as int);
            assert(s.drop_first() =~= v@.subrange(from + 1, to as int));
        }
        from = from + 1;
    }
    while from < to && is_white_space(v[to - 1])
        invariant
            from <= to <= v.len(),
            from < to ==> !white_space(v@[from as int]),
            trimmed(v@) == trimmed(v@.subrange(from as int, to as int)),
        decreases to - from,
    {
        proof {
            let s = v@.subrange(from as int, to as int);
            assert(s.drop_last() =~= v@.subrange(from as int, to - 1));
        }
        to = to - 1;
    }
    slice_of(v, from, to)
}

/// The index of the first `sep` in `s` (the length when there is none).
pub open spec fn find_char(s: Seq<char>, sep: char) -> int
    decreases s.len(),
{
    if s.len() == 0 || s[0] == sep {
        0
    } else {
        1 + find_char(s.drop_first(), sep)
    }
}

/// The place that is found is the first.
pub proof fn lemma_find_char(s: Seq<char>, sep: char)
    ensures
        0 <= find_char(s, sep) <= s.len(),
        find_char(s, sep) < s.len() ==> s[find_char(s, sep)] == sep,
        forall|i: int| 0 <= i < find_char(s, sep) ==> s[i] != sep,
    decreases s.len(),
{
    if s.len() > 0 && s[0] != sep {
        lemma_find_char(s.drop_first(), sep);
        let k = find_char(s.drop_first(), sep);
        assert forall|i: int| 0 <= i < k + 1 implies s[i] != sep by {
            if i > 0 {
                assert(s.drop_first()[i - 1] == s[i]);
            }
        }
    }
}

proof fn lemma_find_char_unique(s: Seq<char>, sep: char, k: int)
    requires
        0 <= k <= s.len(),
        k < s.len() ==> s[k] == sep,
        forall|i: int| 0 <= i < k ==> s[i] != sep,
    ensures
        find_char(s, sep) == k,
{
    lemma_find_char(s, sep);
}

/// The first index at or behind `from` that holds `sep` (the length when there is none).
pub fn find_from(v: &Vec<char>, sep: char, from: usize) -> (k: usize)
    requires
        from <= v.len(),
    ensures
        from <= k <= v.len(),
        k == from + find_char(v@.skip(from as int), sep),
        k < v.len() ==> v@[k as int] == sep,
{
    let mut k: usize = from;
    while k < v.len() && v[k] != sep
        invariant
            from <= k <= v.len(),
            forall|i: int| from <= i < k ==> v@[i] != sep,
        decreases v.len() - k,
    {
        k = k + 1;
    }
    proof {
        let s = v@.skip(from as int);
        lemma_find_char_unique(s, sep, k - from);
    }
    k
}

/// The pieces of `s` between the separators; one more than there are separators.
pub open spec fn split(s: Seq<char>, sep: char) -> Seq<Seq<char>>
    decreases s.len(),
{
    let k = find_char(s, sep);
    if 0 <= k < s.len() {
        seq![s.take(k)] + split(s.skip(k + 1), sep)
    } else {
        seq![s]
    }
}

/// The texts of a vector of character vectors.
pub open spec fn texts(v: Seq<Vec<char>>) -> Seq<Seq<char>> {
    v.map_values(|t: Vec<char>| t@)
}

/// See [`split`].
pub fn split_on(v: &Vec<char>, sep: char) -> (res: Vec<Vec<char>>)
    ensures
        texts(res@) == split(v@, sep),
{
    let mut res: Vec<Vec<char>> = Vec::new();
    let mut from: usize = 0;
    assert(v@.skip(0) =~= v@);
    assert(texts(res@) + split(v@.skip(0), sep) =~= split(v@, sep));
    loop
        invariant
            from <= v.len(),
            texts(res@) + split(v@.skip(from as int), sep) == split(v@, sep),
        decreases v.len() - from,
    {
        let k = find_from(v, sep, from);
        let piece = slice_of(v, from, k);
        let ghost rest = v@.skip(from as int);
        let ghost before = texts(res@);
        assert(piece@ =~= rest.take(k - from));
        res.push(piece);
        assert(texts(res@) =~= before.push(piece@));
        if k == v.len() {
            assert(rest.take(k - from) =~= rest);
            assert(texts(res@) =~= before + seq![rest]);
            return res;
        }
        assert(rest.skip(k - from + 1) =~= v@.skip(k + 1));
        assert(texts(res@) + split(v@.skip(k + 1), sep) =~= before + (seq![piece@] + split(v@.skip(k + 1), sep)));
        from = k + 1;
    }
}

/// The lines of a text: the pieces between line feeds, without the empty piece
/// behind a final line feed. A carriage return before a line feed stays; callers
/// trim their lines.
pub open spec fn lines(s: Seq<char>) -> Seq<Seq<char>> {
    let parts = split(s, '\n');
    if parts.last().len() == 0 {
        parts.drop_last()
    } else {
        parts
    }
}

pub proof fn lemma_split_nonempty(s: Seq<char>, sep: char)
    ensures
        split(s, sep).len() > 0,
{
}

/// See [`lines`].
pub fn split_lines(v: &Vec<char>) -> (res: Vec<Vec<char>>)
    ensures
        texts(res@) == lines(v@),
{
    let mut res = split_on(v, '\n');
    proof {
        lemma_split_nonempty(v@, '\n');
        assert(texts(res@).last() == res@.last()@);
    }
    if res[res.len() - 1].len() == 0 {
        let ghost before = res@;
        let _ = res.pop();
        assert(texts(res@) =~= texts(before).drop_last());
    }
    res
}

/// The maximal runs of characters that are not white space, in order.
pub open spec fn words(s: Seq<char>) -> Seq<Seq<char>>
    decreases s.len(),
{
    if s.len() == 0 {
        Seq::empty()
    } else if white_space(s[0]) {
        words(s.drop_first())
    } else {
        let k = word_end(s);
        if 0 < k <= s.len() {
            seq![s.take(k)] + words(s.skip(k))
        } else {
            Seq::empty()
        }
    }
}

/// The length of the leading run of characters that are not white space.
pub open spec fn word_end(s: Seq<char>) -> int
    decreases s.len(),
{
    if s.len() == 0 || white_space(s[0]) {
        0
    } else {
        1 + word_end(s.drop_first())
    }
}

pub proof fn lemma_word_end(s: Seq<char>, k: int)
    requires
        0 <= k <= s.len(),
        k < s.len() ==> white_space(s[k]),
        forall|i: int| 0 <= i < k ==> !white_space(s[i]),
    ensures
        word_end(s) == k,
    decreases s.len(),
{
    if k > 0 {
        assert forall|i: int| 0 <= i < k - 1 implies !white_space(s.drop_first()[i]) by {
            assert(s.drop_first()[i] == s[i + 1]);
        }
        lemma_word_end(s.drop_first(), k - 1);
    }
}

/// See [`words`].
pub fn split_words(v: &Vec<char>) -> (res: Vec<Vec<char>>)
    ensures
        texts(res@) == words(v@),
{
    let mut res: Vec<Vec<char>> = Vec::new();
    let mut at: usize = 0;
    assert(v@.skip(0) =~= v@);
    assert(texts(res@) + words(v@) =~= words(v@));
    while at < v.len()
        invariant
            at <= v.len(),
            texts(res@) + words(v@.skip(at as int)) == words(v@),
        decreases v.len() - at,
    {
        let ghost rest = v@.skip(at as int);
        if is_white_space(v[at]) {
            assert(rest.drop_first() =~= v@.skip(at + 1));
            at = at + 1;
        } else {
            let mut k: usize = at;
            while k < v.len() && !is_white_space(v[k])
                invariant
                    at <= k <= v.len(),
                    forall|i: int| at <= i < k ==> !white_space(v@[i]),
                decreases v.len() - k,
            {
                k = k + 1;
            }
            proof {
                lemma_word_end(rest, k - at);
            }
            let word = slice_of(v, at, k);
            assert(word@ =~= rest.take(k - at));
            assert(rest.skip(k - at) =~= v@.skip(k as int));
            let ghost before = texts(res@);
            res.push(word);
            assert(texts(res@) =~= before.push(word@));
            assert(texts(res@) + words(v@.skip(k as int)) =~= before + (seq![word@] + words(v@.skip(k as int))));
            at = k;
        }
    }
    assert(texts(res@) + words(v@.skip(at as int)) =~= texts(res@));
    res
}

/// The value of a decimal digit.
pub open spec fn digit_value(c: char) -> nat {
    (c as u32 - '0' as u32) as nat
}

pub open spec fn is_digit(c: char) -> bool {
    '0' <= c <= '9'
}

pub open spec fn all_digits(s: Seq<char>) -> bool {
    forall|i: int| 0 <= i < s.len() ==> is_digit(#[trigger] s[i])
}

/// The number that a run of decimal digits denotes.
pub open spec fn number_of(s: Seq<char>) -> nat
    decreases s.len(),
{
    if s.len() == 0 {
        0
    } else {
        number_of(s.drop_last()) * 10 + digit_value(s.last())
    }
}

/// What the text denotes as an unsigned number: digits, at least one, behind an
/// optional plus sign.
pub open spec fn unsigned_value(s: Seq<char>) -> Option<nat> {
    let body = if s.len() > 0 && s[0] == '+' {
        s.drop_first()
    } else {
        s
    };
    if body.len() > 0 && all_digits(body) {
        Some(number_of(body))
    } else {
        None
    }
}

/// The unsigned number that the text denotes, when it is at most `max`.
pub open spec fn bounded_value(s: Seq<char>, max: nat) -> Option<nat> {
    match unsigned_value(s) {
        Some(n) => if n <= max {
            Some(n)
        } else {
            None
        },
        None => None,
    }
}

/// What the text denotes as a signed number: digits, at least one, behind an
/// optional sign.
pub open spec fn signed_value(s: Seq<char>) -> Option<int> {
    if s.len() > 0 && s[0] == '-' {
        let body = s.drop_first();
        if body.len() > 0 && all_digits(body) {
            Some(-(number_of(body) as int))
        } else {
            None
        }
    } else {
        match unsigned_value(s) {
            Some(n) => Some(n as int),
            None => None,
        }
    }
}

proof fn lemma_number_prefix(s: Seq<char>, k: int)
    requires
        0 <= k <= s.len(),
        all_digits(s),
    ensures
        number_of(s.take(k)) <= number_of(s),
    decreases s.len(),
{
    if k < s.len() {
        assert(s.drop_last().take(k) =~= s.take(k));
        assert(all_digits(s.drop_last()));
        lemma_number_prefix(s.drop_last(), k);
    } else {
        assert(s.take(k) =~= s);
    }
}

fn digit_of(c: char) -> (d: u64)
    requires
        is_digit(c),
    ensures
        d == digit_value(c),
        d < 10,
{
    (c as u32 - '0' as u32) as u64
}

/// Reads the digits of `v` from `from` on; `None` when there is none, when some
/// character is no digit, or when the number exceeds `max`.
fn digits_from(v: &Vec<char>, from: usize, max: u64) -> (res: Option<u64>)
    requires
        from <= v.len(),
    ensures
        res == (if from < v.len() && all_digits(v@.skip(from as int)) && number_of(v@.skip(from as int)) <= max {
            Some(number_of(v@.skip(from as int)) as u64)
        } else {
            None::<u64>
        }),
{
    let ghost s = v@.skip(from as int);
    if from == v.len() {
        return None;
    }
    let mut i: usize = from;
    while i < v.len()
        invariant
            from <= i <= v.len(),
            s == v@.skip(from as int),
            all_digits(s.take(i - from)),
        decreases v.len() - i,
    {
        let c = v[i];
        if !('0' <= c && c <= '9') {
            assert(s[i - from] == c);
            return None;
        }
        assert(s.take(i - from + 1) =~= s.take(i - from).push(c));
        assert forall|j: int| 0 <= j < i - from + 1 implies is_digit(#[trigger] s.take(i - from + 1)[j]) by {
            if j < i - from {
                assert(s.take(i - from)[j] == s.take(i - from + 1)[j]);
            }
        }
        i = i + 1;
    }
    assert(s.take(i - from) =~= s);
    let mut n: u64 = 0;
    let mut k: usize = from;
    assert(s.take(0) =~= Seq::<char>::empty());
    while k < v.len()
        invariant
            from <= k <= v.len(),
            s == v@.skip(from as int),
            all_digits(s),
            n == number_of(s.take(k - from)),
            n <= max,
            from < v.len(),
        decreases v.len() - k,
    {
        assert(is_digit(s[k - from]));
        let d = digit_of(v[k]);
        proof {
            assert(s.take(k - from + 1).drop_last() =~= s.take(k - from));
            lemma_number_prefix(s, k - from + 1);
        }
        let m = n.checked_mul(10);
        let m = match m {
            Some(m) => m,
            None => {
                return None;
            },
        };
        if m > max || d > max - m {
            return None;
        }
        n = m + d;
        k = k + 1;
    }
    assert(s.take(k - from) =~= s);
    Some(n)
}

/// The unsigned number that the text denotes, when it fits in a `usize`.
pub fn parse_usize(v: &Vec<char>) -> (res: Option<usize>)
    ensures
        res == (match bounded_value(v@, usize::MAX as nat) {
            Some(n) => Some(n as usize),
            None => None::<usize>,
        }),
{
    let from: usize = if v.len() > 0 && v[0] == '+' {
        1
    } else {
        0
    };
    assert(v@.skip(1) =~= v@.drop_first() || v.len() == 0);
    assert(v@.skip(0) =~= v@);
    match digits_from(v, from, usize::MAX as u64) {
        Some(n) => Some(n as usize),
        None => None,
    }
}

/// The signed number that the text denotes, when it fits in an `isize`.
pub fn parse_isize(v: &Vec<char>) -> (res: Option<isize>)
    ensures
        res == (match signed_value(v@) {
            Some(n) => if isize::MIN <= n <= isize::MAX {
                Some(n as isize)
            } else {
                None::<isize>
            },
            None => None::<isize>,
        }),
{
    let negative = v.len() > 0 && v[0] == '-';
    let from: usize = if v.len() > 0 && (v[0] == '-' || v[0] == '+') {
        1
    } else {
        0
    };
    assert(v.len() > 0 ==> v@.skip(1) =~= v@.drop_first());
    assert(v@.skip(0) =~= v@);
    if negative {
        match digits_from(v, from, isize::MAX as u64 + 1) {
            Some(n) => {
                if n == isize::MAX as u64 + 1 {
                    Some(isize::MIN)
                } else {
                    Some(-(n as isize))
                }
            },
            None => None,
        }
    } else {
        match digits_from(v, from, isize::MAX as u64) {
            Some(n) => Some(n as isize),
            None => None,
        }
    }
}

/// The decimal digit of a number below ten.
pub open spec fn digit_char(d: nat) -> char {
    if d == 0 { '0' } else if d == 1 { '1' } else if d == 2 { '2' } else if d == 3 { '3' } else if d == 4 { '4' }
    else if d == 5 { '5' } else if d == 6 { '6' } else if d == 7 { '7' } else if d == 8 { '8' } else { '9' }
}

/// The decimal notation of a number, without leading zeros.
pub open spec fn decimal(n: nat) -> Seq<char>
    decreases n,
{
    if n < 10 {
        seq![digit_char(n)]
    } else {
        decimal(n / 10).push(digit_char(n % 10))
    }
}

fn char_of_digit(d: u128) -> (c: char)
    requires
        d < 10,
    ensures
        c == digit_char(d as nat),
{
    if d == 0 { '0' } else if d == 1 { '1' } else if d == 2 { '2' } else if d == 3 { '3' } else if d == 4 { '4' }
    else if d == 5 { '5' } else if d == 6 { '6' } else if d == 7 { '7' } else if d == 8 { '8' } else { '9' }
}

/// Appends the decimal notation of `n`.
pub fn push_number(out: &mut String, n: u128)
    ensures
        final(out)@ == old(out)@ + decimal(n as nat),
    decreases n,
{
    if n < 10 {
        out.push(char_of_digit(n));
        assert(out@ =~= old(out)@ + decimal(n as nat));
    } else {
        push_number(out, n / 10);
        out.push(char_of_digit(n % 10));
        assert(out@ =~= old(out)@ + decimal(n as nat));
    }
}

/// The decimal notation of a signed number.
pub open spec fn signed_decimal(n: int) -> Seq<char> {
    if n < 0 {
        "-"@ + decimal((-n) as nat)
    } else {
        decimal(n as nat)
    }
}

/// Appends the decimal notation of a signed number.
pub fn push_signed(out: &mut String, n: i128)
    requires
        n > i128::MIN,
    ensures
        final(out)@ == old(out)@ + signed_decimal(n as int),
{
    if n < 0 {
        out.append("-");
        push_number(out, (-n) as u128);
        assert(out@ =~= old(out)@ + ("-"@ + decimal((-n) as nat)));
    } else {
        push_number(out, n as u128);
    }
}

/// Reading a number's decimal notation gives the number back.
pub proof fn decimal_reads_back(n: nat)
    ensures
        unsigned_value(decimal(n)) == Some(n),
{
    lemma_decimal(n);
    assert(decimal(n)[0] != '+');
}

pub proof fn lemma_decimal(n: nat)
    ensures
        decimal(n).len() > 0,
        all_digits(decimal(n)),
        number_of(decimal(n)) == n,
    decreases n,
{
    if n < 10 {
        assert(seq![digit_char(n)].drop_last() =~= Seq::<char>::empty());
        assert(number_of(Seq::<char>::empty()) == 0);
    } else {
        lemma_decimal(n / 10);
        assert(decimal(n).drop_last() =~= decimal(n / 10));
        assert forall|i: int| 0 <= i < decimal(n).len() implies is_digit(#[trigger] decimal(n)[i]) by {
            if i < decimal(n).len() - 1 {
                assert(decimal(n / 10)[i] == decimal(n)[i]);
            }
        }
    }
}

/// The upper-case form of an ASCII letter; any other character is kept.
pub open spec fn upper_char(c: char) -> char {
    if 'a' <= c <= 'z' {
        (c as u32 - 32) as char
    } else {
        c
    }
}

/// The lower-case form of an ASCII letter; any other character is kept.
pub open spec fn lower_char(c: char) -> char {
    if 'A' <= c <= 'Z' {
        (c as u32 + 32) as char
    } else {
        c
    }
}

pub open spec fn upper(s: Seq<char>) -> Seq<char> {
    s.map_values(|c: char| upper_char(c))
}

pub open spec fn lower(s: Seq<char>) -> Seq<char> {
    s.map_values(|c: char| lower_char(c))
}

fn to_upper(c: char) -> (res: char)
    ensures
        res == upper_char(c),
{
    if 'a' <= c && c <= 'z' {
        (c as u8 - 32) as char
    } else {
        c
    }
}

fn to_lower(c: char) -> (res: char)
    ensures
        res == lower_char(c),
{
    if 'A' <= c && c <= 'Z' {
        (c as u8 + 32) as char
    } else {
        c
    }
}

/// The ASCII upper-case form of a text.
pub fn upper_case(v: &Vec<char>) -> (res: Vec<char>)
    ensures
        res@ == upper(v@),
{
    let mut res: Vec<char> = Vec::new();
    let mut i: usize = 0;
    while i < v.len()
        invariant
            i <= v.len(),
            res.len() == i,
            forall|k: int| 0 <= k < i ==> res@[k] == upper_char(v@[k]),
        decreases v.len() - i,
    {
        res.push(to_upper(v[i]));
        i = i + 1;
    }
    assert(res@ =~= upper(v@));
    res
}

/// The ASCII lower-case form of a text.
pub fn lower_case(v: &Vec<char>) -> (res: Vec<char>)
    ensures
        res@ == lower(v@),
{
    let mut res: Vec<char> = Vec::new();
    let mut i: usize = 0;
    while i < v.len()
        invariant
            i <= v.len(),
            res.len() == i,
            forall|k: int| 0 <= k < i ==> res@[k] == lower_char(v@[k]),
        decreases v.len() - i,
    {
        res.push(to_lower(v[i]));
        i = i + 1;
    }
    assert(res@ =~= lower(v@));
    res
}

/// Whether `pat` stands in `s` at index `at`.
pub open spec fn occurs_at(s: Seq<char>, pat: Seq<char>, at: int) -> bool {
    0 <= at && at + pat.len() <= s.len() && s.subrange(at, at + pat.len()) == pat
}

/// Whether `pat` stands in `v` at index `at`.
pub fn stands_at(v: &Vec<char>, pat: &Vec<char>, at: usize) -> (res: bool)
    ensures
        res == occurs_at(v@, pat@, at as int),
{
    if at > v.len() || pat.len() > v.len() - at {
        return false;
    }
    let mut i: usize = 0;
    while i < pat.len()
        invariant
            i <= pat.len(),
            at + pat.len() <= v.len(),
            forall|k: int| 0 <= k < i ==> pat@[k] == v@[at + k],
        decreases pat.len() - i,
    {
        if pat[i] != v[at + i] {
            assert(v@.subrange(at as int, at + pat.len())[i as int] == v@[at + i]);
            return false;
        }
        i = i + 1;
    }
    assert(v@.subrange(at as int, at + pat.len()) =~= pat@);
    true
}

/// The first index at which `pat` stands in `v`.
pub fn find_text(v: &Vec<char>, pat: &Vec<char>) -> (res: Option<usize>)
    ensures
        match res {
            Some(k) => occurs_at(v@, pat@, k as int) && forall|j: int| 0 <= j < k ==> !occurs_at(v@, pat@, j),
            None => forall|j: int| !occurs_at(v@, pat@, j),
        },
{
    let mut k: usize = 0;
    while k < v.len()
        invariant
            k <= v.len(),
            forall|j: int| 0 <= j < k ==> !occurs_at(v@, pat@, j),
        decreases v.len() - k,
    {
        if stands_at(v, pat, k) {
            return Some(k);
        }
        k = k + 1;
    }
    if stands_at(v, pat, k) {
        Some(k)
    } else {
        None
    }
}

} // verus!
