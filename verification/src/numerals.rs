//! Decimal numbers with a point and an exponent, counted in billionths.
use vstd::prelude::*;

use crate::text::{
    all_digits, decimal, digit_value, find_char, find_from, is_digit, lower, lower_case, parse_isize, push_number, signed_value, slice_of,
};

verus! {

/// The digit at a place of a text; zero behind the last.
pub open spec fn decimal_place(s: Seq<char>, i: int) -> nat {
    if 0 <= i < s.len() {
        digit_value(s[i])
    } else {
        0
    }
}

/// The number that the first `n` digits of a text denote, with zeros behind the last.
pub open spec fn digits_upto(s: Seq<char>, n: nat) -> nat
    decreases n,
{
    if n == 0 {
        0
    } else {
        digits_upto(s, (n - 1) as nat) * 10 + decimal_place(s, n - 1)
    }
}

/// A text without the sign in front, in lower case.
pub open spec fn unsigned_text(s: Seq<char>) -> Seq<char> {
    if s.len() > 0 && (s[0] == '+' || s[0] == '-') {
        lower(s.skip(1))
    } else {
        lower(s.skip(0))
    }
}

/// What stands behind the first `sep` of a text.
pub open spec fn behind(s: Seq<char>, sep: char) -> Seq<char> {
    let k = find_char(s, sep);
    if k < s.len() {
        s.skip(k + 1)
    } else {
        seq![]
    }
}

/// The exponent of a number: what stands behind the `e`, or zero.
pub open spec fn exponent_of(s: Seq<char>) -> Option<isize> {
    if find_char(s, 'e') < s.len() {
        match signed_value(behind(s, 'e')) {
            Some(n) => if isize::MIN <= n <= isize::MAX {
                Some(n as isize)
            } else {
                None
            },
            None => None,
        }
    } else {
        Some(0)
    }
}

/// The number that a text denotes, in billionths: decimal digits with at most one point,
/// behind an optional sign and before an optional exponent, which moves the point. Places
/// behind the ninth are dropped.
pub open spec fn scaled_of(s: Seq<char>) -> Option<int> {
    let body = unsigned_text(s);
    let mantissa = body.take(find_char(body, 'e'));
    let whole = mantissa.take(find_char(mantissa, '.'));
    let digits = whole + behind(mantissa, '.');
    match exponent_of(body) {
        Some(e) => {
            let places = whole.len() + e + 9;
            let value = if places > 0 {
                digits_upto(digits, places as nat)
            } else {
                0
            };
            if digits.len() > 0 && all_digits(digits) {
                Some(
                    if s[0] == '-' {
                        -value
                    } else {
                        value as int
                    },
                )
            } else {
                None
            }
        },
        None => None,
    }
}

/// The number, or the nearest one in range.
pub open spec fn bounded(n: int) -> i128 {
    if n > i128::MAX {
        i128::MAX
    } else if n < -i128::MAX {
        (-i128::MAX) as i128
    } else {
        n as i128
    }
}

fn only_digits(v: &Vec<char>) -> (res: bool)
    ensures
        res == all_digits(v@),
{
    let mut i: usize = 0;
    while i < v.len()
        invariant
            i <= v@.len(),
            forall|k: int| 0 <= k < i ==> is_digit(#[trigger] v@[k]),
        decreases v@.len() - i,
    {
        if !('0' <= v[i] && v[i] <= '9') {
            assert(!is_digit(v@[i as int]));
            return false;
        }
        i = i + 1;
    }
    true
}

fn place(v: &Vec<char>, i: usize) -> (res: u32)
    requires
        all_digits(v@),
    ensures
        res == decimal_place(v@, i as int),
        res <= 9,
{
    if i < v.len() {
        assert(is_digit(v@[i as int]));
        v[i] as u32 - '0' as u32
    } else {
        0
    }
}

proof fn lemma_digits_grow(s: Seq<char>, n: nat, m: nat)
    requires
        n <= m,
    ensures
        digits_upto(s, n) <= digits_upto(s, m),
        n >= s.len() && digits_upto(s, n) == 0 ==> digits_upto(s, m) == 0,
    decreases m - n,
{
    if n < m {
        lemma_digits_grow(s, n, (m - 1) as nat);
    }
}

/// See [`behind`].
fn part_behind(v: &Vec<char>, sep: char) -> (res: (usize, Vec<char>))
    ensures
        res.0 == find_char(v@, sep),
        res.0 <= v@.len(),
        res.1@ == behind(v@, sep),
{
    let k = find_from(v, sep, 0);
    assert(v@.skip(0) =~= v@);
    if k < v.len() {
        let r = slice_of(v, k + 1, v.len());
        assert(r@ =~= v@.skip(k + 1));
        (k, r)
    } else {
        let r: Vec<char> = Vec::new();
        assert(r@ =~= seq![]);
        (k, r)
    }
}

/// The number of the first `places` digits, as far as it is in range.
fn number_upto(digits: &Vec<char>, places: i128) -> (res: i128)
    requires
        all_digits(digits@),
    ensures
        0 <= res,
        res == bounded(
            (if places > 0 {
                digits_upto(digits@, places as nat)
            } else {
                0
            }) as int,
        ),
{
    if places <= 0 {
        return 0;
    }
    let mut value: u128 = 0;
    let mut i: i128 = 0;
    while i < places
        invariant
            all_digits(digits@),
            0 <= i <= places,
            value == digits_upto(digits@, i as nat),
            value <= i128::MAX,
        decreases places - i,
    {
        let digit: u32 = if i < digits.len() as i128 {
            place(digits, i as usize)
        } else {
            0
        };
        if value == 0 && i >= digits.len() as i128 {
            proof {
                lemma_digits_grow(digits@, i as nat, places as nat);
            }
            return 0;
        }
        i = i + 1;
        let more: Option<u128> = value.checked_mul(10);
        let next: u128 = match more {
            Some(tens) => tens.saturating_add(digit as u128),
            None => u128::MAX,
        };
        if next > 0x7fff_ffff_ffff_ffff_ffff_ffff_ffff_ffff {
            proof {
                lemma_digits_grow(digits@, i as nat, places as nat);
            }
            return i128::MAX;
        }
        value = next;
    }
    value as i128
}

/// See [`scaled_of`]. Values beyond the range count as the last one in it.
pub fn parse_scaled(v: &Vec<char>) -> (res: Option<i128>)
    ensures
        res == (match scaled_of(v@) {
            Some(n) => Some(bounded(n)),
            None => None,
        }),
{
    let from: usize = if v.len() > 0 && (v[0] == '+' || v[0] == '-') {
        1
    } else {
        0
    };
    let plain = slice_of(v, from, v.len());
    assert(plain@ =~= v@.skip(from as int));
    let body = lower_case(&plain);
    let (k, power) = part_behind(&body, 'e');
    let exponent: isize = if k < body.len() {
        match parse_isize(&power) {
            Some(e) => e,
            None => {
                return None;
            },
        }
    } else {
        0
    };
    let mantissa = slice_of(&body, 0, k);
    assert(mantissa@ =~= body@.take(k as int));
    let (w, rest) = part_behind(&mantissa, '.');
    let mut digits = slice_of(&mantissa, 0, w);
    assert(digits@ =~= mantissa@.take(w as int));
    let ghost whole = digits@;
    let mut more = rest;
    let ghost tail = more@;
    digits.append(&mut more);
    assert(digits@ =~= whole + tail);
    if digits.len() == 0 || !only_digits(&digits) {
        return None;
    }
    let value = number_upto(&digits, w as i128 + exponent as i128 + 9);
    if v[0] == '-' {
        Some(-value)
    } else {
        Some(value)
    }
}

/// The distance from zero.
pub open spec fn magnitude_of(n: int) -> nat {
    if n < 0 {
        (-n) as nat
    } else {
        n as nat
    }
}

/// See [`magnitude_of`].
pub fn magnitude(n: i128) -> (res: u128)
    ensures
        res == magnitude_of(n as int),
{
    if n == i128::MIN {
        0x8000_0000_0000_0000_0000_0000_0000_0000
    } else if n < 0 {
        (-n) as u128
    } else {
        n as u128
    }
}

/// A number of billionths in whole ones, the rest dropped.
pub open spec fn unscaled(n: int) -> int {
    if n < 0 {
        -(-n / 1_000_000_000)
    } else {
        n / 1_000_000_000
    }
}

/// The digits behind the point of a fraction of `unit`, a power of ten, without trailing
/// zeros.
pub open spec fn fraction_text(rest: nat, unit: nat) -> Seq<char>
    decreases unit,
{
    if rest == 0 || unit <= 1 {
        Seq::empty()
    } else {
        decimal(rest / (unit / 10)) + fraction_text(rest % (unit / 10), unit / 10)
    }
}

/// A number of billionths as a decimal number, without trailing zeros.
pub open spec fn scaled_text(n: i128) -> Seq<char> {
    let size = magnitude_of(n as int);
    let sign = if n < 0 {
        "-"@
    } else {
        Seq::empty()
    };
    let whole = sign + decimal(size / 1_000_000_000);
    let rest = size % 1_000_000_000;
    if rest == 0 {
        whole
    } else {
        whole + "."@ + fraction_text(rest, 1_000_000_000)
    }
}

/// Whether the number is a power of ten.
spec fn is_power(n: nat) -> bool
    decreases n,
{
    n == 1 || (n > 1 && n % 10 == 0 && is_power(n / 10))
}

fn push_fraction(out: &mut String, rest: u128, unit: u128)
    requires
        rest < unit,
        is_power(unit as nat),
    ensures
        final(out)@ == old(out)@ + fraction_text(rest as nat, unit as nat),
    decreases unit,
{
    if rest == 0 || unit <= 1 {
        assert(out@ =~= out@ + Seq::<char>::empty());
        return;
    }
    let ghost before = out@;
    push_number(out, rest / (unit / 10));
    let ghost now = out@;
    push_fraction(out, rest % (unit / 10), unit / 10);
    assert(out@ =~= before + fraction_text(rest as nat, unit as nat));
}

/// Writes a number of billionths.
pub fn push_scaled(out: &mut String, n: i128)
    ensures
        final(out)@ == old(out)@ + scaled_text(n),
{
    let ghost before = out@;
    if n < 0 {
        out.append("-");
    }
    let size = magnitude(n);
    push_number(out, size / 1_000_000_000);
    let rest: u128 = size % 1_000_000_000;
    if rest != 0 {
        out.append(".");
        proof {
            reveal_with_fuel(is_power, 10);
        }
        push_fraction(out, rest, 1_000_000_000);
    }
    assert(out@ =~= before + scaled_text(n));
}

} // verus!
