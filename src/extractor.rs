//! Reading the width settings out of a placeholder's body.
use vstd::prelude::*;
use vstd::slice::slice_subrange;

use crate::text::{find_char, first_index};
use crate::types::{default_number_format, FloatFormat, NumberFormat};

verus! {

/// Largest value a `u16` holds, plus one: where the running value is capped.
pub const WIDTH_CAP: u32 = 65536;

pub open spec fn is_digit(c: char) -> bool {
    '0' <= c && c <= '9'
}

pub open spec fn digit_value(c: char) -> nat {
    (c as nat - '0' as nat) as nat
}

/// The number that a run of decimal digits spells.
pub open spec fn digits_value(s: Seq<char>) -> nat
    decreases s.len(),
{
    if s.len() == 0 {
        0
    } else {
        digits_value(s.drop_last()) * 10 + digit_value(s.last())
    }
}

/// The digits of an unsigned number, after an optional leading `+`.
pub open spec fn unsigned_digits(s: Seq<char>) -> Seq<char> {
    if s.len() > 0 && s[0] == '+' {
        s.drop_first()
    } else {
        s
    }
}

/// What reading the whole of `s` as a `u16` gives: an optional `+`, then at
/// least one decimal digit, with a value that fits.
pub open spec fn parse_u16(s: Seq<char>) -> Option<u16> {
    let d = unsigned_digits(s);
    if d.len() > 0 && (forall|i: int| 0 <= i < d.len() ==> is_digit(#[trigger] d[i]))
        && digits_value(d) < 65536 {
        Some(digits_value(d) as u16)
    } else {
        None
    }
}

/// The number format that a placeholder body states.
pub open spec fn number_format_of(body: Seq<char>) -> NumberFormat {
    if body.len() == 0 {
        default_number_format()
    } else {
        NumberFormat { digits: parse_u16(body), fill_zeros: body[0] == '0' }
    }
}

/// The float format that a placeholder body states: the body splits once at
/// its first `.` into the integer part's format and the fraction's format.
pub open spec fn float_format_of(body: Seq<char>) -> FloatFormat {
    match first_index(body, '.') {
        None => FloatFormat { base: number_format_of(body), fraction: default_number_format() },
        Some(i) => FloatFormat {
            base: number_format_of(body.take(i)),
            fraction: number_format_of(body.skip(i + 1)),
        },
    }
}

proof fn lemma_cap_step(v: nat, d: nat)
    requires
        d < 10,
    ensures
        min_nat(min_nat(v, 65536) * 10 + d, 65536) == min_nat(v * 10 + d, 65536),
{
}

pub open spec fn min_nat(a: nat, b: nat) -> nat {
    if a < b {
        a
    } else {
        b
    }
}

/// Reads the whole of `s` as a `u16`, as `str::parse::<u16>` does.
fn read_u16(s: &[char]) -> (r: Option<u16>)
    ensures
        r == parse_u16(s@),
{
    let start: usize = if s.len() > 0 && s[0] == '+' {
        1
    } else {
        0
    };
    let ghost d = unsigned_digits(s@);
    assert(d == s@.skip(start as int));
    if start == s.len() {
        return None;
    }
    let mut acc: u32 = 0;
    let mut i: usize = start;
    while i < s.len()
        invariant
            start <= i <= s.len(),
            d == s@.skip(start as int),
            d == unsigned_digits(s@),
            acc as nat == min_nat(digits_value(d.take(i - start)), 65536),
            forall|k: int| 0 <= k < i - start ==> is_digit(#[trigger] d[k]),
        decreases s.len() - i,
    {
        let c = s[i];
        if !('0' <= c && c <= '9') {
            assert(!is_digit(d[i - start]));
            assert(!(forall|k: int| 0 <= k < d.len() ==> is_digit(#[trigger] d[k])));
            return None;
        }
        let ghost prev = d.take(i - start);
        assert(d.take(i - start + 1).drop_last() == prev);
        proof {
            lemma_cap_step(digits_value(prev), digit_value(c));
        }
        let next: u32 = acc * 10 + (c as u32 - '0' as u32);
        acc = if next < WIDTH_CAP {
            next
        } else {
            WIDTH_CAP
        };
        i = i + 1;
    }
    assert(d.take(i - start) == d);
    if acc < WIDTH_CAP {
        Some(acc as u16)
    } else {
        None
    }
}

/// Reads the width settings out of a placeholder body such as `04`: the
/// body read as a `u16` is the width, and a leading `0` asks for zero fill.
pub fn extract_number_format(from: &[char]) -> (r: NumberFormat)
    ensures
        r == number_format_of(from@),
{
    if from.len() == 0 {
        return NumberFormat::default();
    }
    NumberFormat { digits: read_u16(from), fill_zeros: from[0] == '0' }
}

/// Reads the settings of a fixed-point placeholder out of its body such as
/// `3.02`: what stands before the first `.` sets the integer part, what
/// follows it the fraction.
pub fn extract_float_format(from: &[char]) -> (r: FloatFormat)
    ensures
        r == float_format_of(from@),
{
    assert(from@.skip(0) == from@);
    let found = find_char(from, 0, '.');
    if let Some(i) = found {
        assert(i < from.len());
        let base = extract_number_format(slice_subrange(from, 0, i));
        let fraction = extract_number_format(slice_subrange(from, i + 1, from.len()));
        assert(from@.subrange(0, i as int) == from@.take(i as int));
        assert(from@.subrange(i + 1, from.len() as int) == from@.skip(i + 1));
        return FloatFormat { base, fraction };
    }
    FloatFormat { base: extract_number_format(from), fraction: NumberFormat::default() }
}

} // verus!
