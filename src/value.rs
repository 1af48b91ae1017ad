//! The values that placeholders render.
use vstd::prelude::*;
use vstd::slice::slice_subrange;
use vstd::string::StrSliceExecFns;

use crate::extractor::{digits_value, is_digit, min_nat};
use crate::text::{chars_of, concat_ranges, find_char, first_index};

verus! {

/// A decimal number `mantissa / 10^scale`, such as `42.125` as `42125`
/// and `3`.
#[derive(Debug, Clone, Copy, PartialEq, Eq)]
pub struct Decimal {
    pub mantissa: i128,
    pub scale: u32,
}

/// Largest scale a `Decimal` may have: `10^38` still fits an `i128`.
pub const MAX_SCALE: u32 = 38;

pub open spec fn pow10(k: nat) -> nat
    decreases k,
{
    if k == 0 {
        1
    } else {
        10 * pow10((k - 1) as nat)
    }
}

impl Decimal {
    /// The mantissa's negation fits, and the scale's power of ten does.
    pub open spec fn wf(&self) -> bool {
        self.mantissa > i128::MIN && self.scale <= MAX_SCALE
    }

    pub open spec fn magnitude(&self) -> nat {
        if self.mantissa < 0 {
            (-self.mantissa) as nat
        } else {
            self.mantissa as nat
        }
    }

    /// The integer part, truncated toward zero.
    pub open spec fn whole(&self) -> int {
        let w = (self.magnitude() / pow10(self.scale as nat)) as int;
        if self.mantissa < 0 {
            -w
        } else {
            w
        }
    }

    /// The digits after the point, as a number below `10^scale`.
    pub open spec fn fraction_magnitude(&self) -> nat {
        self.magnitude() % pow10(self.scale as nat)
    }
}

/// A value of any kind, as the printer reads it.
#[derive(Debug, Clone, PartialEq, Eq)]
pub enum Value {
    String(String),
    Numeric(Decimal),
    /// Any other kind of value, by its natural text.
    Other(String),
}

pub enum ValueView {
    String(Seq<char>),
    Numeric(Decimal),
    Other(Seq<char>),
}

impl View for Value {
    type V = ValueView;

    open spec fn view(&self) -> ValueView {
        match self {
            Value::String(s) => ValueView::String(s@),
            Value::Numeric(d) => ValueView::Numeric(*d),
            Value::Other(s) => ValueView::Other(s@),
        }
    }
}

pub open spec fn option_view(v: Option<Value>) -> Option<ValueView> {
    match v {
        Some(x) => Some(x@),
        None => None,
    }
}

/// Looks values up by variable name.
pub trait Resolver {
    /// Whether `value` is an answer this resolver may give for `name`. An
    /// implementation that does not say more may give any answer.
    open spec fn answers(&self, name: Seq<char>, value: Option<ValueView>) -> bool {
        true
    }

    fn resolve(&self, name: &str) -> (r: Option<Value>)
        ensures
            self.answers(name@, option_view(r)),
    ;
}

pub open spec fn all_digits(s: Seq<char>) -> bool {
    forall|i: int| 0 <= i < s.len() ==> is_digit(#[trigger] s[i])
}

/// The decimal that a text such as `-42.125` spells: an optional `-`, at
/// least one digit, and optionally a `.` followed by at least one digit; at
/// most 38 digits after the point, and a mantissa that fits an `i128`.
pub open spec fn decimal_of_text(s: Seq<char>) -> Option<Decimal> {
    let negative = s.len() > 0 && s[0] == '-';
    let body = if negative {
        s.drop_first()
    } else {
        s
    };
    let (int_part, frac_part, dotted) = match first_index(body, '.') {
        None => (body, Seq::<char>::empty(), false),
        Some(i) => (body.take(i), body.skip(i + 1), true),
    };
    let m = digits_value(int_part + frac_part);
    if int_part.len() > 0 && all_digits(int_part) && all_digits(frac_part) && (dotted
        ==> frac_part.len() > 0) && frac_part.len() <= MAX_SCALE && m <= i128::MAX {
        Some(
            Decimal {
                mantissa: (if negative {
                    -m
                } else {
                    m as int
                }) as i128,
                scale: frac_part.len() as u32,
            },
        )
    } else {
        None
    }
}

/// Largest magnitude a mantissa may have, plus one: where reading is capped.
const MANTISSA_CAP: u128 = 0x8000_0000_0000_0000_0000_0000_0000_0000;

proof fn lemma_mantissa_cap_step(v: nat, d: nat)
    requires
        d < 10,
    ensures
        min_nat(min_nat(v, MANTISSA_CAP as nat) * 10 + d, MANTISSA_CAP as nat) == min_nat(
            v * 10 + d,
            MANTISSA_CAP as nat,
        ),
{
}

/// Reads a run of decimal digits, as long as its value fits an `i128`.
fn read_mantissa(s: &Vec<char>) -> (r: Option<u128>)
    ensures
        all_digits(s@) && digits_value(s@) <= i128::MAX ==> r == Some(digits_value(s@) as u128),
        !(all_digits(s@) && digits_value(s@) <= i128::MAX) ==> r is None,
{
    let mut acc: u128 = 0;
    let mut i: usize = 0;
    while i < s.len()
        invariant
            i <= s.len(),
            acc as nat == min_nat(digits_value(s@.take(i as int)), MANTISSA_CAP as nat),
            forall|k: int| 0 <= k < i ==> is_digit(#[trigger] s@[k]),
        decreases s.len() - i,
    {
        let c = s[i];
        if !('0' <= c && c <= '9') {
            assert(!is_digit(s@[i as int]));
            return None;
        }
        let ghost prev = s@.take(i as int);
        assert(s@.take(i + 1).drop_last() == prev);
        proof {
            lemma_mantissa_cap_step(digits_value(prev), (c as nat - '0' as nat) as nat);
        }
        if acc > MANTISSA_CAP / 10 {
            acc = MANTISSA_CAP;
        } else {
            let next: u128 = acc * 10 + (c as u32 - '0' as u32) as u128;
            acc = if next < MANTISSA_CAP {
                next
            } else {
                MANTISSA_CAP
            };
        }
        i = i + 1;
    }
    assert(s@.take(i as int) == s@);
    if acc < MANTISSA_CAP {
        Some(acc)
    } else {
        None
    }
}

impl Decimal {
    pub fn new(mantissa: i128, scale: u32) -> (r: Decimal)
        ensures
            r.mantissa == mantissa,
            r.scale == scale,
    {
        Decimal { mantissa, scale }
    }

    /// Reads a decimal written as `-42.125`, the way a number's natural text
    /// writes it.
    pub fn parse(text: &str) -> (r: Option<Decimal>)
        ensures
            r == decimal_of_text(text@),
            r matches Some(d) ==> d.wf(),
    {
        let chars = chars_of(text);
        let negative = chars.len() > 0 && chars[0] == '-';
        let start: usize = if negative {
            1
        } else {
            0
        };
        let body = slice_subrange(chars.as_slice(), start, chars.len());
        assert(body@ == (if negative {
            text@.drop_first()
        } else {
            text@
        }));
        assert(body@.skip(0) == body@);
        let found = find_char(body, 0, '.');
        let (int_end, frac_start, dotted): (usize, usize, bool) = match found {
            None => (body.len(), body.len(), false),
            Some(k) => {
                assert(k < body.len());
                (k, k + 1, true)
            },
        };
        let ghost int_part = body@.subrange(0, int_end as int);
        let ghost frac_part = body@.subrange(frac_start as int, body@.len() as int);
        proof {
            if !dotted {
                assert(int_part =~= body@);
                assert(frac_part =~= Seq::<char>::empty());
            } else {
                assert(int_part =~= body@.take(int_end as int));
                assert(frac_part =~= body@.skip(int_end + 1));
            }
        }
        let frac_len = body.len() - frac_start;
        if int_end == 0 || (dotted && frac_len == 0) || frac_len > MAX_SCALE as usize {
            return None;
        }
        let digits = concat_ranges(body, 0, int_end, frac_start, body.len());
        assert(digits@ =~= int_part + frac_part);
        assert(all_digits(int_part + frac_part) == (all_digits(int_part) && all_digits(frac_part))) by {
            let c = int_part + frac_part;
            if all_digits(c) {
                assert forall|i: int| 0 <= i < int_part.len() implies is_digit(#[trigger] int_part[i]) by {
                    assert(c[i] == int_part[i]);
                }
                assert forall|i: int| 0 <= i < frac_part.len() implies is_digit(#[trigger] frac_part[i]) by {
                    assert(c[int_part.len() + i] == frac_part[i]);
                }
            }
        }
        match read_mantissa(&digits) {
            None => None,
            Some(m) => {
                let mantissa: i128 = if negative {
                    -(m as i128)
                } else {
                    m as i128
                };
                Some(Decimal { mantissa, scale: frac_len as u32 })
            },
        }
    }
}

} // verus!
