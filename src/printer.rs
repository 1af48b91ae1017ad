//! Rendering values by their placeholders, and whole templates.
use vstd::prelude::*;
use vstd::string::StringExecFns;

use crate::error::Error;
use crate::parser::{
    entries_view, placeholder_count, Entry, EntryView, ParsedFormatString, Placeholder,
};
use crate::text::string_from_chars;
use crate::types::{FloatFormat, HexFormat, NumberFormat};
use crate::value::{option_view, pow10, Decimal, Resolver, Value, ValueView, MAX_SCALE};

verus! {

/// Fractional digits of a fixed-point field whose format names none.
pub const DEFAULT_FRACT_DIGITS: u16 = 2;

/// Where zero fill goes: before the digits of an integer, after those of a
/// fraction.
#[derive(Debug, Clone, Copy, PartialEq, Eq)]
pub enum FillStyle {
    Prepend,
    Append,
}

pub open spec fn digit_char(d: nat, upper: bool) -> char {
    if d < 10 {
        (('0' as nat) + d) as char
    } else if upper {
        (('A' as nat) + d - 10) as char
    } else {
        (('a' as nat) + d - 10) as char
    }
}

/// The digits of `n` in base `base`, most significant first, without
/// leading zeros (`0` is one digit).
pub open spec fn digits_text(n: nat, base: nat, upper: bool) -> Seq<char>
    recommends
        base >= 2,
    decreases n,
    via digits_text_decreases
{
    if n < base || base < 2 {
        seq![digit_char(n, upper)]
    } else {
        digits_text(n / base, base, upper).push(digit_char(n % base, upper))
    }
}

#[via_fn]
proof fn digits_text_decreases(n: nat, base: nat, upper: bool) {
    if !(n < base || base < 2) {
        assert(n / base < n) by (nonlinear_arith)
            requires
                n >= base,
                base >= 2,
        ;
    }
}

/// `v` in decimal, with a `-` before a negative value.
pub open spec fn decimal_text(v: int) -> Seq<char> {
    if v < 0 {
        seq!['-'] + digits_text((-v) as nat, 10, false)
    } else {
        digits_text(v as nat, 10, false)
    }
}

/// The bits of `v` read as an unsigned 128-bit number: two's complement
/// for a negative value.
pub open spec fn unsigned_bits(v: int) -> nat {
    if v < 0 {
        (v + 0x1_0000_0000_0000_0000_0000_0000_0000_0000) as nat
    } else {
        v as nat
    }
}

pub open spec fn zeros(k: nat) -> Seq<char> {
    Seq::new(k, |i: int| '0')
}

/// `s` filled with `'0'` up to `width` characters, before or after it; never
/// shortened.
pub open spec fn fill(s: Seq<char>, width: nat, style: FillStyle) -> Seq<char> {
    if s.len() >= width {
        s
    } else {
        match style {
            FillStyle::Prepend => zeros((width - s.len()) as nat) + s,
            FillStyle::Append => s + zeros((width - s.len()) as nat),
        }
    }
}

/// `s` filled as the format asks: only with both a width and zero fill.
pub open spec fn padded(s: Seq<char>, format: NumberFormat, style: FillStyle) -> Seq<char> {
    match format.digits {
        Some(d) if format.fill_zeros => fill(s, d as nat, style),
        _ => s,
    }
}

pub open spec fn number_text(format: NumberFormat, v: int, style: FillStyle) -> Seq<char> {
    padded(decimal_text(v), format, style)
}

pub open spec fn hex_text(format: HexFormat, v: int) -> Seq<char> {
    padded(digits_text(unsigned_bits(v), 16, format.uppercase), format.nf, FillStyle::Prepend)
}

fn digit_of(d: u128, upper: bool) -> (c: char)
    requires
        d < 16,
    ensures
        c == digit_char(d as nat, upper),
{
    if d < 10 {
        (('0' as u8) + d as u8) as char
    } else if upper {
        (('A' as u8) + (d as u8 - 10)) as char
    } else {
        (('a' as u8) + (d as u8 - 10)) as char
    }
}

fn digits_of(n: u128, base: u128, upper: bool) -> (r: Vec<char>)
    requires
        2 <= base <= 16,
    ensures
        r@ == digits_text(n as nat, base as nat, upper),
{
    let mut r: Vec<char> = Vec::new();
    let mut q: u128 = n;
    while q >= base
        invariant
            2 <= base <= 16,
            digits_text(n as nat, base as nat, upper) == digits_text(q as nat, base as nat, upper)
                + r@,
        decreases q,
    {
        let c = digit_of(q % base, upper);
        let ghost old_r = r@;
        r.insert(0, c);
        assert(r@ =~= seq![c] + old_r);
        assert(digits_text(q as nat, base as nat, upper) == digits_text(
            (q / base) as nat,
            base as nat,
            upper,
        ).push(c));
        assert(digits_text((q / base) as nat, base as nat, upper).push(c) + old_r =~= digits_text(
            (q / base) as nat,
            base as nat,
            upper,
        ) + r@);
        q = q / base;
    }
    let c = digit_of(q, upper);
    let ghost old_r = r@;
    r.insert(0, c);
    assert(r@ =~= seq![c] + old_r);
    r
}

/// `s` filled with zeros up to `width` characters.
fn fill_zeros(s: Vec<char>, width: u16, style: FillStyle) -> (r: Vec<char>)
    ensures
        r@ == fill(s@, width as nat, style),
{
    if s.len() >= width as usize {
        return s;
    }
    let k: usize = width as usize - s.len();
    let mut z: Vec<char> = Vec::new();
    let mut i: usize = 0;
    while i < k
        invariant
            i <= k,
            z@ == zeros(i as nat),
        decreases k - i,
    {
        z.push('0');
        assert(z@ =~= zeros((i + 1) as nat));
        i = i + 1;
    }
    let mut r: Vec<char>;
    let mut tail: Vec<char>;
    match style {
        FillStyle::Prepend => {
            r = z;
            tail = s;
        },
        FillStyle::Append => {
            r = s;
            tail = z;
        },
    }
    r.append(&mut tail);
    r
}

fn padded_chars(s: Vec<char>, format: &NumberFormat, style: FillStyle) -> (r: Vec<char>)
    ensures
        r@ == padded(s@, *format, style),
{
    match format.digits {
        Some(d) => if format.fill_zeros {
            fill_zeros(s, d, style)
        } else {
            s
        },
        None => s,
    }
}

fn decimal_chars(value: i128) -> (r: Vec<char>)
    ensures
        r@ == decimal_text(value as int),
{
    if value < 0 {
        let magnitude: u128 = if value == i128::MIN {
            0x8000_0000_0000_0000_0000_0000_0000_0000u128
        } else {
            (-value) as u128
        };
        let mut r: Vec<char> = Vec::new();
        r.push('-');
        let mut digits = digits_of(magnitude, 10, false);
        r.append(&mut digits);
        r
    } else {
        digits_of(value as u128, 10, false)
    }
}

/// `value` in decimal, filled with zeros as `format` asks, before the digits
/// or after them.
pub fn print_number(format: &NumberFormat, value: i128, fill_style: FillStyle) -> (r: String)
    ensures
        r@ == number_text(*format, value as int, fill_style),
{
    let s = padded_chars(decimal_chars(value), format, fill_style);
    string_from_chars(s.as_slice())
}

/// `value` in hexadecimal (two's complement when negative), in the case
/// `format` names, with zeros before it as `format` asks.
pub fn print_hex(format: &HexFormat, value: i128) -> (r: String)
    ensures
        r@ == hex_text(*format, value as int),
{
    let bits: u128 = if value < 0 {
        (value + 1 + 0x7fff_ffff_ffff_ffff_ffff_ffff_ffff_ffffi128) as u128
            + 0x8000_0000_0000_0000_0000_0000_0000_0000u128
    } else {
        value as u128
    };
    let s = padded_chars(digits_of(bits, 16, format.uppercase), &format.nf, FillStyle::Prepend);
    string_from_chars(s.as_slice())
}

pub proof fn lemma_pow10_positive(k: nat)
    ensures
        pow10(k) >= 1,
    decreases k,
{
    if k > 0 {
        lemma_pow10_positive((k - 1) as nat);
    }
}

pub proof fn lemma_pow10_add(a: nat, b: nat)
    ensures
        pow10(a + b) == pow10(a) * pow10(b),
    decreases b,
{
    if b > 0 {
        lemma_pow10_add(a, (b - 1) as nat);
        let x = pow10(a);
        let y = pow10((b - 1) as nat);
        assert(pow10((a + b - 1) as nat) == x * y);
        assert(pow10(a + b) == 10 * pow10((a + b - 1) as nat));
        assert(pow10(b) == 10 * y);
        assert(10 * (x * y) == x * (10 * y)) by (nonlinear_arith);
        assert(pow10(a) * pow10(b) == x * (10 * y));
    } else {
        assert(a + b == a);
        assert(pow10(0) == 1);
        assert(pow10(a) * 1 == pow10(a));
    }
}

proof fn lemma_pow10_monotone(a: nat, b: nat)
    requires
        a <= b,
    ensures
        pow10(a) <= pow10(b),
    decreases b - a,
{
    if a < b {
        lemma_pow10_monotone(a, (b - 1) as nat);
        lemma_pow10_positive((b - 1) as nat);
    }
}

proof fn lemma_pow10_38()
    ensures
        pow10(38) == 100_000_000_000_000_000_000_000_000_000_000_000_000,
{
    reveal_with_fuel(pow10, 39);
}

proof fn lemma_pow10_bound(k: nat)
    requires
        k <= 38,
    ensures
        pow10(k) <= 100_000_000_000_000_000_000_000_000_000_000_000_000,
{
    lemma_pow10_38();
    lemma_pow10_monotone(k, 38);
}

fn pow10_of(k: u32) -> (r: u128)
    requires
        k <= 38,
    ensures
        r == pow10(k as nat),
{
    let mut r: u128 = 1;
    let mut i: u32 = 0;
    while i < k
        invariant
            i <= k <= 38,
            r == pow10(i as nat),
        decreases k - i,
    {
        proof {
            lemma_pow10_bound((i + 1) as nat);
        }
        r = r * 10;
        i = i + 1;
    }
    r
}

/// Fractional digits that a fixed-point format renders.
pub open spec fn fraction_digits(format: FloatFormat) -> u16 {
    match format.fraction.digits {
        Some(d) => d,
        None => DEFAULT_FRACT_DIGITS,
    }
}

/// The fraction `frac / 10^scale` as a number of `digits` decimal places,
/// rounded half away from zero.
pub open spec fn rounded_fraction(frac: nat, scale: nat, digits: nat) -> nat {
    if digits >= scale {
        frac * pow10((digits - scale) as nat)
    } else {
        let p = pow10((scale - digits) as nat);
        if 2 * (frac % p) >= p {
            frac / p + 1
        } else {
            frac / p
        }
    }
}

/// A number in fixed point: the integer part, a `.`, then the rounded
/// fraction's digits (with the value's sign), each part padded as its own
/// format asks.
pub open spec fn float_text(format: FloatFormat, value: Decimal) -> Seq<char> {
    let n = rounded_fraction(
        value.fraction_magnitude(),
        value.scale as nat,
        fraction_digits(format) as nat,
    );
    let fraction: int = if value.mantissa < 0 {
        -n
    } else {
        n as int
    };
    number_text(format.base, value.whole(), FillStyle::Prepend) + seq!['.'] + number_text(
        format.fraction,
        fraction,
        FillStyle::Append,
    )
}

/// `s` without its trailing `'0'`s.
pub open spec fn strip_trailing_zeros(s: Seq<char>) -> Seq<char>
    decreases s.len(),
{
    if s.len() > 0 && s.last() == '0' {
        strip_trailing_zeros(s.drop_last())
    } else {
        s
    }
}

/// The fractional digits of a decimal, without trailing zeros.
pub open spec fn significant_fraction(value: Decimal) -> Seq<char> {
    strip_trailing_zeros(
        fill(digits_text(value.fraction_magnitude(), 10, false), value.scale as nat, FillStyle::Prepend),
    )
}

/// The natural text of a decimal, as a number's default text gives it: sign,
/// integer digits, and when the fraction is not zero a `.` and its digits
/// without trailing zeros (`42.50` reads `42.5`, `42.00` reads `42`).
pub open spec fn decimal_display(value: Decimal) -> Seq<char> {
    let sign = if value.mantissa < 0 {
        seq!['-']
    } else {
        seq![]
    };
    let int_part = digits_text(value.magnitude() / pow10(value.scale as nat), 10, false);
    let f = significant_fraction(value);
    if f.len() == 0 {
        sign + int_part
    } else {
        sign + int_part + seq!['.'] + f
    }
}

/// What a placeholder renders for a value, or why it cannot.
pub open spec fn value_text(format: Placeholder, value: ValueView) -> Result<Seq<char>, Error> {
    if value matches ValueView::Numeric(d) && !d.wf() {
        Err(Error::MalformedNumber)
    } else {
        value_text_wf(format, value)
    }
}

/// What a placeholder renders for a value whose number, if any, is well
/// formed.
pub open spec fn value_text_wf(format: Placeholder, value: ValueView) -> Result<Seq<char>, Error> {
    match format {
        Placeholder::Display => Ok(
            match value {
                ValueView::String(s) => s,
                ValueView::Numeric(d) => decimal_display(d),
                ValueView::Other(s) => s,
            },
        ),
        Placeholder::String => match value {
            ValueView::String(s) => Ok(s),
            _ => Err(Error::TypeMismatch),
        },
        Placeholder::Number(nf) => match value {
            ValueView::Numeric(d) => Ok(number_text(nf, d.whole(), FillStyle::Prepend)),
            _ => Err(Error::TypeMismatch),
        },
        Placeholder::Hex(hf) => match value {
            ValueView::Numeric(d) => Ok(hex_text(hf, d.whole())),
            _ => Err(Error::TypeMismatch),
        },
        Placeholder::Float(ff) => match value {
            ValueView::Numeric(d) => if fraction_digits(ff) > MAX_SCALE {
                Err(Error::PrecisionOutOfRange(fraction_digits(ff)))
            } else {
                Ok(float_text(ff, d))
            },
            _ => Err(Error::TypeMismatch),
        },
    }
}

pub open spec fn result_view(r: Result<String, Error>) -> Result<Seq<char>, Error> {
    match r {
        Ok(s) => Ok(s@),
        Err(e) => Err(e),
    }
}

/// Magnitude, integer part and fractional digits of a decimal.
fn split_decimal(value: &Decimal) -> (r: (u128, u128, u128))
    requires
        value.wf(),
    ensures
        r.0 == value.magnitude(),
        r.1 == value.magnitude() / pow10(value.scale as nat),
        r.2 == value.fraction_magnitude(),
        r.1 <= i128::MAX,
        r.2 < pow10(value.scale as nat),
        pow10(value.scale as nat) <= 100_000_000_000_000_000_000_000_000_000_000_000_000,
{
    let magnitude: u128 = if value.mantissa < 0 {
        (-value.mantissa) as u128
    } else {
        value.mantissa as u128
    };
    let p = pow10_of(value.scale);
    proof {
        lemma_pow10_positive(value.scale as nat);
        lemma_pow10_bound(value.scale as nat);
    }
    (magnitude, magnitude / p, magnitude % p)
}

fn signed(negative: bool, magnitude: u128) -> (r: i128)
    requires
        magnitude <= i128::MAX,
    ensures
        r == (if negative {
            -magnitude
        } else {
            magnitude as int
        }),
{
    if negative {
        -(magnitude as i128)
    } else {
        magnitude as i128
    }
}

fn print_float(format: &FloatFormat, value: &Decimal) -> (r: Result<String, Error>)
    requires
        value.wf(),
    ensures
        fraction_digits(*format) > MAX_SCALE ==> r == Err::<String, Error>(
            Error::PrecisionOutOfRange(fraction_digits(*format)),
        ),
        fraction_digits(*format) <= MAX_SCALE ==> (r matches Ok(s) && s@ == float_text(
            *format,
            *value,
        )),
{
    let digits: u16 = match format.fraction.digits {
        Some(d) => d,
        None => DEFAULT_FRACT_DIGITS,
    };
    if digits as u32 > MAX_SCALE {
        return Err(Error::PrecisionOutOfRange(digits));
    }
    let (_, whole, frac) = split_decimal(value);
    let negative = value.mantissa < 0;
    let scale = value.scale;
    let n: u128 = if digits as u32 >= scale {
        let p = pow10_of(digits as u32 - scale);
        proof {
            lemma_pow10_add(scale as nat, (digits - scale) as nat);
            lemma_pow10_bound(digits as nat);
            lemma_pow10_positive((digits - scale) as nat);
            assert(frac * pow10((digits - scale) as nat) < pow10(scale as nat) * pow10(
                (digits - scale) as nat,
            )) by (nonlinear_arith)
                requires
                    frac < pow10(scale as nat),
                    pow10((digits - scale) as nat) >= 1,
            ;
        }
        frac * p
    } else {
        let p = pow10_of(scale - digits as u32);
        proof {
            lemma_pow10_positive((scale - digits) as nat);
            lemma_pow10_bound((scale - digits) as nat);
        }
        if 2 * (frac % p) >= p {
            frac / p + 1
        } else {
            frac / p
        }
    };
    assert(n <= 100_000_000_000_000_000_000_000_000_000_000_000_000);
    let base = print_number(&format.base, signed(negative, whole), FillStyle::Prepend);
    let fraction = print_number(&format.fraction, signed(negative, n), FillStyle::Append);
    let mut out = base;
    out.append(".");
    out.append(fraction.as_str());
    proof {
        reveal_strlit(".");
    }
    assert(out@ =~= float_text(*format, *value));
    Ok(out)
}

impl Decimal {
    /// The natural text of the number, such as `42.125` or `-3`.
    pub fn to_text(&self) -> (r: String)
        requires
            self.wf(),
        ensures
            r@ == decimal_display(*self),
    {
        let (_, whole, frac) = split_decimal(self);
        let mut out: Vec<char> = Vec::new();
        if self.mantissa < 0 {
            out.push('-');
        }
        let mut int_part = digits_of(whole, 10, false);
        out.append(&mut int_part);
        let mut frac_part = fill_zeros(digits_of(frac, 10, false), self.scale as u16, FillStyle::Prepend);
        while frac_part.len() > 0 && frac_part[frac_part.len() - 1] == '0'
            invariant
                strip_trailing_zeros(frac_part@) == significant_fraction(*self),
            decreases frac_part.len(),
        {
            let ghost before = frac_part@;
            frac_part.pop();
            assert(frac_part@ =~= before.drop_last());
        }
        if frac_part.len() > 0 {
            out.push('.');
            out.append(&mut frac_part);
        }
        assert(out@ =~= decimal_display(*self));
        string_from_chars(out.as_slice())
    }
}

/// Renders one value by its placeholder.
pub fn print_value(format: &Placeholder, value: &Value) -> (r: Result<String, Error>)
    ensures
        result_view(r) == value_text(*format, value@),
{
    if let Value::Numeric(d) = value {
        if !(d.mantissa > i128::MIN && d.scale <= MAX_SCALE) {
            return Err(Error::MalformedNumber);
        }
    }
    match format {
        Placeholder::Display => match value {
            Value::String(s) => Ok(s.clone()),
            Value::Numeric(d) => Ok(d.to_text()),
            Value::Other(s) => Ok(s.clone()),
        },
        Placeholder::String => match value {
            Value::String(s) => Ok(s.clone()),
            _ => Err(Error::TypeMismatch),
        },
        Placeholder::Number(nf) => match value {
            Value::Numeric(d) => Ok(print_number(nf, whole_of(d), FillStyle::Prepend)),
            _ => Err(Error::TypeMismatch),
        },
        Placeholder::Hex(hf) => match value {
            Value::Numeric(d) => Ok(print_hex(hf, whole_of(d))),
            _ => Err(Error::TypeMismatch),
        },
        Placeholder::Float(ff) => match value {
            Value::Numeric(d) => print_float(ff, d),
            _ => Err(Error::TypeMismatch),
        },
    }
}

fn whole_of(value: &Decimal) -> (r: i128)
    requires
        value.wf(),
    ensures
        r == value.whole(),
{
    let (_, whole, _) = split_decimal(value);
    signed(value.mantissa < 0, whole)
}

/// What a template renders to, given its entries, its variable names and
/// what each name resolved to: the entries in order, each placeholder taking
/// the next variable. Fails at the first placeholder that cannot be rendered.
pub open spec fn rendered(
    entries: Seq<EntryView>,
    names: Seq<String>,
    values: Seq<Option<ValueView>>,
) -> Result<Seq<char>, Error>
    decreases entries.len(),
{
    if entries.len() == 0 {
        Ok(seq![])
    } else {
        match rendered(entries.drop_last(), names, values) {
            Err(e) => Err(e),
            Ok(prefix) => match entries.last() {
                EntryView::Text(t) => Ok(prefix + t),
                EntryView::Placeholder(p) => {
                    let k = placeholder_count(entries.drop_last()) as int;
                    if k >= names.len() {
                        Err(Error::MissingVariableBinding)
                    } else {
                        match values[k] {
                            None => Err(Error::UnresolvedVariable(names[k])),
                            Some(v) => match value_text(p, v) {
                                Ok(t) => Ok(prefix + t),
                                Err(e) => Err(e),
                            },
                        }
                    }
                },
            },
        }
    }
}

pub open spec fn values_view(values: Seq<Option<Value>>) -> Seq<Option<ValueView>> {
    values.map_values(|v: Option<Value>| option_view(v))
}

/// A failure at some entry is the failure of the whole template.
proof fn lemma_render_failure_persists(
    entries: Seq<EntryView>,
    names: Seq<String>,
    values: Seq<Option<ValueView>>,
    k: int,
)
    requires
        0 <= k <= entries.len(),
        rendered(entries.take(k), names, values) is Err,
    ensures
        rendered(entries, names, values) == rendered(entries.take(k), names, values),
    decreases entries.len() - k,
{
    if k < entries.len() {
        assert(entries.take(k + 1).drop_last() == entries.take(k));
        lemma_render_failure_persists(entries, names, values, k + 1);
    } else {
        assert(entries.take(k) == entries);
    }
}

/// Renders a parsed template with the values its variables resolved to, one
/// for each variable name, in order.
pub fn render(parsed: &ParsedFormatString, values: &Vec<Option<Value>>) -> (r: Result<String, Error>)
    requires
        values@.len() == parsed.variables@.len(),
    ensures
        result_view(r) == rendered(
            entries_view(parsed.entries@),
            parsed.variables@,
            values_view(values@),
        ),
{
    let ghost es = entries_view(parsed.entries@);
    let ghost vals = values_view(values@);
    let mut out = String::new();
    let mut k: usize = 0;
    let mut i: usize = 0;
    assert(es.take(0) =~= Seq::<EntryView>::empty());
    while i < parsed.entries.len()
        invariant
            i <= parsed.entries.len(),
            es == entries_view(parsed.entries@),
            vals == values_view(values@),
            values@.len() == parsed.variables@.len(),
            k == placeholder_count(es.take(i as int)),
            k <= i,
            rendered(es.take(i as int), parsed.variables@, vals) == Ok::<Seq<char>, Error>(out@),
        decreases parsed.entries.len() - i,
    {
        assert(es.take(i + 1).drop_last() == es.take(i as int));
        assert(es.take(i + 1).last() == parsed.entries@[i as int]@);
        match &parsed.entries[i] {
            Entry::Text(t) => {
                out.append(t.as_str());
            },
            Entry::Placeholder(p) => {
                if k >= parsed.variables.len() {
                    proof {
                        lemma_render_failure_persists(es, parsed.variables@, vals, i + 1);
                    }
                    return Err(Error::MissingVariableBinding);
                }
                match &values[k] {
                    None => {
                        proof {
                            lemma_render_failure_persists(es, parsed.variables@, vals, i + 1);
                        }
                        return Err(Error::UnresolvedVariable(parsed.variables[k].clone()));
                    },
                    Some(v) => {
                        match print_value(p, v) {
                            Ok(t) => {
                                out.append(t.as_str());
                            },
                            Err(e) => {
                                proof {
                                    lemma_render_failure_persists(es, parsed.variables@, vals, i + 1);
                                }
                                return Err(e);
                            },
                        }
                    },
                }
                k = k + 1;
            },
        }
        i = i + 1;
    }
    assert(es.take(i as int) == es);
    Ok(out)
}

/// Renders a parsed template, asking `resolver` for the value of each
/// variable name, in order: the result is the template rendered with the
/// resolver's answers.
pub fn sprintf<R: Resolver>(parsed: &ParsedFormatString, resolver: &R) -> (r: Result<String, Error>)
    ensures
        exists|values: Seq<Option<Value>>|
            values.len() == parsed.variables@.len() && (forall|i: int|
                0 <= i < values.len() ==> resolver.answers(
                    #[trigger] parsed.variables@[i]@,
                    option_view(values[i]),
                )) && result_view(r) == rendered(
                entries_view(parsed.entries@),
                parsed.variables@,
                values_view(values),
            ),
{
    let values = resolve_all(parsed, resolver);
    let r = render(parsed, &values);
    assert(forall|i: int|
        0 <= i < values@.len() ==> resolver.answers(
            #[trigger] parsed.variables@[i]@,
            option_view(values@[i]),
        ));
    r
}

/// Asks `resolver` for each variable name, in order.
fn resolve_all<R: Resolver>(parsed: &ParsedFormatString, resolver: &R) -> (r: Vec<Option<Value>>)
    ensures
        r@.len() == parsed.variables@.len(),
        forall|i: int|
            0 <= i < r@.len() ==> resolver.answers(
                #[trigger] parsed.variables@[i]@,
                option_view(r@[i]),
            ),
{
    let mut values: Vec<Option<Value>> = Vec::new();
    let mut i: usize = 0;
    while i < parsed.variables.len()
        invariant
            i <= parsed.variables.len(),
            values@.len() == i,
            forall|j: int|
                0 <= j < i ==> resolver.answers(
                    #[trigger] parsed.variables@[j]@,
                    option_view(values@[j]),
                ),
        decreases parsed.variables.len() - i,
    {
        let v = resolver.resolve(parsed.variables[i].as_str());
        values.push(v);
        i = i + 1;
    }
    values
}

} // verus!
