use vstd::prelude::*;

verus! {

/// Width and zero-fill settings of a numeric field.
#[derive(Debug, Clone, Copy, PartialEq, Eq)]
pub struct NumberFormat {
    pub fill_zeros: bool,
    pub digits: Option<u16>,
}

/// Settings of a fixed-point field: its integer part and its fractional part.
#[derive(Debug, Clone, Copy, PartialEq, Eq)]
pub struct FloatFormat {
    pub base: NumberFormat,
    pub fraction: NumberFormat,
}

/// Settings of a hexadecimal field.
#[derive(Debug, Clone, Copy, PartialEq, Eq)]
pub struct HexFormat {
    pub uppercase: bool,
    pub nf: NumberFormat,
}

/// The format with no width and no zero fill.
pub open spec fn default_number_format() -> NumberFormat {
    NumberFormat { fill_zeros: false, digits: None }
}

pub open spec fn default_float_format() -> FloatFormat {
    FloatFormat { base: default_number_format(), fraction: default_number_format() }
}

pub open spec fn default_hex_format() -> HexFormat {
    HexFormat { uppercase: false, nf: default_number_format() }
}

impl Default for NumberFormat {
    fn default() -> (r: Self)
        ensures
            r == default_number_format(),
    {
        NumberFormat { fill_zeros: false, digits: None }
    }
}

impl Default for FloatFormat {
    fn default() -> (r: Self)
        ensures
            r == default_float_format(),
    {
        FloatFormat { base: NumberFormat::default(), fraction: NumberFormat::default() }
    }
}

impl Default for HexFormat {
    fn default() -> (r: Self)
        ensures
            r == default_hex_format(),
    {
        HexFormat { uppercase: false, nf: NumberFormat::default() }
    }
}

} // verus!
