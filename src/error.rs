//! The ways parsing or rendering a template can fail.
use vstd::prelude::*;

verus! {

#[derive(Debug, Clone, PartialEq, Eq)]
pub enum Error {
    /// The template's closing quote is missing.
    MalformedTemplate,
    /// A placeholder ends in a character that names no placeholder type.
    UnknownPlaceholderType(char),
    /// A `%` at the very end of the template, with nothing after it.
    IncompletePlaceholder,
    /// The number of variables differs from the number of placeholders.
    PlaceholderArityMismatch { variables: usize, placeholders: usize },
    /// A value of the wrong kind for its placeholder.
    TypeMismatch,
    /// The resolver knows no value for this variable.
    UnresolvedVariable(String),
    /// A placeholder has no variable left to consume.
    MissingVariableBinding,
    /// A specifier that does not start with `%`.
    NotAPlaceholder,
    /// A numeric value whose mantissa or scale is out of range.
    MalformedNumber,
    /// A fraction asks for more digits than a 128-bit integer can hold.
    PrecisionOutOfRange(u16),
}

} // verus!
