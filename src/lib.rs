//! A small `sprintf`-like template engine: a parser that turns a quoted
//! template and its variable list into entries, and a printer that renders
//! those entries against resolved values.

pub mod error;
pub mod extractor;
pub mod laws;
pub mod parser;
pub mod printer;
mod text;
pub mod types;
pub mod value;
