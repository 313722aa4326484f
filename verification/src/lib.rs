//! Pattern compiler and key generator.
//!
//! A pattern in a small regular-expression grammar is parsed into a tree, and
//! strings matching it are produced either by sampling or by decoding a counter.

pub mod charclass;
pub mod distribution;
pub mod enumerate;
pub mod error;
pub mod generate;
pub mod language;
pub mod list;
pub mod parser;
pub mod quantifier;
pub mod radix;
pub mod regex;
pub mod repetitions;
pub mod sampler;
pub mod scalar;
pub mod text;

pub use charclass::parse_list;
pub use distribution::Distribution;
pub use enumerate::{generate_inc, generate_inc_with};
pub use error::{GenerationError, SyntaxError, SyntaxErrorKind};
pub use generate::generate;
pub use list::List;
pub use parser::{parse_group, parse_regex};
pub use quantifier::Quantifier;
pub use regex::{Regex, RegexSymbol};
pub use repetitions::parse_repetitions;
pub use sampler::{Sampler, ThreadSampler, UniformSampler};
