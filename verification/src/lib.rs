//! Normalization of informally written text.
//!
//! Three rules, each a function from text to text, run one after the other:
//! repeated characters inside words are collapsed, what stands between
//! asterisks is removed, and words of mixed case are brought into one form.

pub mod asterisks;
pub mod casing;
pub mod classes;
pub mod normalizer;
pub mod repeats;
pub mod runs;
pub mod text;

pub use normalizer::TextNormalizer;
