//! Detects which written languages a set of Unicode codepoints can render.
//!
//! A compiled table of per-language codepoint ranges (built by [`table::compile`])
//! is scored against an input list of codepoint ranges by [`engine::detect`].
//! Scores are exact rationals: a language's score is `matched_count / total`,
//! and thresholds are supplied as integer fractions, so every comparison the
//! engine makes is verified integer arithmetic.

pub mod engine;
pub mod laws;
pub mod range;
pub mod table;

pub use engine::detect;
pub use engine::Match;
pub use engine::Threshold;
pub use range::CodepointRange;
pub use table::compile;
pub use table::parse_token;
pub use table::CompileError;
pub use table::LanguageEntry;
pub use table::LanguageSpec;
