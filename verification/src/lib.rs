//! Verified core of a local file-search assistant: query parsing, whole-word
//! matching, year extraction, scoring and ranking of file-system entries.

pub mod matching;
pub mod text;
pub mod query;
pub mod ranking;
pub mod order;
pub mod ollama;
pub mod search;
