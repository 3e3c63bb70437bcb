//! Line-oriented substring search: a Knuth-Morris-Pratt matcher that reports
//! every occurrence of a pattern in a text, and a line scanner built on it
//! that returns the lines of a document containing a query, case-sensitively
//! or case-insensitively.

pub mod config;
pub mod matcher;
pub mod scanner;
pub mod text;

pub use config::Config;
pub use matcher::knuth_morris_pratt;
pub use scanner::search;
pub use scanner::search_case_insensitive;
