//! A small line-oriented text search library: given a query string and a
//! text, it returns every line of the text that contains the query, either
//! exactly or up to lowercase folding, in the original order of the
//! lines. A companion configuration type selects between the two matchers
//! from raw argument tokens and an environment probe.

pub mod config;
pub mod matcher;

pub use config::Config;
pub use config::ConfigError;
pub use config::RunError;
pub use config::run;
pub use matcher::contains_str;
pub use matcher::search;
pub use matcher::search_case_insensitive;
pub use matcher::split_lines;
