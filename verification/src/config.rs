//! The configuration of one search run: resolving the query, the target
//! file name and the case-sensitivity flag from raw argument tokens and an
//! environment probe, and dispatching to the matcher the configuration calls
//! for.

use crate::matcher::{lines_of, search, search_case_insensitive, search_ci_spec, search_spec};
use vstd::prelude::*;
use vstd::string::StringExecFns;

verus! {

/// Why a configuration could not be resolved from the argument tokens.
#[derive(Clone, Copy, Debug, PartialEq, Eq)]
pub enum ConfigError {
    /// The token after the program name, the query, was absent.
    MissingQuery,
    /// The token after the query, the file name, was absent.
    MissingFilename,
}

impl ConfigError {
    /// The diagnostic text of this error.
    pub fn message(&self) -> (r: String)
        ensures
            *self == ConfigError::MissingQuery ==> r@ == "Didn't get a query string"@,
            *self == ConfigError::MissingFilename ==> r@ == "Didn't get a file name"@,
    {
        match self {
            ConfigError::MissingQuery => String::from_str("Didn't get a query string"),
            ConfigError::MissingFilename => String::from_str("Didn't get a file name"),
        }
    }
}

/// Why a run failed after its configuration was resolved.
#[derive(Clone, Copy, Debug, PartialEq, Eq)]
pub enum RunError {
    /// The target file could not be read.
    Io,
}

impl RunError {
    /// The diagnostic text of this error.
    pub fn message(&self) -> (r: String)
        ensures
            r@ == "could not read the file"@,
    {
        String::from_str("could not read the file")
    }
}

/// The resolved inputs of one search run: what to search for, which file to
/// read, and whether matching is case-sensitive. Built once and never
/// mutated.
pub struct Config {
    /// The substring being searched for.
    pub query: String,
    /// The name of the file whose contents are searched.
    pub filename: String,
    /// False when the `CASE_INSENSITIVE` environment probe found the
    /// variable set, true otherwise.
    pub case_sensitive: bool,
}

impl Config {
    /// Resolves a configuration from raw argument tokens and the result of
    /// the environment probe for `CASE_INSENSITIVE` (`case_insensitive_set`
    /// is true when the variable is set, to any value). The first token, the
    /// program name, is discarded unread; the second becomes the query and
    /// the third the file name; any further tokens are ignored.
    pub fn new(args: Vec<String>, case_insensitive_set: bool) -> (r: Result<Config, ConfigError>)
        ensures
            args@.len() < 2 ==> r == Err::<Config, ConfigError>(ConfigError::MissingQuery),
            args@.len() == 2 ==> r == Err::<Config, ConfigError>(ConfigError::MissingFilename),
            args@.len() >= 3 ==> {
                &&& r is Ok
                &&& r->Ok_0.query == args@[1]
                &&& r->Ok_0.filename == args@[2]
                &&& r->Ok_0.case_sensitive == !case_insensitive_set
            },
    {
        if args.len() < 2 {
            return Err(ConfigError::MissingQuery);
        }
        if args.len() == 2 {
            return Err(ConfigError::MissingFilename);
        }
        let query = args[1].clone();
        let filename = args[2].clone();
        Ok(Config { query, filename, case_sensitive: !case_insensitive_set })
    }
}

/// The search pass of a run: applies the matcher that `config` calls for to
/// `contents` and returns the matching lines in their original order.
/// Reading the target file and writing the results stay with the caller, who
/// writes each returned line, first to last, or nothing when the read fails.
pub fn run(config: &Config, contents: &str) -> (r: Vec<String>)
    ensures
        config.case_sensitive ==> r.deep_view() == search_spec(config.query@, contents@),
        !config.case_sensitive ==> r.deep_view() == search_ci_spec(config.query@, contents@),
        config.query@.len() == 0 ==> r.deep_view() == lines_of(contents@),
        contents@.len() == 0 ==> r@.len() == 0,
{
    if config.case_sensitive {
        search(config.query.as_str(), contents)
    } else {
        search_case_insensitive(config.query.as_str(), contents)
    }
}

} // verus!
