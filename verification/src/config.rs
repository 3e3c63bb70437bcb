//! Run configuration: the query, the path of the file to search, and
//! whether matching ignores case. The caller gathers these from its
//! command line and environment and hands them in as plain values.

use vstd::prelude::*;

verus! {

pub struct Config {
    pub query: String,
    pub file_path: String,
    pub ignore_case: bool,
}

impl Config {
    /// Assemble a configuration from the two positional arguments, if they
    /// were given, and the case toggle. A missing argument is reported as an
    /// error naming the first one missing.
    pub fn build(query: Option<String>, file_path: Option<String>, ignore_case: bool) -> (r:
        Result<Config, &'static str>)
        ensures
            match r {
                Ok(c) => {
                    &&& query is Some
                    &&& file_path is Some
                    &&& c.query == query->0
                    &&& c.file_path == file_path->0
                    &&& c.ignore_case == ignore_case
                },
                Err(m) => {
                    &&& (query is None || file_path is None)
                    &&& (query is None ==> m@ == "Didn't get a query string"@)
                    &&& (query is Some && file_path is None ==> m@ == "Didn't get a file path"@)
                },
            },
    {
        let query = match query {
            Some(q) => q,
            None => {
                return Err("Didn't get a query string");
            },
        };
        let file_path = match file_path {
            Some(p) => p,
            None => {
                return Err("Didn't get a file path");
            },
        };
        Ok(Config { query, file_path, ignore_case })
    }
}

} // verus!
