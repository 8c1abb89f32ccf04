use vstd::prelude::*;
use vstd::string::StringSliceAdditionalSpecFns;
use vstd::utf8::*;

use crate::lines::bytes_of_all;
use crate::matching::{matching_lines, matching_lines_any_case, search, search_any_case};

verus! {

/// Why a search could not be carried out.
#[derive(Debug)]
pub enum GrepError {
    /// The query or the file name is missing; the text says what is expected.
    InvalidArguments(&'static str),
    /// The file could not be read; the text describes the cause.
    IoFailure(String),
}

/// What to search for, where, and whether case matters.
#[derive(Debug)]
pub struct Config {
    pub query: String,
    pub filename: String,
    pub case_sensitive: bool,
}

impl Config {
    /// Builds a configuration from the program's arguments: the program
    /// name, then the query, then the file name; further arguments are
    /// ignored. `any_case` tells whether case-insensitive search was asked
    /// for; the search is case-sensitive otherwise.
    pub fn new(args: &[String], any_case: bool) -> (r: Result<Config, GrepError>)
        ensures
            r is Err <==> args@.len() < 3,
            r matches Err(GrepError::InvalidArguments(_)) <==> args@.len() < 3,
            r matches Ok(c) ==> c.query@ == args@[1]@ && c.filename@ == args@[2]@
                && c.case_sensitive == !any_case,
    {
        if args.len() < 3 {
            return Err(GrepError::InvalidArguments("Two arguments are required: [query] [filename]"));
        }
        let query = args[1].as_str().to_owned();
        let filename = args[2].as_str().to_owned();
        Ok(Config { query, filename, case_sensitive: !any_case })
    }
}

/// The lines of `content` that match the configured query, case-sensitively
/// or not as the configuration says, in their original order.
pub fn find_matches<'a>(config: &Config, content: &'a str) -> (r: Vec<&'a str>)
    ensures
        config.case_sensitive ==> bytes_of_all(r@) == matching_lines(
            encode_utf8(config.query@),
            content.spec_bytes(),
        ),
        !config.case_sensitive ==> bytes_of_all(r@) == matching_lines_any_case(
            encode_utf8(config.query@),
            content.spec_bytes(),
        ),
{
    if config.case_sensitive {
        search(config.query.as_str(), content)
    } else {
        search_any_case(config.query.as_str(), content)
    }
}

} // verus!
