//! Line-oriented text search: split a buffer into lines and keep those that
//! contain a query, exactly or ignoring case.

pub mod lines;
pub mod matching;
pub mod config;
pub mod laws;

pub use config::{find_matches, Config, GrepError};
pub use matching::{search, search_any_case};
