//! Client-side hashcash responder: derives an acceptance threshold from a
//! one-byte difficulty, searches for a 4-byte proof-of-work modifier, and
//! parses challenge parameters out of a transport header value.

pub mod b64;
pub mod parse;
pub mod search;
pub mod sha;
pub mod threshold;

pub use parse::parse_hashcash_header;
pub use search::gencash;
pub use search::SolveError;
pub use threshold::derive_threshold;
