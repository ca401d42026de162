//! Errors reported by the library.
use vstd::prelude::*;

verus! {

/// What went wrong, with the human-readable detail that the daemon logs.
#[derive(Debug, Clone)]
pub enum SentinelError {
    Config(String),
    Http(String),
    Json(String),
    Yaml(String),
    Io(String),
    Collector { target: String, message: String },
    JevApi(String),
    InvalidJevResponse(String),
    Action(String),
}

} // verus!
