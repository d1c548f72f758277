//! An account pool for a streaming model proxy: which account serves a request, what is
//! remembered of sessions, quotas and credentials, and what is answered when nothing can serve.
//!
//! The crate decides; it does no input or output. Times are Unix seconds.
use vstd::prelude::*;

pub mod affinity;
pub mod attempt;
pub mod auth;
pub mod codec;
pub mod config;
pub mod cost;
pub mod double;
pub mod duration;
pub mod forward;
pub mod grid;
pub mod headers;
pub mod identity;
pub mod journal;
pub mod json;
pub mod launch;
pub mod level;
pub mod login;
pub mod models;
pub mod number;
pub mod oauth;
pub mod paths;
pub mod percent;
pub mod pool;
pub mod quota;
pub mod record;
pub mod reload;
pub mod reply;
pub mod report;
pub mod reset;
pub mod route;
pub mod select;
pub mod sse;
pub mod status;
pub mod storage;
pub mod table;
pub mod text;
pub mod tui;
pub mod url;

verus! {

/// The current Unix time in seconds, `0` on a clock set before 1970.
///
/// Calls `std::time::SystemTime::now`. Nothing is claimed of the result.
#[verifier::external_body]
pub fn now() -> (at: u64) {
    std::time::SystemTime::now().duration_since(std::time::UNIX_EPOCH).unwrap_or_default().as_secs()
}

} // verus!
