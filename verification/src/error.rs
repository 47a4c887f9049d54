//! The errors a request for a served resource ends in.

use vstd::prelude::*;

verus! {

/// Why a request could not be served.
#[derive(Debug)]
pub enum ServerError {
    /// The request itself is malformed; the message says how.
    BadRequest(String),
    /// The resource asked for does not exist; the message names it.
    NotFound(String),
}

} // verus!
