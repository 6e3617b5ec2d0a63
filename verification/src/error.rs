//! The error a request handler reports.
//!
//! Failures of outside origin (transport, storage, serialization) are
//! wrapped by the surrounding program; the library itself signals only the
//! absence of a login.

use vstd::prelude::*;

verus! {

/// Why a request could not be served.
#[derive(Debug, PartialEq, Eq, Structural)]
pub enum ResponseError {
    /// No login found: the caller must authenticate first.
    NeedsAuth,
}

} // verus!
