//! Parsing of annotated test-fixture text into file descriptors, and
//! flag-gated filtering of a shared reference source text.

pub mod env_vars;
pub mod error;
pub mod fixture;
pub mod minicore;
pub mod text;

use vstd::prelude::*;

verus! {

/// A character counts as whitespace for trimming and token splitting.
pub open spec fn is_ws(c: char) -> bool {
    c == ' ' || c == '\t' || c == '\r' || c == '\n'
}

} // verus!
