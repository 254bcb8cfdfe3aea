//! The error type shown to the user.

use vstd::prelude::*;

verus! {

/// An error with a message for the user.
#[derive(Debug, Clone)]
pub struct GenericError {
    pub msg: String,
}

} // verus!
