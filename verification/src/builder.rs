//! Vocabulary shared with the construction layer that assembles runtimes.
//! The builder itself — node catalogues, named resource lookup — lives with
//! the application; the library defines what it can report back.

use vstd::prelude::*;

use crate::context::DelayLineKey;

verus! {

/// A node-creation request could not be honoured: its parameters were not
/// usable for the requested kind.
#[derive(Debug, PartialEq, Eq, Clone, Copy, Hash, Structural)]
pub enum BuilderError {
    InvalidProps,
}

/// Information that only exists once a node has been created — for
/// instance, the delay-line key a freshly added writer obtained.
pub enum AddNodeResponse {
    DelayWrite(DelayLineKey),
}

} // verus!
