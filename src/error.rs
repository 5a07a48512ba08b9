use vstd::prelude::*;

verus! {

/// The one way a recovery can fail: too few outputs were observed.
#[derive(Debug, Clone, Copy, PartialEq, Eq)]
pub enum Error {
    InsufficientStream,
}

} // verus!
