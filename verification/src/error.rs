use vstd::prelude::*;

verus! {

/// Error value returned by every fallible operation of this crate.
///
/// All parse, range and contract violations are reported as descriptive
/// messages; no operation of this library panics on malformed input.
#[derive(Debug, Clone, PartialEq, Eq)]
pub enum AbiError {
    Msg(String),
}

impl AbiError {
    /// The human-readable description carried by this error.
    pub fn message(&self) -> (r: &String) {
        match self {
            AbiError::Msg(m) => m,
        }
    }
}

} // verus!
