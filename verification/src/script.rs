//! Errors of the scripted circuit tests.

use vstd::prelude::*;

verus! {

/// Failure of a scripted test: the script could not be parsed, or a step
/// of it failed while running.
#[derive(Debug)]
pub enum TestError {
    ParseError(String),
    RunError(String),
}

impl TestError {
    /// The failure message.
    pub fn message(self) -> (r: String)
        ensures
            match self {
                TestError::ParseError(s) => r == s,
                TestError::RunError(s) => r == s,
            },
    {
        match self {
            TestError::ParseError(s) => s,
            TestError::RunError(s) => s,
        }
    }
}

} // verus!
