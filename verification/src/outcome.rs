//! How a run ends, and what it tells the operating system.

use vstd::prelude::*;

verus! {

/// How a run ended.
#[derive(Debug, Clone, Copy, PartialEq, Eq, Structural)]
pub enum Outcome {
    /// The run completed cleanly.
    Completed,
    /// The configuration was refused.
    ConfigurationError,
    /// A worker did not attach within the attach deadline.
    AttachTimeout,
    /// The run met an error that it could not go on from.
    RuntimeError,
    /// The operator ended the run by a signal.
    Interrupted,
}

/// The exit code of each outcome.
pub open spec fn code_of(outcome: Outcome) -> u8 {
    match outcome {
        Outcome::Completed => 0,
        Outcome::ConfigurationError => 1,
        Outcome::AttachTimeout => 2,
        Outcome::RuntimeError => 3,
        Outcome::Interrupted => 130,
    }
}

/// The exit code with which the process ends after `outcome`.
pub fn exit_code(outcome: Outcome) -> (code: u8)
    ensures
        code == code_of(outcome),
{
    match outcome {
        Outcome::Completed => 0,
        Outcome::ConfigurationError => 1,
        Outcome::AttachTimeout => 2,
        Outcome::RuntimeError => 3,
        Outcome::Interrupted => 130,
    }
}

/// Different outcomes have different exit codes.
pub proof fn lemma_codes_differ(a: Outcome, b: Outcome)
    ensures
        code_of(a) == code_of(b) ==> a == b,
{
}

} // verus!
