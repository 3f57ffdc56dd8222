//! The ways an attack run can fail.

use vstd::prelude::*;

verus! {

/// Why an attack run ended without verified seeds. Every failure is final for
/// the run: nothing is retried.
#[derive(Debug, Clone, Copy, PartialEq, Eq)]
pub enum AttackError {
    /// A data register has no usable candidate: the scan listed none, or none
    /// with a nonzero seed.
    NoCandidatesFound,
    /// No state of the control register reproduces the target together with
    /// the two data seeds.
    ControlNotResolved,
    /// The keystream regenerated from the three seeds differs from the target.
    VerificationMismatch,
}

impl AttackError {
    /// A one-line description of the failure.
    pub fn message(&self) -> (text: &'static str)
        ensures
            text@ == match *self {
                AttackError::NoCandidatesFound => "no candidate seed found for a data register"@,
                AttackError::ControlNotResolved => "no control seed reproduces the target"@,
                AttackError::VerificationMismatch =>
                    "regenerated keystream differs from the target"@,
            },
    {
        match self {
            AttackError::NoCandidatesFound => "no candidate seed found for a data register",
            AttackError::ControlNotResolved => "no control seed reproduces the target",
            AttackError::VerificationMismatch => "regenerated keystream differs from the target",
        }
    }
}

} // verus!
