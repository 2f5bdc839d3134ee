//! The vocabulary of scientific verification intent: what downstream products must check,
//! with which evidence and tolerance, without choosing tolerances or running a solver.

use vstd::prelude::*;
use crate::semantic::ExprId;

verus! {

pub const VERIFICATION_PROFILE_SCHEMA: &'static str = "scientia-verification-profile/1";
pub const VERIFICATION_OBLIGATION_SCHEMA: &'static str = "scientia-verification-obligation/2";

#[derive(Clone, Copy, Debug, PartialEq, Eq, PartialOrd, Ord, Structural)]
pub enum VerificationEvidenceClass {
    Semantic,
    Formal,
    Numerical,
    IndependentNumerical,
    Empirical,
}

#[derive(Clone, Copy, Debug, PartialEq, Eq, PartialOrd, Ord, Structural)]
pub enum ToleranceClass {
    Exact,
    Roundoff,
    DirectionalTruncation,
    Discretization,
    Iterative,
    Experimental,
}

#[derive(Clone, Debug, PartialEq, Eq)]
pub struct ValidityCondition {
    pub statement: String,
}

#[derive(Clone, Debug, PartialEq, Eq)]
pub struct FormalizableObligationRef {
    pub language_neutral_claim: String,
}

/// Where the exact solution of a manufactured-solution check comes from.
#[derive(Clone, Debug, PartialEq, Eq)]
pub enum ExactSolutionSource {
    Authored(ExprId),
    Slot(String),
}

#[derive(Clone, Copy, Debug, PartialEq, Eq, PartialOrd, Ord, Structural)]
pub enum RefinementAxis {
    MeshSize,
    TimeStep,
}

#[derive(Clone, Copy, Debug, PartialEq, Eq, Structural)]
pub enum ConservationRelation {
    GlobalBalance,
}

#[derive(Clone, Debug, PartialEq, Eq)]
pub struct UnsupportedGeneration {
    pub code: String,
    pub reason: String,
}

#[derive(Clone, Debug, PartialEq, Eq)]
pub struct ObservableDefinition {
    pub name: String,
    pub scientific_meaning: String,
}

#[derive(Clone, Debug, PartialEq, Eq)]
pub struct VerificationProfileError {
    pub code: String,
    pub message: String,
}

impl VerificationProfileError {
    /// `code: message`.
    pub fn describe(&self) -> (s: String)
        ensures
            s@ == self.code@ + ": "@ + self.message@,
    {
        let mut s = self.code.clone();
        s.append(": ");
        s.append(self.message.as_str());
        s
    }
}

pub fn profile_error(code: &str, message: &str) -> (e: VerificationProfileError)
    ensures
        e.code@ == code@,
        e.message@ == message@,
{
    VerificationProfileError { code: code.to_owned(), message: message.to_owned() }
}

} // verus!
