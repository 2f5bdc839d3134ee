//! The vocabulary of structured point kernels lowered from indexed tensor programs: how a
//! kernel was lowered, what its derivatives are for, and the numeric policy it was built with.

use vstd::prelude::*;

verus! {

pub const STRUCTURED_KERNEL_BUNDLE_SCHEMA: &'static str = "scientia-structured-kernel-bundle/1";

#[derive(Clone, Copy, Debug, PartialEq, Eq, Structural)]
pub enum StructuredKernelLoweringMethod {
    IndexedQFunctionMalleusAd,
}

/// What a derivative kernel of a bundle is for.
#[derive(Clone, Copy, Debug, PartialEq, Eq, Structural)]
pub enum StructuredDerivativePurpose {
    StateDirection,
    StateAdjoint,
    FrozenParameterDirection,
}

#[derive(Clone, Copy, Debug, PartialEq, Eq, Structural)]
pub enum StructuredDerivativeEvidence {
    SourceSymbolicJvpReceipt,
    StructuredChainRuleIdentity,
}

/// The numeric policy a kernel was built with, as text, for artifact identity.
#[derive(Clone, Debug, PartialEq, Eq)]
pub struct StructuredNumericPolicyReceipt {
    pub scalar_type: String,
    pub fma: String,
    pub reassociation: String,
    pub reduction_order: String,
}

} // verus!
