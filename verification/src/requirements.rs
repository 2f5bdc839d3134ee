//! What a form requires of the evaluation of its inputs: which derivative of a basis function,
//! at which evaluation site, and through which trace.

use vstd::prelude::*;

verus! {

/// Which derivative of an input is evaluated.
#[derive(Clone, Copy, Debug, PartialEq, Eq, PartialOrd, Ord, Hash, Structural)]
pub enum DerivativeEvaluation {
    Value,
    Gradient,
    Divergence,
    Curl,
    RotatedGradient,
    SymmetricGradient,
    TimeDerivative,
}

/// Where an input is evaluated: in the cell, on a facet from one side, or at a point.
#[derive(Clone, Copy, Debug, PartialEq, Eq, PartialOrd, Ord, Hash, Structural)]
pub enum EvaluationSite {
    Cell,
    ExteriorTrace,
    MinusTrace,
    PlusTrace,
    Point,
}

/// How a facet trace maps a value.
#[derive(Clone, Copy, Debug, PartialEq, Eq, PartialOrd, Ord, Hash, Structural)]
pub enum TraceMapping {
    Value,
    Normal,
    Tangential,
}

} // verus!
