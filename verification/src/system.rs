//! Mixed and block operator systems: the coordinates of their blocks and the errors of
//! assembling them.

use vstd::prelude::*;
use crate::semantic::SymbolId;

verus! {

pub const OPERATOR_SYSTEM_SCHEMA: &'static str = "scientia-operator-system/1";

/// Block `(row, column)` of an operator system.
#[derive(Clone, Copy, Debug, PartialEq, Eq, PartialOrd, Ord, Structural)]
pub struct OperatorBlockCoordinate {
    pub row: SymbolId,
    pub column: SymbolId,
}

#[derive(Clone, Debug, PartialEq, Eq)]
pub enum OperatorSystemError {
    Empty { model: String },
    DuplicateEquation { equation: String },
    Compile { equation: String, stage: &'static str, detail: String },
    MissingTestField { equation: String },
}

} // verus!
