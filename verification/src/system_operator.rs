//! The system-level operator artifact: provider paths of composed blocks, and the errors of
//! compiling a system operator.

use vstd::prelude::*;
use crate::semantic::SymbolId;

verus! {

pub const SYSTEM_OPERATOR_SCHEMA: &'static str = "scientia-operator-system/2";

/// How a bound property reaches a consumer kernel through providers.
#[derive(Clone, Debug, PartialEq, Eq)]
pub struct PropertyPath {
    pub property: SymbolId,
    pub slot: String,
    pub providers: Vec<String>,
}

#[derive(Clone, Debug, PartialEq)]
pub enum SystemOperatorError {
    NoResiduals { instance: String, model: String },
    Model { instance: String, detail: String },
    Output { output: String, stage: &'static str, detail: String },
    UnboundColumn { instance: String, column: SymbolId },
    BindUnused { consumer_slot: String },
    Composition { consumer_slot: String, detail: String },
}

} // verus!
