//! Errors of rule parsing, validation and evaluation.

use vstd::prelude::*;

verus! {

/// Why a rule was refused.
#[derive(Clone, Debug)]
pub enum RuleError {
    /// The input was not valid JSON.
    Json(String),
    /// The input was not valid TOML.
    Toml(String),
    /// A condition is malformed, such as an empty `all`/`any` group.
    InvalidCondition(String),
    /// A glob pattern could not be compiled.
    InvalidGlob { pattern: String, message: String },
    /// An action reference is empty.
    InvalidAction(String),
    /// A condition is not supported yet.
    Unsupported(String),
}

} // verus!
