//! Declarative rules: a condition tree over an entry's fields, the actions that
//! apply when it matches, and their validation.

pub mod error;
pub mod glob;
pub mod schema;
pub mod evaluator;
pub mod execute;
