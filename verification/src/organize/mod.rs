//! Organize tasks: path identities, decision trees and commit plans.

pub mod error;
pub mod path;
pub mod model;
pub mod tree;
pub mod commit;
pub mod plan;
pub mod grouping;
pub mod conflicts;
pub mod records;
pub mod lifecycle;
pub mod decision;
pub mod commit_job;
pub mod create;
pub mod snapshot;
pub mod layout;
pub mod preflight;
pub mod cursor;
pub mod listing;
pub mod summary;
