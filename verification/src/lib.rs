//! Verified core logic of the media, organize and rules operations.

pub mod text;
pub mod ids;
pub mod addressing;
pub mod organize;
pub mod transcode;
pub mod models;
pub mod rules;
pub mod search;
