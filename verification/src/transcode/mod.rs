//! Video transcoding: output configuration, encoder selection and the ffmpeg
//! argument vector.

pub mod config;
pub mod error;
pub mod hwaccel;
pub mod encoder;
pub mod generator;
pub mod action;
pub mod state;
