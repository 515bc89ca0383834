//! Errors of the transcode logic.

use vstd::prelude::*;
use vstd::string::StringExecFns;
use crate::text::copy_string;

verus! {

/// Why a transcode could not be set up or run.
#[derive(Clone, Debug)]
pub enum TranscodeError {
    /// The input file does not exist; the payload names it.
    FileNotFound(String),
    /// The codec cannot be muxed into the container.
    UnsupportedCombination(String),
    /// The encoder failed.
    EncodingFailed(String),
    /// No ffmpeg binary was found.
    FFmpegNotFound,
    /// ffmpeg exited with this status code.
    FFmpegProcessFailed(i32),
    /// A forced hardware backend is not present in this ffmpeg build.
    HardwareAccelUnavailable(String),
    /// An I/O operation failed; the payload is its message.
    Io(String),
    /// Any other failure.
    Other(String),
}

impl TranscodeError {
    /// An `Other` error with the given message.
    pub fn other(msg: &str) -> (e: Self)
        ensures
            e matches TranscodeError::Other(m) && m@ == msg@,
    {
        TranscodeError::Other(copy_string(msg))
    }

    /// An `EncodingFailed` error with the given message.
    pub fn encoding_failed(msg: &str) -> (e: Self)
        ensures
            e matches TranscodeError::EncodingFailed(m) && m@ == msg@,
    {
        TranscodeError::EncodingFailed(copy_string(msg))
    }
}

} // verus!
