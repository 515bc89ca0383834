//! The single-file transcode action: from the request to an output configuration.

use vstd::prelude::*;
use vstd::string::StringExecFns;
use crate::transcode::config::{
    default_container_spec, TranscodeCodec, TranscodeConfig, TranscodeContainer, TranscodeQuality,
    TranscodeResolution,
};
use crate::transcode::hwaccel::HwAccel;

verus! {

/// A request to transcode one video entry.
#[derive(Clone, Debug)]
pub struct TranscodeInput {
    /// UUID of the entry to transcode.
    pub entry_uuid: u128,
    /// Target codec.
    pub codec: TranscodeCodec,
    /// Output container; the codec's default when absent.
    pub container: Option<TranscodeContainer>,
    /// Longest side of the output, in pixels; the source size when absent.
    pub max_dimension: Option<u32>,
    /// CRF quality; wins over `bitrate_kbps` when both are set.
    pub crf: Option<u32>,
    /// Target bitrate in kbps.
    pub bitrate_kbps: Option<u32>,
    /// Encoder speed preset; `veryfast` when absent.
    pub preset: Option<String>,
    /// Hardware acceleration backend; `Auto` when absent.
    pub hw_accel: Option<HwAccel>,
    /// Re-encode even when the output already exists.
    pub force: bool,
}

/// The result of a single-file transcode.
#[derive(Clone, Debug)]
pub struct TranscodeOutput {
    /// Absolute path of the produced file.
    pub output_path: String,
    /// Output size in bytes.
    pub size_bytes: u64,
    /// Encoding wall-clock time in seconds.
    pub encoding_time_secs: u64,
}

/// Transcode one entry to a target codec.
#[derive(Clone, Debug)]
pub struct TranscodeAction {
    pub input: TranscodeInput,
}

/// The quality a request asks for: its CRF, else its bitrate, else CRF 23.
pub open spec fn requested_quality(input: TranscodeInput) -> TranscodeQuality {
    match (input.crf, input.bitrate_kbps) {
        (Some(crf), _) => TranscodeQuality::Crf(crf),
        (None, Some(kbps)) => TranscodeQuality::Bitrate(kbps),
        (None, None) => TranscodeQuality::Crf(23),
    }
}

impl TranscodeAction {
    /// The action for a request.
    pub fn new(input: TranscodeInput) -> (r: Self)
        ensures
            r.input == input,
    {
        TranscodeAction { input }
    }

    /// The output configuration of the request: its codec; its container, else
    /// the codec's default; its longest side, else the source size; its quality;
    /// its preset, else `veryfast`; hardware use off; its backend, else `Auto`.
    pub fn build_config(&self) -> (r: TranscodeConfig)
        ensures
            r.codec == self.input.codec,
            r.container == match self.input.container {
                Some(c) => c,
                None => default_container_spec(self.input.codec),
            },
            r.resolution == match self.input.max_dimension {
                Some(d) => TranscodeResolution::MaxDimension(d),
                None => TranscodeResolution::Keep,
            },
            r.quality == requested_quality(self.input),
            r.preset@ == match self.input.preset {
                Some(p) => p@,
                None => "veryfast"@,
            },
            !r.use_hardware_accel,
            r.hw_accel == match self.input.hw_accel {
                Some(h) => h,
                None => HwAccel::Auto,
            },
    {
        let container = match self.input.container {
            Some(c) => c,
            None => self.input.codec.default_container(),
        };
        let resolution = match self.input.max_dimension {
            Some(dim) => TranscodeResolution::MaxDimension(dim),
            None => TranscodeResolution::Keep,
        };
        let quality = match (self.input.crf, self.input.bitrate_kbps) {
            (Some(crf), _) => TranscodeQuality::Crf(crf),
            (None, Some(kbps)) => TranscodeQuality::Bitrate(kbps),
            (None, None) => TranscodeQuality::default(),
        };
        let preset = match &self.input.preset {
            Some(p) => p.clone(),
            None => String::from_str("veryfast"),
        };
        let hw_accel = match self.input.hw_accel {
            Some(h) => h,
            None => HwAccel::default(),
        };
        TranscodeConfig {
            codec: self.input.codec,
            container,
            resolution,
            quality,
            preset,
            use_hardware_accel: false,
            hw_accel,
        }
    }
}

} // verus!
