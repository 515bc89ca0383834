//! Transcode configuration: codec, container, resolution and quality.

use vstd::prelude::*;
use vstd::string::StringExecFns;
use crate::transcode::error::TranscodeError;
use crate::transcode::hwaccel::HwAccel;
use crate::text::{push_str, string_from_chars};

verus! {

/// Target video codec.
#[derive(Clone, Copy, Debug, PartialEq, Eq, Structural)]
pub enum TranscodeCodec {
    /// H.264 / AVC.
    H264,
    /// H.265 / HEVC.
    Hevc,
    /// VP9.
    Vp9,
    /// AV1.
    Av1,
}

/// Output container format.
#[derive(Clone, Copy, Debug, PartialEq, Eq, Structural)]
pub enum TranscodeContainer {
    Mp4,
    Mkv,
    Webm,
}

/// How to scale the output picture.
#[derive(Clone, Copy, Debug, PartialEq, Eq, Structural)]
pub enum TranscodeResolution {
    /// Keep the source resolution.
    Keep,
    /// Fit the longest side within this many pixels, keeping the aspect ratio.
    MaxDimension(u32),
    /// Scale to an exact width and height.
    Scale { width: u32, height: u32 },
}

/// Quality target for the video stream.
#[derive(Clone, Copy, Debug, PartialEq, Eq, Structural)]
pub enum TranscodeQuality {
    /// Constant Rate Factor (lower is higher quality).
    Crf(u32),
    /// Target average bitrate in kilobits per second.
    Bitrate(u32),
}

/// The `codec_name` ffprobe reports for a codec.
pub open spec fn probe_name_spec(c: TranscodeCodec) -> Seq<char> {
    match c {
        TranscodeCodec::H264 => "h264"@,
        TranscodeCodec::Hevc => "hevc"@,
        TranscodeCodec::Vp9 => "vp9"@,
        TranscodeCodec::Av1 => "av1"@,
    }
}

/// The container that is always valid for a codec.
pub open spec fn default_container_spec(c: TranscodeCodec) -> TranscodeContainer {
    match c {
        TranscodeCodec::Vp9 => TranscodeContainer::Webm,
        _ => TranscodeContainer::Mp4,
    }
}

/// The name a codec is printed with (`{:?}`).
pub open spec fn codec_debug(c: TranscodeCodec) -> Seq<char> {
    match c {
        TranscodeCodec::H264 => "H264"@,
        TranscodeCodec::Hevc => "Hevc"@,
        TranscodeCodec::Vp9 => "Vp9"@,
        TranscodeCodec::Av1 => "Av1"@,
    }
}

/// The name a container is printed with (`{:?}`).
pub open spec fn container_debug(c: TranscodeContainer) -> Seq<char> {
    match c {
        TranscodeContainer::Mp4 => "Mp4"@,
        TranscodeContainer::Mkv => "Mkv"@,
        TranscodeContainer::Webm => "Webm"@,
    }
}

/// The file extension of a container.
pub open spec fn extension_spec(c: TranscodeContainer) -> Seq<char> {
    match c {
        TranscodeContainer::Mp4 => "mp4"@,
        TranscodeContainer::Mkv => "mkv"@,
        TranscodeContainer::Webm => "webm"@,
    }
}

/// The audio encoder paired with a container: Opus for WebM, AAC otherwise.
pub open spec fn audio_encoder_spec(c: TranscodeContainer) -> Seq<char> {
    match c {
        TranscodeContainer::Webm => "libopus"@,
        _ => "aac"@,
    }
}

/// Whether a container can hold a codec: WebM takes only VP9 and AV1.
pub open spec fn supports_spec(c: TranscodeContainer, codec: TranscodeCodec) -> bool {
    match c {
        TranscodeContainer::Webm => codec == TranscodeCodec::Vp9 || codec == TranscodeCodec::Av1,
        _ => true,
    }
}

impl TranscodeCodec {
    /// The `codec_name` ffprobe reports for this codec.
    pub fn probe_name(&self) -> (r: &'static str)
        ensures
            r@ == probe_name_spec(*self),
    {
        match self {
            TranscodeCodec::H264 => "h264",
            TranscodeCodec::Hevc => "hevc",
            TranscodeCodec::Vp9 => "vp9",
            TranscodeCodec::Av1 => "av1",
        }
    }

    /// The container used when the caller does not pin one.
    pub fn default_container(&self) -> (r: TranscodeContainer)
        ensures
            r == default_container_spec(*self),
    {
        match self {
            TranscodeCodec::H264 | TranscodeCodec::Hevc => TranscodeContainer::Mp4,
            TranscodeCodec::Vp9 => TranscodeContainer::Webm,
            TranscodeCodec::Av1 => TranscodeContainer::Mp4,
        }
    }

    /// The name this codec is printed with.
    pub fn debug_name(&self) -> (r: &'static str)
        ensures
            r@ == codec_debug(*self),
    {
        match self {
            TranscodeCodec::H264 => "H264",
            TranscodeCodec::Hevc => "Hevc",
            TranscodeCodec::Vp9 => "Vp9",
            TranscodeCodec::Av1 => "Av1",
        }
    }
}

impl TranscodeContainer {
    /// The file extension of this container.
    pub fn extension(&self) -> (r: &'static str)
        ensures
            r@ == extension_spec(*self),
    {
        match self {
            TranscodeContainer::Mp4 => "mp4",
            TranscodeContainer::Mkv => "mkv",
            TranscodeContainer::Webm => "webm",
        }
    }

    /// The audio encoder to pair with this container.
    pub fn audio_encoder(&self) -> (r: &'static str)
        ensures
            r@ == audio_encoder_spec(*self),
    {
        match self {
            TranscodeContainer::Mp4 | TranscodeContainer::Mkv => "aac",
            TranscodeContainer::Webm => "libopus",
        }
    }

    /// Whether this container can hold `codec`.
    pub fn supports(&self, codec: TranscodeCodec) -> (r: bool)
        ensures
            r == supports_spec(*self, codec),
    {
        match self {
            TranscodeContainer::Mp4 | TranscodeContainer::Mkv => true,
            TranscodeContainer::Webm => matches!(codec, TranscodeCodec::Vp9 | TranscodeCodec::Av1),
        }
    }

    /// The name this container is printed with.
    pub fn debug_name(&self) -> (r: &'static str)
        ensures
            r@ == container_debug(*self),
    {
        match self {
            TranscodeContainer::Mp4 => "Mp4",
            TranscodeContainer::Mkv => "Mkv",
            TranscodeContainer::Webm => "Webm",
        }
    }
}

impl Default for TranscodeResolution {
    fn default() -> (r: Self)
        ensures
            r == TranscodeResolution::Keep,
    {
        TranscodeResolution::Keep
    }
}

impl Default for TranscodeQuality {
    fn default() -> (r: Self)
        ensures
            r == TranscodeQuality::Crf(23),
    {
        TranscodeQuality::Crf(23)
    }
}

/// Full description of a single transcode output.
#[derive(Clone, Debug)]
pub struct TranscodeConfig {
    pub codec: TranscodeCodec,
    pub container: TranscodeContainer,
    pub resolution: TranscodeResolution,
    pub quality: TranscodeQuality,
    /// Encoder speed preset, interpreted per encoder.
    pub preset: String,
    /// Prefer a detected hardware (Vulkan) encoder under `HwAccel::Auto`.
    pub use_hardware_accel: bool,
    /// Hardware acceleration backend preference.
    pub hw_accel: HwAccel,
}

/// The message of a refused codec/container pairing.
pub open spec fn unsupported_message(codec: TranscodeCodec, container: TranscodeContainer) -> Seq<char> {
    codec_debug(codec) + " cannot be muxed into "@ + container_debug(container)
}

impl TranscodeConfig {
    /// A config for `codec` with its default container, the source resolution,
    /// CRF 23, the `veryfast` preset and automatic hardware selection.
    pub fn new(codec: TranscodeCodec) -> (r: Self)
        ensures
            r.codec == codec,
            r.container == default_container_spec(codec),
            r.resolution == TranscodeResolution::Keep,
            r.quality == TranscodeQuality::Crf(23),
            r.preset@ == "veryfast"@,
            !r.use_hardware_accel,
            r.hw_accel == HwAccel::Auto,
    {
        TranscodeConfig {
            codec,
            container: codec.default_container(),
            resolution: TranscodeResolution::Keep,
            quality: TranscodeQuality::default(),
            preset: String::from_str("veryfast"),
            use_hardware_accel: false,
            hw_accel: HwAccel::default(),
        }
    }

    /// This config with another container.
    pub fn with_container(self, container: TranscodeContainer) -> (r: Self)
        ensures
            r == (TranscodeConfig { container, ..self }),
    {
        let mut s = self;
        s.container = container;
        s
    }

    /// This config with another resolution.
    pub fn with_resolution(self, resolution: TranscodeResolution) -> (r: Self)
        ensures
            r == (TranscodeConfig { resolution, ..self }),
    {
        let mut s = self;
        s.resolution = resolution;
        s
    }

    /// This config with another quality target.
    pub fn with_quality(self, quality: TranscodeQuality) -> (r: Self)
        ensures
            r == (TranscodeConfig { quality, ..self }),
    {
        let mut s = self;
        s.quality = quality;
        s
    }

    /// This config with another preset.
    pub fn with_preset(self, preset: String) -> (r: Self)
        ensures
            r == (TranscodeConfig { preset, ..self }),
    {
        let mut s = self;
        s.preset = preset;
        s
    }

    /// The file extension of outputs produced with this config.
    pub fn extension(&self) -> (r: &'static str)
        ensures
            r@ == extension_spec(self.container),
    {
        self.container.extension()
    }

    /// Refuse codec/container pairings the muxer cannot handle.
    pub fn validate(&self) -> (r: Result<(), TranscodeError>)
        ensures
            supports_spec(self.container, self.codec) <==> r is Ok,
            !supports_spec(self.container, self.codec) ==> (r matches Err(
                TranscodeError::UnsupportedCombination(m),
            ) && m@ == unsupported_message(self.codec, self.container)),
    {
        if !self.container.supports(self.codec) {
            let mut v: Vec<char> = Vec::new();
            push_str(&mut v, self.codec.debug_name());
            push_str(&mut v, " cannot be muxed into ");
            push_str(&mut v, self.container.debug_name());
            assert(v@ =~= unsupported_message(self.codec, self.container));
            return Err(TranscodeError::UnsupportedCombination(string_from_chars(v.as_slice())));
        }
        Ok(())
    }
}

/// Configuration of a batch transcode job.
#[derive(Clone, Debug)]
pub struct TranscodeJobConfig {
    /// What to produce for each discovered video.
    pub output: TranscodeConfig,
    /// Re-encode even when an output already exists.
    pub regenerate: bool,
    /// Directory for outputs; `None` means the library's `transcodes` directory.
    pub output_dir: Option<String>,
}

impl TranscodeJobConfig {
    /// A job producing `output`, keeping existing outputs, in the default directory.
    pub fn new(output: TranscodeConfig) -> (r: Self)
        ensures
            r.output == output,
            !r.regenerate,
            r.output_dir is None,
    {
        TranscodeJobConfig { output, regenerate: false, output_dir: None }
    }
}

impl Default for TranscodeJobConfig {
    fn default() -> (r: Self)
        ensures
            r.output.codec == TranscodeCodec::H264,
            r.output.container == TranscodeContainer::Mp4,
            r.output.resolution == TranscodeResolution::Keep,
            r.output.quality == TranscodeQuality::Crf(23),
            r.output.preset@ == "veryfast"@,
            !r.output.use_hardware_accel,
            r.output.hw_accel == HwAccel::Auto,
            !r.regenerate,
            r.output_dir is None,
    {
        TranscodeJobConfig::new(TranscodeConfig::new(TranscodeCodec::H264))
    }
}

} // verus!

verus! {

/// Every codec's default container can carry it.
pub proof fn law_default_container_carries_codec(codec: TranscodeCodec)
    ensures
        supports_spec(default_container_spec(codec), codec),
{
}


/// What each container can carry: VP9 and AV1 go into every container;
/// H.264 and HEVC go into MP4 and Matroska but never into WebM; MP4 and
/// Matroska carry every codec. So a configuration validates exactly when it
/// does not put H.264 or HEVC into WebM.
pub proof fn law_container_codec_support(container: TranscodeContainer, codec: TranscodeCodec)
    ensures
        supports_spec(container, TranscodeCodec::Vp9),
        supports_spec(container, TranscodeCodec::Av1),
        !supports_spec(TranscodeContainer::Webm, TranscodeCodec::H264),
        !supports_spec(TranscodeContainer::Webm, TranscodeCodec::Hevc),
        supports_spec(TranscodeContainer::Mp4, codec),
        supports_spec(TranscodeContainer::Mkv, codec),
        !supports_spec(container, codec) <==> (container == TranscodeContainer::Webm && (codec
            == TranscodeCodec::H264 || codec == TranscodeCodec::Hevc)),
{
}

} // verus!
