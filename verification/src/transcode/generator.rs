//! The transcode generator: turns a configuration into the ffmpeg argument
//! vector, choosing the encoder from the preference and what the host offers.

use vstd::prelude::*;
use vstd::string::StringExecFns;
use crate::transcode::config::{
    audio_encoder_spec, TranscodeCodec, TranscodeConfig, TranscodeContainer, TranscodeResolution,
};
use crate::transcode::encoder::{
    cpu_encoder_spec, cpu_video_args_spec, select_encoder_hw, select_encoder_with_hardware,
    selection_is, vulkan_input_args, vulkan_qp, EncoderSelection, HardwareAccel,
};
use crate::transcode::error::TranscodeError;
use crate::transcode::hwaccel::{
    encoder_name_spec, hw_rate_control_spec, resolve_spec, AvailableEncoders, HwAccel, HwFamily,
};
use crate::text::{decimal, extend_strings, push_decimal, push_lit, push_owned, push_str, string_from_chars, string_views};

verus! {

/// Whether an explicit backend (neither `Auto` nor `Cpu`) is requested, the only
/// case that needs the encoder list of the local ffmpeg.
pub open spec fn explicit_backend_spec(hw: HwAccel) -> bool {
    !(hw == HwAccel::Auto || hw == HwAccel::Cpu)
}

/// Whether an explicit backend is requested.
pub fn explicit_backend(hw_accel: HwAccel) -> (b: bool)
    ensures
        b == explicit_backend_spec(hw_accel),
{
    !matches!(hw_accel, HwAccel::Auto | HwAccel::Cpu)
}

/// Which encoder a configuration ends up with.
pub enum Selected {
    /// Vulkan's H.264 encoder.
    Vulkan,
    /// The CPU encoder of the codec.
    Cpu,
    /// The encoder of a hardware family.
    Hardware(HwFamily),
    /// A forced backend is missing; the payload is the message.
    Unavailable(Seq<char>),
}

/// The encoder a configuration selects: under `Auto`, Vulkan H.264 when hardware
/// use is on and a Vulkan host was found, else the CPU; under any other
/// preference, what that preference resolves to against the available encoders.
pub open spec fn selected(cfg: TranscodeConfig, hw: Option<HardwareAccel>, avail: Set<Seq<char>>) -> Selected {
    if cfg.hw_accel == HwAccel::Auto {
        if cfg.use_hardware_accel && hw == Some(HardwareAccel::Vulkan) && cfg.codec == TranscodeCodec::H264 {
            Selected::Vulkan
        } else {
            Selected::Cpu
        }
    } else {
        match resolve_spec(cfg.codec, cfg.hw_accel, avail) {
            Ok(None) => Selected::Cpu,
            Ok(Some(f)) => Selected::Hardware(f),
            Err(m) => Selected::Unavailable(m),
        }
    }
}

pub open spec fn selected_input_args(k: Selected) -> Seq<Seq<char>> {
    match k {
        Selected::Vulkan => vulkan_input_args(),
        _ => Seq::<Seq<char>>::empty(),
    }
}

pub open spec fn selected_encoder(k: Selected, codec: TranscodeCodec) -> Seq<char> {
    match k {
        Selected::Vulkan => "h264_vulkan"@,
        Selected::Hardware(f) => encoder_name_spec(f, codec)->Some_0,
        _ => cpu_encoder_spec(codec),
    }
}

pub open spec fn selected_suffix(k: Selected) -> Option<Seq<char>> {
    match k {
        Selected::Vulkan => Some("format=nv12,hwupload"@),
        _ => None,
    }
}

pub open spec fn selected_video_args(k: Selected, cfg: TranscodeConfig) -> Seq<Seq<char>> {
    match k {
        Selected::Vulkan => seq!["-qp"@, decimal(vulkan_qp(cfg.quality))],
        Selected::Hardware(f) => hw_rate_control_spec(f, cfg.quality),
        _ => cpu_video_args_spec(cfg.codec, cfg.quality, cfg.preset@),
    }
}

/// The scale expression of a resolution, if it scales.
pub open spec fn scale_spec(res: TranscodeResolution) -> Option<Seq<char>> {
    match res {
        TranscodeResolution::Keep => None,
        TranscodeResolution::MaxDimension(d) => Some(
            "scale=w='min("@ + decimal(d as nat) + ",iw)':h='min("@ + decimal(d as nat)
                + ",ih)':force_original_aspect_ratio=decrease:force_divisible_by=2"@,
        ),
        TranscodeResolution::Scale { width, height } => Some(
            "scale="@ + decimal(width as nat) + ":"@ + decimal(height as nat),
        ),
    }
}

/// The `-vf` expression: the scale and the encoder's suffix, joined by `,`.
pub open spec fn filter_spec(scale: Option<Seq<char>>, suffix: Option<Seq<char>>) -> Option<Seq<char>> {
    match (scale, suffix) {
        (Some(s), Some(x)) => Some(s + ","@ + x),
        (Some(s), None) => Some(s),
        (None, Some(x)) => Some(x),
        (None, None) => None,
    }
}

/// The ffmpeg arguments for a configuration and its selected encoder.
pub open spec fn ffmpeg_args_spec(cfg: TranscodeConfig, k: Selected, input: Seq<char>, output: Seq<char>) -> Seq<
    Seq<char>,
> {
    let vf = match filter_spec(scale_spec(cfg.resolution), selected_suffix(k)) {
        Some(v) => seq!["-vf"@, v],
        None => Seq::<Seq<char>>::empty(),
    };
    let faststart = if cfg.container == TranscodeContainer::Mp4 {
        seq!["-movflags"@, "+faststart"@]
    } else {
        Seq::<Seq<char>>::empty()
    };
    seq!["-y"@] + selected_input_args(k) + seq!["-i"@, input] + vf + seq![
        "-c:v"@,
        selected_encoder(k, cfg.codec),
    ] + selected_video_args(k, cfg) + seq![
        "-c:a"@,
        audio_encoder_spec(cfg.container),
        "-b:a"@,
        "128k"@,
    ] + faststart + seq![output]
}

/// A transcoder for one output configuration, with what was found on the host.
pub struct TranscodeGenerator {
    config: TranscodeConfig,
    hardware_accel: Option<HardwareAccel>,
    available_encoders: AvailableEncoders,
}

impl TranscodeGenerator {
    /// The output configuration.
    pub closed spec fn config_spec(&self) -> TranscodeConfig {
        self.config
    }

    /// The accelerator found on the host, if it was looked for.
    pub closed spec fn hardware_spec(&self) -> Option<HardwareAccel> {
        self.hardware_accel
    }

    /// The encoders of the local ffmpeg, if they were listed.
    pub closed spec fn available_spec(&self) -> Set<Seq<char>> {
        self.available_encoders@
    }

    /// The encoder this generator selects.
    pub open spec fn selected_spec(&self) -> Selected {
        selected(self.config_spec(), self.hardware_spec(), self.available_spec())
    }

    /// A generator for `config`. The detected accelerator is kept only when the
    /// config asks for hardware; the probed encoder list only when it forces an
    /// explicit backend.
    pub fn new(config: TranscodeConfig, detected: Option<HardwareAccel>, probed: AvailableEncoders) -> (r:
        Self)
        ensures
            r.config_spec() == config,
            r.hardware_spec() == (if config.use_hardware_accel {
                detected
            } else {
                None
            }),
            r.available_spec() == (if explicit_backend_spec(config.hw_accel) {
                probed@
            } else {
                Set::<Seq<char>>::empty()
            }),
    {
        let hardware_accel = if config.use_hardware_accel {
            detected
        } else {
            None
        };
        let available_encoders = if explicit_backend(config.hw_accel) {
            probed
        } else {
            AvailableEncoders::empty()
        };
        TranscodeGenerator { config, hardware_accel, available_encoders }
    }

    /// A generator with a given accelerator and no listed encoders.
    pub fn new_with_hardware(config: TranscodeConfig, hardware_accel: Option<HardwareAccel>) -> (r: Self)
        ensures
            r.config_spec() == config,
            r.hardware_spec() == hardware_accel,
            r.available_spec() == Set::<Seq<char>>::empty(),
    {
        TranscodeGenerator { config, hardware_accel, available_encoders: AvailableEncoders::empty() }
    }

    /// A generator with a given encoder list and no accelerator.
    pub fn new_with_available(config: TranscodeConfig, available_encoders: AvailableEncoders) -> (r: Self)
        ensures
            r.config_spec() == config,
            r.hardware_spec() is None,
            r.available_spec() == available_encoders@,
    {
        TranscodeGenerator { config, hardware_accel: None, available_encoders }
    }

    /// The output configuration.
    pub fn config(&self) -> (r: &TranscodeConfig)
        ensures
            *r == self.config_spec(),
    {
        &self.config
    }

    /// Resolve the encoder for this generator's config.
    pub fn select(&self) -> (r: Result<EncoderSelection, TranscodeError>)
        ensures
            match self.selected_spec() {
                Selected::Unavailable(m) => r matches Err(TranscodeError::HardwareAccelUnavailable(e)) && e@
                    == m,
                k => r matches Ok(sel) && selection_is(
                    sel,
                    selected_input_args(k),
                    selected_encoder(k, self.config_spec().codec),
                    k is Vulkan || k is Hardware,
                    selected_suffix(k),
                    selected_video_args(k, self.config_spec()),
                ),
            },
    {
        let cfg = &self.config;
        match cfg.hw_accel {
            HwAccel::Auto => {
                let hw = if cfg.use_hardware_accel {
                    self.hardware_accel
                } else {
                    None
                };
                Ok(select_encoder_with_hardware(cfg.codec, cfg.quality, cfg.preset.as_str(), hw))
            },
            other => select_encoder_hw(
                cfg.codec,
                cfg.quality,
                cfg.preset.as_str(),
                other,
                &self.available_encoders,
            ),
        }
    }

    /// The `-vf` expression for this config and an encoder's filter suffix, or
    /// `None` to keep the source size with no suffix.
    pub fn video_filter(&self, suffix: Option<&str>) -> (r: Option<String>)
        ensures
            match r {
                Some(s) => filter_spec(
                    scale_spec(self.config_spec().resolution),
                    match suffix {
                        Some(x) => Some(x@),
                        None => None,
                    },
                ) == Some(s@),
                None => filter_spec(
                    scale_spec(self.config_spec().resolution),
                    match suffix {
                        Some(x) => Some(x@),
                        None => None,
                    },
                ) is None,
            },
    {
        let mut v: Vec<char> = Vec::new();
        let has_scale = match self.config.resolution {
            TranscodeResolution::Keep => false,
            TranscodeResolution::MaxDimension(dim) => {
                push_str(&mut v, "scale=w='min(");
                push_decimal(&mut v, dim);
                push_str(&mut v, ",iw)':h='min(");
                push_decimal(&mut v, dim);
                push_str(&mut v, ",ih)':force_original_aspect_ratio=decrease:force_divisible_by=2");
                true
            },
            TranscodeResolution::Scale { width, height } => {
                push_str(&mut v, "scale=");
                push_decimal(&mut v, width);
                push_str(&mut v, ":");
                push_decimal(&mut v, height);
                true
            },
        };
        assert(has_scale <==> scale_spec(self.config.resolution) is Some);
        assert(has_scale ==> scale_spec(self.config.resolution) == Some(v@));
        match suffix {
            Some(x) => {
                if has_scale {
                    push_str(&mut v, ",");
                }
                push_str(&mut v, x);
                Some(string_from_chars(v.as_slice()))
            },
            None => {
                if has_scale {
                    Some(string_from_chars(v.as_slice()))
                } else {
                    None
                }
            },
        }
    }

    /// The ffmpeg argument vector that encodes `input` into `output`.
    pub fn build_ffmpeg_args(&self, input: &str, output: &str) -> (r: Result<Vec<String>, TranscodeError>)
        ensures
            match self.selected_spec() {
                Selected::Unavailable(m) => r matches Err(TranscodeError::HardwareAccelUnavailable(e)) && e@
                    == m,
                k => r matches Ok(args) && string_views(args@) == ffmpeg_args_spec(
                    self.config_spec(),
                    k,
                    input@,
                    output@,
                ),
            },
    {
        let selection = match self.select() {
            Ok(s) => s,
            Err(e) => {
                return Err(e);
            },
        };
        let ghost k = self.selected_spec();
        let mut args: Vec<String> = Vec::new();
        push_lit(&mut args, "-y");
        extend_strings(&mut args, &selection.input_args);
        push_lit(&mut args, "-i");
        push_lit(&mut args, input);
        let ghost after_input = string_views(args@);
        let suffix: Option<&str> = match &selection.video_filter_suffix {
            Some(s) => Some(s.as_str()),
            None => None,
        };
        match self.video_filter(suffix) {
            Some(vf) => {
                push_lit(&mut args, "-vf");
                push_owned(&mut args, vf);
            },
            None => {},
        }
        let ghost after_vf = string_views(args@);
        push_lit(&mut args, "-c:v");
        push_lit(&mut args, selection.encoder.as_str());
        extend_strings(&mut args, &selection.video_args);
        push_lit(&mut args, "-c:a");
        push_lit(&mut args, self.config.container.audio_encoder());
        push_lit(&mut args, "-b:a");
        push_lit(&mut args, "128k");
        let ghost after_audio = string_views(args@);
        if matches!(self.config.container, TranscodeContainer::Mp4) {
            push_lit(&mut args, "-movflags");
            push_lit(&mut args, "+faststart");
        }
        push_lit(&mut args, output);
        proof {
            let cfg = self.config_spec();
            let vf = match filter_spec(scale_spec(cfg.resolution), selected_suffix(k)) {
                Some(v) => seq!["-vf"@, v],
                None => Seq::<Seq<char>>::empty(),
            };
            assert(after_input =~= seq!["-y"@] + selected_input_args(k) + seq!["-i"@, input@]);
            assert(after_vf =~= after_input + vf);
            assert(after_audio =~= after_vf + seq!["-c:v"@, selected_encoder(k, cfg.codec)]
                + selected_video_args(k, cfg) + seq![
                "-c:a"@,
                audio_encoder_spec(cfg.container),
                "-b:a"@,
                "128k"@,
            ]);
            assert(string_views(args@) =~= ffmpeg_args_spec(cfg, k, input@, output@));
        }
        Ok(args)
    }

    /// Whether a failed run is retried on the CPU: ffmpeg failed and a hardware
    /// accelerator was in use.
    pub fn retries_on_cpu(&self, error: &TranscodeError) -> (b: bool)
        ensures
            b == (error is FFmpegProcessFailed && self.hardware_spec() is Some),
    {
        matches!(error, TranscodeError::FFmpegProcessFailed(_)) && self.hardware_accel.is_some()
    }

    /// The generator of the CPU retry: the same config with hardware use off and
    /// the CPU backend forced, no accelerator and no listed encoders.
    pub fn cpu_fallback(&self) -> (r: Self)
        ensures
            r.config_spec().codec == self.config_spec().codec,
            r.config_spec().container == self.config_spec().container,
            r.config_spec().resolution == self.config_spec().resolution,
            r.config_spec().quality == self.config_spec().quality,
            r.config_spec().preset@ == self.config_spec().preset@,
            !r.config_spec().use_hardware_accel,
            r.config_spec().hw_accel == HwAccel::Cpu,
            r.hardware_spec() is None,
            r.available_spec() == Set::<Seq<char>>::empty(),
    {
        let config = TranscodeConfig {
            codec: self.config.codec,
            container: self.config.container,
            resolution: self.config.resolution,
            quality: self.config.quality,
            preset: self.config.preset.clone(),
            use_hardware_accel: false,
            hw_accel: HwAccel::Cpu,
        };
        TranscodeGenerator { config, hardware_accel: None, available_encoders: AvailableEncoders::empty() }
    }
}


/// The shape of an ffmpeg command line: it starts with `-y`, reads the input
/// after `-i`, names the video encoder after `-c:v`, encodes audio with Opus
/// for WebM and AAC otherwise at 128 kbit/s, moves the index to the front for
/// MP4 only, and ends with the output path.
pub proof fn law_ffmpeg_args_shape(cfg: TranscodeConfig, k: Selected, input: Seq<char>, output: Seq<char>)
    ensures
        ({
            let a = ffmpeg_args_spec(cfg, k, input, output);
            &&& a[0] == "-y"@
            &&& a.last() == output
            &&& exists|i: int| 0 <= i && i + 1 < a.len() && #[trigger] a[i] == "-i"@ && a[i + 1] == input
            &&& exists|i: int| 0 <= i && i + 1 < a.len() && #[trigger] a[i] == "-c:v"@ && a[i + 1] == selected_encoder(
                k,
                cfg.codec,
            )
            &&& exists|j: int| 0 <= j && j + 3 < a.len() && #[trigger] a[j] == "-c:a"@ && a[j + 1] == (if cfg.container
                == TranscodeContainer::Webm {
                "libopus"@
            } else {
                "aac"@
            }) && a[j + 2] == "-b:a"@ && a[j + 3] == "128k"@
            &&& (cfg.container == TranscodeContainer::Mp4 ==> exists|m: int|
                0 <= m && m + 1 < a.len() && #[trigger] a[m] == "-movflags"@ && a[m + 1] == "+faststart"@)
        }),
{
    let a = ffmpeg_args_spec(cfg, k, input, output);
    let ia = selected_input_args(k);
    let vf = match filter_spec(scale_spec(cfg.resolution), selected_suffix(k)) {
        Some(v) => seq!["-vf"@, v],
        None => Seq::<Seq<char>>::empty(),
    };
    let va = selected_video_args(k, cfg);
    let i: int = 1 + ia.len() as int;
    assert(a[i] == "-i"@ && a[i + 1] == input);
    let c: int = i + 2 + vf.len() as int;
    assert(a[c] == "-c:v"@ && a[c + 1] == selected_encoder(k, cfg.codec));
    let j: int = c + 2 + va.len() as int;
    assert(a[j] == "-c:a"@ && a[j + 1] == audio_encoder_spec(cfg.container));
    assert(a[j + 2] == "-b:a"@ && a[j + 3] == "128k"@);
    if cfg.container == TranscodeContainer::Mp4 {
        assert(a[j + 4] == "-movflags"@ && a[j + 5] == "+faststart"@);
    }
}

} // verus!
