//! Video encoder selection: the ffmpeg encoder for a codec and the arguments that
//! express the requested quality, on the CPU or on a hardware path.

use vstd::prelude::*;
use vstd::string::StringExecFns;
use crate::transcode::config::{TranscodeCodec, TranscodeQuality};
use crate::transcode::error::TranscodeError;
use crate::transcode::hwaccel::{
    encoder_name_spec, hw_rate_control_args, hw_rate_control_spec, resolve_hw_encoder, resolve_spec,
    AvailableEncoders, HwAccel,
};
use crate::text::{
    chars_eq, chars_of, decimal, kbps_string, kbps_text, push_lit, push_owned, string_views,
    u32_to_string,
};

verus! {

/// A hardware accelerator found on the host. Vulkan has an H.264 encoder on
/// this path; any other accelerator leaves encoding on the CPU.
#[derive(Clone, Copy, Debug, PartialEq, Eq, Structural)]
pub enum HardwareAccel {
    Vulkan,
    Other,
}

/// A resolved encoder plus the arguments that express the requested quality.
#[derive(Clone, Debug)]
pub struct EncoderSelection {
    /// ffmpeg arguments that must appear before `-i`.
    pub input_args: Vec<String>,
    /// ffmpeg encoder name passed to `-c:v`.
    pub encoder: String,
    /// Whether the encoder runs on a hardware path.
    pub hardware: bool,
    /// Filter suffix needed by the encoder after scaling.
    pub video_filter_suffix: Option<String>,
    /// Codec-specific video arguments.
    pub video_args: Vec<String>,
}

/// Whether a selection holds exactly the given parts.
pub open spec fn selection_is(
    sel: EncoderSelection,
    input_args: Seq<Seq<char>>,
    encoder: Seq<char>,
    hardware: bool,
    suffix: Option<Seq<char>>,
    video_args: Seq<Seq<char>>,
) -> bool {
    &&& string_views(sel.input_args@) == input_args
    &&& sel.encoder@ == encoder
    &&& sel.hardware == hardware
    &&& match sel.video_filter_suffix {
        Some(s) => suffix == Some(s@),
        None => suffix is None,
    }
    &&& string_views(sel.video_args@) == video_args
}

/// The CPU encoder of a codec.
pub open spec fn cpu_encoder_spec(c: TranscodeCodec) -> Seq<char> {
    match c {
        TranscodeCodec::H264 => "libx264"@,
        TranscodeCodec::Hevc => "libx265"@,
        TranscodeCodec::Vp9 => "libvpx-vp9"@,
        TranscodeCodec::Av1 => "libsvtav1"@,
    }
}

/// The CPU encoder name for a codec.
pub fn cpu_encoder(codec: TranscodeCodec) -> (r: &'static str)
    ensures
        r@ == cpu_encoder_spec(codec),
{
    match codec {
        TranscodeCodec::H264 => "libx264",
        TranscodeCodec::Hevc => "libx265",
        TranscodeCodec::Vp9 => "libvpx-vp9",
        TranscodeCodec::Av1 => "libsvtav1",
    }
}

/// The SVT-AV1 numeric preset for a named speed preset.
pub open spec fn svtav1_preset_spec(p: Seq<char>) -> Seq<char> {
    if p == "ultrafast"@ || p == "superfast"@ {
        "12"@
    } else if p == "veryfast"@ || p == "faster"@ {
        "10"@
    } else if p == "fast"@ {
        "8"@
    } else if p == "medium"@ {
        "6"@
    } else if p == "slow"@ || p == "slower"@ || p == "veryslow"@ {
        "4"@
    } else {
        "8"@
    }
}

fn is_preset(p: &Vec<char>, name: &str) -> (b: bool)
    ensures
        b == (p@ == name@),
{
    let n = chars_of(name);
    chars_eq(p.as_slice(), n.as_slice())
}

/// Translate a named speed preset onto SVT-AV1's numeric ladder (0 slowest, 13
/// fastest); unknown names get `8`.
pub fn svtav1_preset(preset: &str) -> (r: &'static str)
    ensures
        r@ == svtav1_preset_spec(preset@),
{
    let p = chars_of(preset);
    if is_preset(&p, "ultrafast") || is_preset(&p, "superfast") {
        "12"
    } else if is_preset(&p, "veryfast") || is_preset(&p, "faster") {
        "10"
    } else if is_preset(&p, "fast") {
        "8"
    } else if is_preset(&p, "medium") {
        "6"
    } else if is_preset(&p, "slow") || is_preset(&p, "slower") || is_preset(&p, "veryslow") {
        "4"
    } else {
        "8"
    }
}

/// `-crf N`, or `-b:v Nk` for a bitrate.
pub open spec fn quality_spec(q: TranscodeQuality) -> Seq<Seq<char>> {
    match q {
        TranscodeQuality::Crf(crf) => seq!["-crf"@, decimal(crf as nat)],
        TranscodeQuality::Bitrate(kbps) => seq!["-b:v"@, kbps_text(kbps as nat)],
    }
}

/// The arguments of an x264/x265-style encoder: named preset, quality, pixel format.
pub open spec fn x26x_spec(preset: Seq<char>, q: TranscodeQuality) -> Seq<Seq<char>> {
    seq!["-preset"@, preset] + quality_spec(q) + seq!["-pix_fmt"@, "yuv420p"@]
}

/// The arguments of the VP9 encoder.
pub open spec fn vp9_spec(q: TranscodeQuality) -> Seq<Seq<char>> {
    let rate = match q {
        TranscodeQuality::Crf(crf) => seq!["-crf"@, decimal(crf as nat), "-b:v"@, "0"@],
        TranscodeQuality::Bitrate(kbps) => seq!["-b:v"@, kbps_text(kbps as nat)],
    };
    rate + seq!["-deadline"@, "good"@, "-cpu-used"@, "4"@, "-pix_fmt"@, "yuv420p"@]
}

/// The arguments of the SVT-AV1 encoder.
pub open spec fn av1_spec(preset: Seq<char>, q: TranscodeQuality) -> Seq<Seq<char>> {
    seq!["-preset"@, svtav1_preset_spec(preset)] + quality_spec(q) + seq!["-pix_fmt"@, "yuv420p"@]
}

/// The video arguments of the CPU encoder of a codec.
pub open spec fn cpu_video_args_spec(codec: TranscodeCodec, q: TranscodeQuality, preset: Seq<char>) -> Seq<
    Seq<char>,
> {
    match codec {
        TranscodeCodec::H264 | TranscodeCodec::Hevc => x26x_spec(preset, q),
        TranscodeCodec::Vp9 => vp9_spec(q),
        TranscodeCodec::Av1 => av1_spec(preset, q),
    }
}

fn push_quality(args: &mut Vec<String>, quality: TranscodeQuality)
    ensures
        string_views(final(args)@) == string_views(old(args)@) + quality_spec(quality),
{
    let ghost before = string_views(args@);
    match quality {
        TranscodeQuality::Crf(crf) => {
            push_lit(args, "-crf");
            push_owned(args, u32_to_string(crf));
        },
        TranscodeQuality::Bitrate(kbps) => {
            push_lit(args, "-b:v");
            push_owned(args, kbps_string(kbps));
        },
    }
    assert(string_views(args@) =~= before + quality_spec(quality));
}

/// The quality arguments of an x264/x265-style encoder.
pub fn x26x_quality_args(preset: &str, quality: TranscodeQuality) -> (r: Vec<String>)
    ensures
        string_views(r@) == x26x_spec(preset@, quality),
{
    let mut args: Vec<String> = Vec::new();
    push_lit(&mut args, "-preset");
    push_lit(&mut args, preset);
    push_quality(&mut args, quality);
    push_lit(&mut args, "-pix_fmt");
    push_lit(&mut args, "yuv420p");
    assert(string_views(args@) =~= x26x_spec(preset@, quality));
    args
}

fn cpu_video_args(codec: TranscodeCodec, quality: TranscodeQuality, preset: &str) -> (r: Vec<String>)
    ensures
        string_views(r@) == cpu_video_args_spec(codec, quality, preset@),
{
    match codec {
        TranscodeCodec::H264 | TranscodeCodec::Hevc => x26x_quality_args(preset, quality),
        TranscodeCodec::Vp9 => {
            let mut args: Vec<String> = Vec::new();
            match quality {
                TranscodeQuality::Crf(crf) => {
                    push_lit(&mut args, "-crf");
                    push_owned(&mut args, u32_to_string(crf));
                    push_lit(&mut args, "-b:v");
                    push_lit(&mut args, "0");
                },
                TranscodeQuality::Bitrate(kbps) => {
                    push_lit(&mut args, "-b:v");
                    push_owned(&mut args, kbps_string(kbps));
                },
            }
            push_lit(&mut args, "-deadline");
            push_lit(&mut args, "good");
            push_lit(&mut args, "-cpu-used");
            push_lit(&mut args, "4");
            push_lit(&mut args, "-pix_fmt");
            push_lit(&mut args, "yuv420p");
            assert(string_views(args@) =~= vp9_spec(quality));
            args
        },
        TranscodeCodec::Av1 => {
            let mut args: Vec<String> = Vec::new();
            push_lit(&mut args, "-preset");
            push_lit(&mut args, svtav1_preset(preset));
            push_quality(&mut args, quality);
            push_lit(&mut args, "-pix_fmt");
            push_lit(&mut args, "yuv420p");
            assert(string_views(args@) =~= av1_spec(preset@, quality));
            args
        },
    }
}

/// The quantizer of the Vulkan H.264 encoder: the CRF capped at 51, or 25 for a bitrate.
pub open spec fn vulkan_qp(q: TranscodeQuality) -> nat {
    match q {
        TranscodeQuality::Crf(crf) => if crf <= 51 {
            crf as nat
        } else {
            51
        },
        TranscodeQuality::Bitrate(_) => 25,
    }
}

/// The arguments that set up the Vulkan device before `-i`.
pub open spec fn vulkan_input_args() -> Seq<Seq<char>> {
    seq!["-strict"@, "-2"@, "-init_hw_device"@, "vulkan=vk"@, "-filter_hw_device"@, "vk"@]
}

/// What a hardware accelerator selects for a codec, when it selects anything:
/// Vulkan's H.264 encoder, which uploads frames after scaling.
pub open spec fn hardware_selection_is(sel: EncoderSelection, q: TranscodeQuality) -> bool {
    selection_is(
        sel,
        vulkan_input_args(),
        "h264_vulkan"@,
        true,
        Some("format=nv12,hwupload"@),
        seq!["-qp"@, decimal(vulkan_qp(q))],
    )
}

/// What the CPU encoder selects.
pub open spec fn cpu_selection_is(sel: EncoderSelection, codec: TranscodeCodec, q: TranscodeQuality, preset: Seq<char>) -> bool {
    selection_is(
        sel,
        Seq::<Seq<char>>::empty(),
        cpu_encoder_spec(codec),
        false,
        None,
        cpu_video_args_spec(codec, q, preset),
    )
}

fn vulkan_h264_encoder(quality: TranscodeQuality) -> (r: EncoderSelection)
    ensures
        hardware_selection_is(r, quality),
{
    let qp = match quality {
        TranscodeQuality::Crf(crf) => if crf < 51 {
            crf
        } else {
            51
        },
        TranscodeQuality::Bitrate(_) => 25,
    };
    let mut input_args: Vec<String> = Vec::new();
    push_lit(&mut input_args, "-strict");
    push_lit(&mut input_args, "-2");
    push_lit(&mut input_args, "-init_hw_device");
    push_lit(&mut input_args, "vulkan=vk");
    push_lit(&mut input_args, "-filter_hw_device");
    push_lit(&mut input_args, "vk");
    let mut video_args: Vec<String> = Vec::new();
    push_lit(&mut video_args, "-qp");
    push_owned(&mut video_args, u32_to_string(qp));
    assert(string_views(input_args@) =~= vulkan_input_args());
    assert(string_views(video_args@) =~= seq!["-qp"@, decimal(vulkan_qp(quality))]);
    EncoderSelection {
        input_args,
        encoder: String::from_str("h264_vulkan"),
        hardware: true,
        video_filter_suffix: Some(String::from_str("format=nv12,hwupload")),
        video_args,
    }
}

fn hardware_encoder(codec: TranscodeCodec, quality: TranscodeQuality, hardware_accel: HardwareAccel) -> (r:
    Option<EncoderSelection>)
    ensures
        match r {
            Some(sel) => codec == TranscodeCodec::H264 && hardware_accel == HardwareAccel::Vulkan
                && hardware_selection_is(sel, quality),
            None => !(codec == TranscodeCodec::H264 && hardware_accel == HardwareAccel::Vulkan),
        },
{
    if codec != TranscodeCodec::H264 {
        return None;
    }
    match hardware_accel {
        HardwareAccel::Vulkan => Some(vulkan_h264_encoder(quality)),
        _ => None,
    }
}

fn cpu_selection(codec: TranscodeCodec, quality: TranscodeQuality, preset: &str) -> (r: EncoderSelection)
    ensures
        cpu_selection_is(r, codec, quality, preset@),
{
    let video_args = cpu_video_args(codec, quality, preset);
    let input_args: Vec<String> = Vec::new();
    assert(string_views(input_args@) =~= Seq::<Seq<char>>::empty());
    EncoderSelection {
        input_args,
        encoder: String::from_str(cpu_encoder(codec)),
        hardware: false,
        video_filter_suffix: None,
        video_args,
    }
}

/// Select an encoder given the accelerator found on the host: Vulkan's H.264
/// encoder for H.264 on a Vulkan host, the CPU encoder of the codec otherwise.
pub fn select_encoder_with_hardware(
    codec: TranscodeCodec,
    quality: TranscodeQuality,
    preset: &str,
    hardware_accel: Option<HardwareAccel>,
) -> (r: EncoderSelection)
    ensures
        if codec == TranscodeCodec::H264 && hardware_accel == Some(HardwareAccel::Vulkan) {
            hardware_selection_is(r, quality)
        } else {
            cpu_selection_is(r, codec, quality, preset@)
        },
{
    if let Some(hw) = hardware_accel {
        if let Some(selection) = hardware_encoder(codec, quality, hw) {
            return selection;
        }
    }
    cpu_selection(codec, quality, preset)
}

/// What a hardware preference selects against a set of available encoders.
pub open spec fn selection_hw_matches(
    r: Result<EncoderSelection, TranscodeError>,
    codec: TranscodeCodec,
    quality: TranscodeQuality,
    preset: Seq<char>,
    hw_accel: HwAccel,
    avail: Set<Seq<char>>,
) -> bool {
    match resolve_spec(codec, hw_accel, avail) {
        Ok(None) => r matches Ok(sel) && cpu_selection_is(sel, codec, quality, preset),
        Ok(Some(f)) => r matches Ok(sel) && selection_is(
            sel,
            Seq::<Seq<char>>::empty(),
            encoder_name_spec(f, codec)->Some_0,
            true,
            None,
            hw_rate_control_spec(f, quality),
        ),
        Err(m) => r matches Err(TranscodeError::HardwareAccelUnavailable(e)) && e@ == m,
    }
}

/// Select an encoder honouring a hardware preference against the encoders an
/// ffmpeg build offers: the resolved hardware encoder with its family's rate
/// control, the CPU encoder when the preference resolves to none, or the error
/// of a forced backend that is missing.
pub fn select_encoder_hw(
    codec: TranscodeCodec,
    quality: TranscodeQuality,
    preset: &str,
    hw_accel: HwAccel,
    available: &AvailableEncoders,
) -> (r: Result<EncoderSelection, TranscodeError>)
    ensures
        selection_hw_matches(r, codec, quality, preset@, hw_accel, available@),
{
    match resolve_hw_encoder(codec, hw_accel, available) {
        Ok(Some(resolved)) => {
            let input_args: Vec<String> = Vec::new();
            assert(string_views(input_args@) =~= Seq::<Seq<char>>::empty());
            Ok(
                EncoderSelection {
                    input_args,
                    encoder: String::from_str(resolved.encoder),
                    hardware: true,
                    video_filter_suffix: None,
                    video_args: hw_rate_control_args(resolved.family, quality),
                },
            )
        },
        Ok(None) => Ok(select_encoder_with_hardware(codec, quality, preset, None)),
        Err(e) => Err(e),
    }
}


/// A bitrate target is in kilobits per second for the CPU encoders too: the
/// video arguments of `Bitrate(kbps)` hold a `-b:v` flag followed by the
/// decimal of `kbps` with the unit suffix `k`, and end with the `yuv420p` pixel
/// format.
pub proof fn law_cpu_bitrate_is_in_kilobits(codec: TranscodeCodec, kbps: u32, preset: Seq<char>)
    ensures
        ({
            let a = cpu_video_args_spec(codec, TranscodeQuality::Bitrate(kbps), preset);
            &&& exists|i: int| 0 <= i && i + 1 < a.len() && #[trigger] a[i] == "-b:v"@ && a[i + 1] == decimal(kbps as nat)
                + seq!['k']
            &&& a.len() >= 2 && a[a.len() - 2] == "-pix_fmt"@ && a[a.len() - 1] == "yuv420p"@
        }),
{
    let a = cpu_video_args_spec(codec, TranscodeQuality::Bitrate(kbps), preset);
    let k = decimal(kbps as nat) + seq!['k'];
    assert(kbps_text(kbps as nat) =~= k);
    match codec {
        TranscodeCodec::Vp9 => {
            assert(a[0] == "-b:v"@ && a[1] == k);
        },
        _ => {
            assert(a[2] == "-b:v"@ && a[3] == k);
        },
    }
}


/// A CRF target reaches the CPU encoders unchanged: the video arguments of
/// `Crf(crf)` hold a `-crf` flag followed by the decimal of `crf`.
pub proof fn law_cpu_crf_is_passed_on(codec: TranscodeCodec, crf: u32, preset: Seq<char>)
    ensures
        ({
            let a = cpu_video_args_spec(codec, TranscodeQuality::Crf(crf), preset);
            exists|i: int| 0 <= i && i + 1 < a.len() && #[trigger] a[i] == "-crf"@ && a[i + 1] == decimal(crf as nat)
        }),
{
    let a = cpu_video_args_spec(codec, TranscodeQuality::Crf(crf), preset);
    match codec {
        TranscodeCodec::Vp9 => assert(a[0] == "-crf"@ && a[1] == decimal(crf as nat)),
        _ => assert(a[2] == "-crf"@ && a[3] == decimal(crf as nat)),
    }
}

} // verus!
