use sd_core::transcode::config::{
    TranscodeCodec, TranscodeConfig, TranscodeContainer, TranscodeQuality, TranscodeResolution,
};
use sd_core::transcode::encoder::{cpu_encoder, select_encoder_with_hardware, HardwareAccel};
use sd_core::transcode::error::TranscodeError;
use sd_core::transcode::generator::TranscodeGenerator;
use sd_core::transcode::hwaccel::{
    hw_rate_control_args, resolve_hw_encoder, AvailableEncoders, HwAccel, HwFamily,
};

fn names(list: &[&str]) -> Vec<String> {
    list.iter().map(|s| s.to_string()).collect()
}

fn nvenc_only() -> AvailableEncoders {
    AvailableEncoders::from_names(names(&["libx264", "h264_nvenc", "hevc_nvenc"]))
}

#[test]
fn default_containers_match_codecs() {
    assert_eq!(TranscodeCodec::H264.default_container(), TranscodeContainer::Mp4);
    assert_eq!(TranscodeCodec::Vp9.default_container(), TranscodeContainer::Webm);
}

#[test]
fn webm_rejects_h264() {
    let cfg = TranscodeConfig::new(TranscodeCodec::H264).with_container(TranscodeContainer::Webm);
    assert!(cfg.validate().is_err());

    let ok = TranscodeConfig::new(TranscodeCodec::Vp9).with_container(TranscodeContainer::Webm);
    assert!(ok.validate().is_ok());
}

#[test]
fn unsupported_combination_names_codec_and_container() {
    let cfg = TranscodeConfig::new(TranscodeCodec::Hevc).with_container(TranscodeContainer::Webm);
    match cfg.validate() {
        Err(TranscodeError::UnsupportedCombination(m)) => {
            assert_eq!(m, "Hevc cannot be muxed into Webm")
        }
        _ => panic!("expected an unsupported combination"),
    }
}

#[test]
fn cpu_encoders_match_codecs() {
    assert_eq!(cpu_encoder(TranscodeCodec::H264), "libx264");
    assert_eq!(cpu_encoder(TranscodeCodec::Hevc), "libx265");
    assert_eq!(cpu_encoder(TranscodeCodec::Vp9), "libvpx-vp9");
    assert_eq!(cpu_encoder(TranscodeCodec::Av1), "libsvtav1");
}

#[test]
fn vp9_crf_sets_zero_bitrate() {
    let sel = select_encoder_with_hardware(TranscodeCodec::Vp9, TranscodeQuality::Crf(30), "veryfast", None);
    assert!(sel.video_args.windows(2).any(|w| w[0] == "-b:v" && w[1] == "0"));
}

#[test]
fn av1_maps_named_preset_to_number() {
    let sel = select_encoder_with_hardware(TranscodeCodec::Av1, TranscodeQuality::Crf(30), "fast", None);
    assert!(sel.video_args.windows(2).any(|w| w[0] == "-preset" && w[1] == "8"));
}

#[test]
fn vulkan_h264_uses_photoprism_device_and_upload_args() {
    let sel = select_encoder_with_hardware(
        TranscodeCodec::H264,
        TranscodeQuality::Crf(25),
        "veryfast",
        Some(HardwareAccel::Vulkan),
    );
    assert!(sel.hardware);
    assert_eq!(sel.encoder, "h264_vulkan");
    assert!(sel.input_args.windows(2).any(|w| w[0] == "-init_hw_device" && w[1] == "vulkan=vk"));
    assert!(sel.input_args.windows(2).any(|w| w[0] == "-filter_hw_device" && w[1] == "vk"));
    assert_eq!(sel.video_filter_suffix.as_deref(), Some("format=nv12,hwupload"));
    assert_eq!(sel.video_filter_suffix.as_ref().unwrap().matches("hwupload").count(), 1);
    assert!(sel.video_args.windows(2).any(|w| w[0] == "-qp" && w[1] == "25"));
}

#[test]
fn vulkan_caps_crf_at_51() {
    let sel = select_encoder_with_hardware(
        TranscodeCodec::H264,
        TranscodeQuality::Crf(70),
        "veryfast",
        Some(HardwareAccel::Vulkan),
    );
    assert_eq!(sel.video_args, vec!["-qp".to_string(), "51".to_string()]);
}

#[test]
fn hardware_request_falls_back_to_cpu_without_h264_hardware() {
    let sel = select_encoder_with_hardware(
        TranscodeCodec::Vp9,
        TranscodeQuality::Crf(30),
        "veryfast",
        Some(HardwareAccel::Vulkan),
    );
    assert!(!sel.hardware);
    assert_eq!(sel.encoder, "libvpx-vp9");
    assert!(sel.input_args.is_empty());
    assert!(sel.video_filter_suffix.is_none());
}

#[test]
fn parses_encoder_names_from_ffmpeg_output() {
    let output = "Encoders:\n V..... = Video\n ------\n V....D libx264              libx264 H.264\n V....D h264_nvenc           NVIDIA NVENC H.264\n";
    let av = AvailableEncoders::from_ffmpeg_encoders_output(output);
    assert!(av.contains("libx264"));
    assert!(av.contains("h264_nvenc"));
    assert!(!av.contains("Video"));
}

#[test]
fn auto_picks_nvenc_when_available_for_h264() {
    let resolved = resolve_hw_encoder(TranscodeCodec::H264, HwAccel::Auto, &nvenc_only()).unwrap();
    assert_eq!(resolved.map(|r| r.encoder), Some("h264_nvenc"), "Auto must select h264_nvenc when present");
}

#[test]
fn auto_falls_back_to_cpu_when_no_hardware() {
    let cpu_only = AvailableEncoders::from_names(names(&["libx264", "libx265"]));
    let resolved = resolve_hw_encoder(TranscodeCodec::H264, HwAccel::Auto, &cpu_only).unwrap();
    assert!(resolved.is_none(), "Auto with no hardware must yield CPU");
}

#[test]
fn auto_skips_families_without_an_available_encoder() {
    let qsv = AvailableEncoders::from_names(names(&["hevc_qsv", "hevc_amf"]));
    let resolved = resolve_hw_encoder(TranscodeCodec::Hevc, HwAccel::Auto, &qsv).unwrap().unwrap();
    assert_eq!(resolved.family, HwFamily::Qsv);
    assert_eq!(resolved.encoder, "hevc_qsv");
}

#[test]
fn forced_unavailable_backend_errors() {
    let cpu_only = AvailableEncoders::from_names(names(&["libx264"]));
    let err = resolve_hw_encoder(TranscodeCodec::H264, HwAccel::Nvenc, &cpu_only).unwrap_err();
    assert!(matches!(err, TranscodeError::HardwareAccelUnavailable(_)));
    match err {
        TranscodeError::HardwareAccelUnavailable(m) => {
            assert_eq!(m, "h264_nvenc (Nvenc) is not available in this ffmpeg build")
        }
        _ => unreachable!(),
    }
}

#[test]
fn forced_backend_without_codec_encoder_errors() {
    let err = resolve_hw_encoder(TranscodeCodec::Vp9, HwAccel::Amf, &nvenc_only()).unwrap_err();
    match err {
        TranscodeError::HardwareAccelUnavailable(m) => assert_eq!(m, "Amf has no hardware encoder for Vp9"),
        _ => panic!("expected an unavailable accelerator"),
    }
}

#[test]
fn none_preference_uses_cpu() {
    let resolved = resolve_hw_encoder(TranscodeCodec::H264, HwAccel::Cpu, &nvenc_only()).unwrap();
    assert!(resolved.is_none());
}

#[test]
fn nvenc_crf_maps_to_cq() {
    let args = hw_rate_control_args(HwFamily::Nvenc, TranscodeQuality::Crf(28));
    assert!(args.windows(2).any(|w| w[0] == "-cq" && w[1] == "28"));
}

#[test]
fn qsv_crf_maps_to_global_quality() {
    let args = hw_rate_control_args(HwFamily::Qsv, TranscodeQuality::Crf(24));
    assert!(args.windows(2).any(|w| w[0] == "-global_quality" && w[1] == "24"));
}

#[test]
fn amf_bitrate_uses_vbr_latency() {
    let args = hw_rate_control_args(HwFamily::Amf, TranscodeQuality::Bitrate(2500));
    assert_eq!(args, vec!["-rc", "vbr_latency", "-b:v", "2500k", "-pix_fmt", "yuv420p"]);
}

#[test]
fn max_dimension_emits_scale_filter() {
    let gen = TranscodeGenerator::new_with_hardware(
        TranscodeConfig::new(TranscodeCodec::H264).with_resolution(TranscodeResolution::MaxDimension(480)),
        None,
    );
    let vf = gen.video_filter(None).unwrap();
    assert!(vf.contains("480"));
    assert!(vf.contains("force_divisible_by=2"));
}

#[test]
fn h264_args_use_libx264_and_crf() {
    let gen = TranscodeGenerator::new_with_hardware(
        TranscodeConfig::new(TranscodeCodec::H264).with_quality(TranscodeQuality::Crf(20)),
        None,
    );
    let args = gen.build_ffmpeg_args("in.mp4", "out.mp4").unwrap();
    assert!(args.windows(2).any(|w| w[0] == "-c:v" && w[1] == "libx264"));
    assert!(args.windows(2).any(|w| w[0] == "-crf" && w[1] == "20"));
    assert!(args.contains(&"+faststart".to_string()));
}

#[test]
fn webm_uses_opus_audio() {
    let gen = TranscodeGenerator::new_with_hardware(
        TranscodeConfig::new(TranscodeCodec::Vp9).with_container(TranscodeContainer::Webm),
        None,
    );
    let args = gen.build_ffmpeg_args("in.mp4", "out.webm").unwrap();
    assert!(args.windows(2).any(|w| w[0] == "-c:a" && w[1] == "libopus"));
    assert!(!args.contains(&"+faststart".to_string()));
}

#[test]
fn hardware_h264_args_use_vulkan_upload_pipeline_when_available() {
    let mut cfg = TranscodeConfig::new(TranscodeCodec::H264)
        .with_resolution(TranscodeResolution::MaxDimension(720))
        .with_quality(TranscodeQuality::Crf(25));
    cfg.use_hardware_accel = true;
    let gen = TranscodeGenerator::new_with_hardware(cfg, Some(HardwareAccel::Vulkan));
    let args = gen.build_ffmpeg_args("in.mp4", "out.mp4").unwrap();
    assert!(args.windows(2).any(|w| w[0] == "-init_hw_device" && w[1] == "vulkan=vk"));
    assert!(args.windows(2).any(|w| w[0] == "-filter_hw_device" && w[1] == "vk"));
    assert!(args.windows(2).any(|w| w[0] == "-c:v" && w[1] == "h264_vulkan"));
    let vf = args.windows(2).find(|w| w[0] == "-vf").map(|w| w[1].clone()).expect("video filter");
    assert!(vf.contains("format=nv12,hwupload"));
    assert_eq!(vf.matches("hwupload").count(), 1);
}

#[test]
fn exact_scale_filter_and_full_argument_vector() {
    let gen = TranscodeGenerator::new_with_hardware(
        TranscodeConfig::new(TranscodeCodec::Hevc)
            .with_container(TranscodeContainer::Mkv)
            .with_resolution(TranscodeResolution::Scale { width: 1280, height: 720 })
            .with_quality(TranscodeQuality::Bitrate(3000)),
        None,
    );
    let args = gen.build_ffmpeg_args("a.mov", "b.mkv").unwrap();
    let expected = vec![
        "-y", "-i", "a.mov", "-vf", "scale=1280:720", "-c:v", "libx265", "-preset", "veryfast", "-b:v",
        "3000k", "-pix_fmt", "yuv420p", "-c:a", "aac", "-b:a", "128k", "b.mkv",
    ];
    assert_eq!(args, expected);
}

#[test]
fn explicit_backend_uses_listed_encoders() {
    let mut cfg = TranscodeConfig::new(TranscodeCodec::H264);
    cfg.hw_accel = HwAccel::Nvenc;
    let gen = TranscodeGenerator::new(cfg, None, nvenc_only());
    let args = gen.build_ffmpeg_args("in.mp4", "out.mp4").unwrap();
    assert!(args.windows(2).any(|w| w[0] == "-c:v" && w[1] == "h264_nvenc"));
    assert!(args.windows(2).any(|w| w[0] == "-cq" && w[1] == "23"));
}

#[test]
fn cpu_fallback_forces_the_cpu_encoder() {
    let mut cfg = TranscodeConfig::new(TranscodeCodec::H264);
    cfg.use_hardware_accel = true;
    let gen = TranscodeGenerator::new(cfg, Some(HardwareAccel::Vulkan), AvailableEncoders::empty());
    assert!(gen.retries_on_cpu(&TranscodeError::FFmpegProcessFailed(1)));
    assert!(!gen.retries_on_cpu(&TranscodeError::FFmpegNotFound));
    let cpu = gen.cpu_fallback();
    let args = cpu.build_ffmpeg_args("in.mp4", "out.mp4").unwrap();
    assert!(args.windows(2).any(|w| w[0] == "-c:v" && w[1] == "libx264"));
    assert!(!cpu.retries_on_cpu(&TranscodeError::FFmpegProcessFailed(1)));
}

#[test]
fn legend_rows_of_ffmpeg_output_name_no_encoder() {
    let output = "Encoders:\n V..... = Video\n A..... = Audio\n ------\n A....D aac                  AAC\n";
    let av = AvailableEncoders::from_ffmpeg_encoders_output(output);
    assert!(!av.contains("="));
    assert!(av.contains("aac"));
    assert!(!AvailableEncoders::from_ffmpeg_encoders_output(" V..... = Video\n").contains("="));
}
