use tool_recap_rust::voicestudio::{startup_plan, StartupPlan};
use tool_recap_rust::voicestudio::{startup_step, StartupStep};
use tool_recap_rust::updater::{failure_rollback, ApplyFault};
use tool_recap_rust::analyzer::reply_content;
use tool_recap_rust::media::append_limited;
use tool_recap_rust::analyzer::{chat_endpoint, prepare_analysis, strip_code_fence};
use tool_recap_rust::config::Settings;
use tool_recap_rust::input::{
    classify_input, folder_videos, is_supported_video, key_less, natural_key, natural_order, push_part, text_key,
    DirEntryInfo, InputError, InputKind, NaturalPart,
};
use tool_recap_rust::media::{
    concat_list, ensure_file, ffmpeg_filter_path, gpu_ffmpeg_missing, gpu_probe, gpu_ready_status,
    gpu_tested, gpu_unavailable_message, nvdec_decoder, render_decoder, stderr_text,
    CancellationToken, GpuCapabilities, NvencTest,
};
use tool_recap_rust::model::{video_extension_list, EpisodeStage, MediaInfo, RecapPlan, RecapSegment};
use tool_recap_rust::paths::{join, required_dirs, AppPaths};
use tool_recap_rust::pipeline::{
    compact_error, episode_output_name, episode_title, failure_outcome, multi_cue_srt, numbered_file_name,
    one_cue_srt, safe_component, safe_filename, safe_filename_fits, srt_time_ms, BatchRun,
    BatchStep, BatchSummary, EpisodeOutcome,
};
use tool_recap_rust::ui::{finish_report, queue_ready_status, start_decision, NoticeTone, StartDecision};
use tool_recap_rust::update::{
    ffmpeg_pin_path, hex_string, parse_release_version, portable_runtime_versions, release_download_urls, release_offer,
    release_version_text, verify_checksum, voicestudio_pin_path, ReleaseAsset, Sha256Stream,
};
use tool_recap_rust::updater::{arg_value, is_preserved_component, rollback_plan, RollbackStep};
use tool_recap_rust::voicestudio::{
    default_voice, find_job, get_member, job_failure, model_is_installed, port_from_url,
    service_url, speech_retry_delay, speech_voice, voices_or_default, JsonValue, VoiceChoice,
};

fn s(v: &str) -> String {
    v.to_string()
}

// ---------------------------------------------------------------- analysis

#[test]
fn endpoint_keeps_full_chat_path_and_trims() {
    assert_eq!(chat_endpoint("  http://h/v1/chat/completions/// "), "http://h/v1/chat/completions");
    assert_eq!(chat_endpoint("http://h"), "http://h/chat/completions");
}

#[test]
fn endpoint_normalisation_is_idempotent_on_examples() {
    for base in ["http://localhost:1234/v1/", " x ", "http://h/chat/completions", ""] {
        let once = chat_endpoint(base);
        assert_eq!(chat_endpoint(&once), once);
    }
}

#[test]
fn fence_stripping_cases() {
    assert_eq!(strip_code_fence("  {\"a\":2}  "), "{\"a\":2}");
    assert_eq!(strip_code_fence("```\n  body  \n```"), "body");
    assert_eq!(strip_code_fence("```json no newline```"), "```json no newline");
    assert_eq!(strip_code_fence("```\nno closing"), "no closing");
}

fn ready_settings() -> Settings {
    let mut settings = Settings::default();
    settings.api_key = s("  secret  ");
    settings
}

fn media() -> MediaInfo {
    MediaInfo { duration_ms: 61234, width: 1920, height: 1080, video_codec: s("h264") }
}

#[test]
fn analysis_request_is_prepared_from_settings() {
    let req = prepare_analysis(&ready_settings(), "ep1.mp4", &media(), "[0.000-1.000] hi").unwrap();
    assert_eq!(req.endpoint, "http://127.0.0.1:20128/v1/chat/completions");
    assert_eq!(req.model, "gpt-5.6-sol");
    assert!(req.system_prompt.starts_with("You are a precise video recap editor. Return JSON only. Create concise English narration"));
    assert!(req.system_prompt.ends_with("Do not add markdown."));
    assert_eq!(
        req.user_prompt,
        "SOURCE: ep1.mp4\nDURATION_MS: 61234\nVIDEO_CODEC: h264\nSIZE: 1920x1080\n\nTIMESTAMPED TRANSCRIPT:\n[0.000-1.000] hi"
    );
    assert_eq!(req.bearer.as_deref(), Some("secret"));
}

#[test]
fn analysis_without_key_sends_no_bearer() {
    let req = prepare_analysis(&Settings::default(), "x", &media(), "").unwrap();
    assert!(req.bearer.is_none());
}

#[test]
fn analysis_refused_without_endpoint_or_model() {
    let mut settings = Settings::default();
    settings.api_model = s("   ");
    let err = prepare_analysis(&settings, "x", &media(), "").unwrap_err();
    assert_eq!(err, "AI API endpoint and model must be configured before Start.");
    let mut settings = Settings::default();
    settings.api_endpoint = String::new();
    assert!(prepare_analysis(&settings, "x", &media(), "").is_err());
}

#[test]
fn default_settings_values() {
    let d = Settings::default();
    assert_eq!(d.api_endpoint, "http://127.0.0.1:20128/v1");
    assert_eq!(d.voicestudio_url, "http://127.0.0.1:3900");
    assert_eq!(d.output_subdirectory, "recaps_da_render");
    assert!(!d.burn_subtitles && d.notify_complete && d.check_updates_on_start);
    assert!(d.api_key.is_empty() && d.last_input_directory.is_empty());
}

// ---------------------------------------------------------------- plans

fn seg(start_ms: u64, end_ms: u64, narration: &str) -> RecapSegment {
    RecapSegment { start_ms, end_ms, narration: s(narration) }
}

#[test]
fn plan_validation_messages() {
    let plan = |title: &str, segments: Vec<RecapSegment>| RecapPlan { title: s(title), segments };
    assert_eq!(plan(" ", vec![seg(0, 1, "a")]).validate(10).unwrap_err(), "Analysis returned an empty title.");
    assert_eq!(plan("T", vec![]).validate(10).unwrap_err(), "Analysis returned no recap segments.");
    assert_eq!(plan("T", vec![seg(0, 1, "  ")]).validate(10).unwrap_err(), "Segment 1 has empty narration.");
    assert_eq!(plan("T", vec![seg(0, 1, "a"), seg(5, 5, "b")]).validate(10).unwrap_err(), "Segment 2 has an invalid time range.");
    assert_eq!(plan("T", vec![seg(0, 1001, "a")]).validate(750).unwrap_err(), "Segment 1 ends outside the source video.");
    assert_eq!(plan("T", vec![seg(0, 1000, "a")]).validate(750), Ok(()));
    assert_eq!(plan("T", vec![seg(0, 10, "a"), seg(20, 30, "b")]).validate(100), Ok(()));
    assert_eq!(plan("T", vec![seg(0, 10, "a"), seg(10, 20, "b")]).validate(100), Ok(()));
}

#[test]
fn plan_end_limit_saturates() {
    let plan = RecapPlan { title: s("T"), segments: vec![seg(0, u64::MAX, "a")] };
    assert_eq!(plan.validate(u64::MAX - 10), Ok(()));
}

#[test]
fn valid_plans_are_chronological_example() {
    let plan = RecapPlan { title: s("T"), segments: vec![seg(0, 10, "a"), seg(10, 20, "b"), seg(25, 40, "c")] };
    assert!(plan.validate(40).is_ok());
    for pair in plan.segments.windows(2) {
        assert!(pair[0].start_ms < pair[0].end_ms && pair[0].end_ms <= pair[1].start_ms);
    }
}

#[test]
fn stage_labels() {
    assert_eq!(EpisodeStage::Preparing.label(), "Preparing voice/video");
    assert_eq!(EpisodeStage::Waiting.label(), "Waiting");
    assert_eq!(EpisodeStage::Failed.label(), "Failed");
}

#[test]
fn extension_list_order() {
    assert_eq!(video_extension_list(), vec!["mp4", "mkv", "mov", "avi", "webm", "m4v", "ts"]);
}

// ---------------------------------------------------------------- input

#[test]
fn supported_video_checks_file_and_extension_case() {
    assert!(is_supported_video(true, Some("MP4")));
    assert!(is_supported_video(true, Some("ts")));
    assert!(!is_supported_video(false, Some("mp4")));
    assert!(!is_supported_video(true, None));
    assert!(!is_supported_video(true, Some("txt")));
}

#[test]
fn classify_input_cases() {
    assert_eq!(classify_input(true, false, Some("mkv")), Ok(InputKind::SingleVideo));
    assert_eq!(classify_input(true, false, Some("srt")), Err(InputError::UnsupportedFile));
    assert_eq!(classify_input(false, false, None), Err(InputError::Missing));
    assert_eq!(classify_input(false, true, None), Ok(InputKind::Folder));
    assert_eq!(InputError::UnsupportedFile.message(), "The selected file is not a supported video.");
    assert_eq!(InputError::Missing.message(), "The selected input does not exist.");
    assert_eq!(InputError::NoVideos.message(), "No supported videos were found directly inside the selected folder.");
}

fn entry(name: &str, is_file: bool, extension: Option<&str>) -> DirEntryInfo {
    DirEntryInfo { name: s(name), is_file, extension: extension.map(s) }
}

#[test]
fn folder_without_videos_is_refused() {
    let entries = vec![entry("notes.txt", true, Some("txt")), entry("clips.mp4", false, Some("mp4"))];
    assert_eq!(folder_videos(&entries), Err(InputError::NoVideos));
    assert_eq!(folder_videos(&Vec::new()), Err(InputError::NoVideos));
}

#[test]
fn folder_videos_sort_naturally_ignoring_case() {
    let entries = vec![
        entry("ep10.mp4", true, Some("mp4")),
        entry("Ep2.MKV", true, Some("MKV")),
        entry("cover.jpg", true, Some("jpg")),
        entry("ep1.mp4", true, Some("mp4")),
    ];
    assert_eq!(folder_videos(&entries), Ok(vec![3, 1, 0]));
}

#[test]
fn equal_keys_keep_listing_order() {
    let entries = vec![entry("A.mp4", true, Some("mp4")), entry("a.mp4", true, Some("mp4"))];
    assert_eq!(folder_videos(&entries), Ok(vec![0, 1]));
}

fn describe(parts: &[NaturalPart]) -> Vec<String> {
    parts.iter().map(|p| match p {
        NaturalPart::Text(t) => format!("t:{t}"),
        NaturalPart::Number(n) => format!("n:{n}"),
    }).collect()
}

#[test]
fn natural_key_splits_digit_runs_and_lowercases() {
    assert_eq!(describe(&natural_key("Ep10b.MP4")), vec!["t:ep", "n:10", "t:b.mp", "n:4"]);
    assert_eq!(describe(&natural_key("007")), vec!["n:7"]);
    assert!(natural_key("").is_empty());
}

#[test]
fn natural_key_order_is_strict_and_total_on_examples() {
    let names = ["ep2", "ep10", "Ep1", "ep1a", "ep", "10"];
    let keys: Vec<_> = names.iter().map(|n| natural_key(n)).collect();
    for (i, a) in keys.iter().enumerate() {
        assert!(!key_less(a, a));
        for (j, b) in keys.iter().enumerate() {
            if i != j {
                assert!(key_less(a, b) != key_less(b, a), "{} vs {}", names[i], names[j]);
            }
        }
    }
    assert!(key_less(&natural_key("ep2"), &natural_key("ep10")));
    // Text parts sort before number parts.
    assert!(key_less(&natural_key("ep"), &natural_key("10")));
}

#[test]
fn natural_order_is_stable_permutation() {
    let keys: Vec<_> = ["b2", "a", "b10", "A", "b2"].iter().map(|n| natural_key(n)).collect();
    assert_eq!(natural_order(&keys), vec![1, 3, 0, 4, 2]);
}

// ---------------------------------------------------------------- media

fn probed() -> GpuCapabilities {
    gpu_probe(
        " V....D h264_nvenc  NVIDIA NVENC H.264 encoder\n",
        " V..... h264_cuvid\n V..... hevc_cuvid\n",
        Some("NVIDIA GeForce RTX 4090 , 555.85\r\nsecond line\n"),
    )
}

#[test]
fn gpu_probe_reads_tool_outputs() {
    let g = probed();
    assert!(!g.available);
    assert!(g.nvenc_h264);
    assert_eq!(g.gpu_name, "NVIDIA GeForce RTX 4090");
    assert_eq!(g.driver_version, "555.85");
    assert_eq!(g.nvdec_codecs, vec![s("h264_cuvid"), s("hevc_cuvid")]);
    assert_eq!(g.reason, "");
}

#[test]
fn gpu_probe_without_nvenc_or_smi() {
    let g = gpu_probe("libx264", "", None);
    assert!(!g.nvenc_h264 && !g.available);
    assert_eq!(g.gpu_name, "NVIDIA GPU");
    assert_eq!(g.driver_version, "");
    assert!(g.nvdec_codecs.is_empty());
    assert_eq!(g.reason, "Bundled FFmpeg does not expose h264_nvenc.");
    let tested = gpu_tested(g, NvencTest::Passed);
    assert!(!tested.available);
    assert_eq!(tested.reason, "Bundled FFmpeg does not expose h264_nvenc.");
}

#[test]
fn gpu_test_outcomes() {
    let ok = gpu_tested(probed(), NvencTest::Passed);
    assert!(ok.available);
    assert_eq!(ok.reason, "H.264 NVENC hardware test passed.");
    let hw = gpu_tested(probed(), NvencTest::HardwareFailed(s("no device")));
    assert!(!hw.available);
    assert_eq!(hw.reason, "NVENC is present but the hardware test failed: no device");
    let run = gpu_tested(probed(), NvencTest::CouldNotRun(s("spawn failed")));
    assert_eq!(run.reason, "NVENC test failed: spawn failed");
}

#[test]
fn gpu_status_texts() {
    assert_eq!(
        gpu_ready_status(&probed()),
        "GPU ready: NVIDIA GeForce RTX 4090 / driver 555.85 • H.264 NVENC • NVDEC h264_cuvid, hevc_cuvid"
    );
    let bare = gpu_probe("h264_nvenc", "", None);
    assert_eq!(gpu_ready_status(&bare), "GPU ready: NVIDIA GPU • H.264 NVENC • NVDEC not available");
    assert_eq!(gpu_unavailable_message("driver too old"), "NVIDIA RTX rendering is unavailable: driver too old");
    let missing = gpu_ffmpeg_missing();
    assert!(!missing.available);
    assert_eq!(missing.reason, "Bundled FFmpeg is missing.");
}

#[test]
fn decoder_choice_needs_listed_nvdec() {
    let g = probed();
    assert_eq!(render_decoder("H264", &g), Some("h264_cuvid"));
    assert_eq!(render_decoder("h265", &g), Some("hevc_cuvid"));
    assert_eq!(render_decoder("av1", &g), None);
    assert_eq!(nvdec_decoder("av1"), Some("av1_cuvid"));
    assert_eq!(nvdec_decoder("MPEG2VIDEO"), Some("mpeg2_cuvid"));
    assert_eq!(render_decoder("prores", &g), None);
}

#[test]
fn filter_path_escapes_quote_and_colon() {
    assert_eq!(ffmpeg_filter_path("/tmp/it's:1.srt"), "/tmp/it\\'s\\:1.srt");
}

#[test]
fn concat_list_lines() {
    assert_eq!(concat_list(&Vec::new()), Err(s("No rendered segments to concatenate.")));
    assert_eq!(
        concat_list(&vec![s("C:\\w\\it's.mp4"), s("/b.mp4")]),
        Ok(s("file 'C:/w/it'\\''s.mp4'\nfile '/b.mp4'\n"))
    );
}

#[test]
fn stderr_is_trimmed_and_bounded() {
    assert_eq!(stderr_text("  boom \n"), "boom");
    let long = "é".repeat(1500);
    assert_eq!(stderr_text(&long).chars().count(), 1200);
}

#[test]
fn missing_tool_message() {
    assert_eq!(ensure_file(true, "FFmpeg", "/x"), Ok(()));
    assert_eq!(ensure_file(false, "FFmpeg", "/x"), Err(s("FFmpeg is missing: /x")));
}

#[test]
fn cancellation_is_shared_between_clones() {
    let token = CancellationToken::new();
    let other = token.clone();
    assert!(!token.is_cancelled());
    assert_eq!(token.check(), Ok(()));
    other.cancel();
    assert!(token.is_cancelled());
    assert_eq!(token.check(), Err(s("Stopped by user")));
    token.reset();
    assert!(!other.is_cancelled());
}

// ---------------------------------------------------------------- pipeline

#[test]
fn srt_time_from_milliseconds() {
    assert_eq!(srt_time_ms(61_234), "00:01:01,234");
    assert_eq!(srt_time_ms(0), "00:00:00,000");
    assert_eq!(srt_time_ms(25 * 3_600_000 + 5), "25:00:00,005");
}

#[test]
fn subtitle_files() {
    assert_eq!(one_cue_srt("  hello \n", 1500), "1\n00:00:00,000 --> 00:00:01,500\nhello\n");
    let rows = vec![(0, 1000, s("a")), (1000, 2500, s(" b "))];
    assert_eq!(
        multi_cue_srt(&rows),
        "1\n00:00:00,000 --> 00:00:01,000\na\n\n2\n00:00:01,000 --> 00:00:02,500\nb\n"
    );
    assert_eq!(multi_cue_srt(&[]), "");
}

#[test]
fn compact_error_collapses_and_bounds() {
    assert_eq!(compact_error("  a\n\n  b\tc  "), "a b c");
    let long = "word ".repeat(200);
    let out = compact_error(&long);
    assert_eq!(out.chars().count(), 500);
    assert!(out.starts_with("word word"));
}

#[test]
fn numbered_names_pad_to_three() {
    assert_eq!(numbered_file_name("segment_", 7, ".mp4"), "segment_007.mp4");
    assert_eq!(numbered_file_name("voice_", 42, ".wav"), "voice_042.wav");
    assert_eq!(numbered_file_name("x", 1234, ""), "x1234");
}

#[test]
fn episode_titles_and_output_names() {
    assert_eq!(episode_title("Ep1", "  The Heist "), "Ep1 - The Heist");
    assert_eq!(episode_title("Ep1", " \t"), "Ep1");
    assert_eq!(episode_output_name("Ep1", "A:B"), Some(s("Ep1 - A_B.mp4")));
}

#[test]
fn safe_filename_edge_cases() {
    assert_eq!(safe_filename("  ...  "), "recap");
    assert_eq!(safe_filename(""), "recap");
    assert_eq!(safe_filename("a\tb"), "a_b");
    assert_eq!(safe_filename(". name ."), "name");
    assert_eq!(safe_filename("x   y"), "x y");
    assert_eq!(safe_filename(&"z".repeat(200)).len(), 120);
    assert_eq!(safe_component("<>"), "__");
}

#[test]
fn truncation_inside_a_character_is_detected() {
    let name = format!("{}é tail", "a".repeat(119));
    assert!(!safe_filename_fits(&name));
    assert!(episode_output_name(&name, "").is_none());
    assert!(safe_filename_fits(&"a".repeat(300)));
}

#[test]
fn batch_runs_in_order_and_stops_at_first_failure() {
    let mut run = BatchRun::new(3);
    assert_eq!(run.next_step(false), BatchStep::Process(0));
    assert_eq!(run.record(EpisodeOutcome::Completed), None);
    assert_eq!(run.next_step(false), BatchStep::Process(1));
    assert_eq!(run.record(EpisodeOutcome::Failed), Some(BatchSummary { completed: 1, failed: 1, stopped: false }));
}

#[test]
fn batch_completes_and_stop_is_reported() {
    let mut run = BatchRun::new(2);
    for i in 0..2 {
        assert_eq!(run.next_step(false), BatchStep::Process(i));
        assert_eq!(run.record(EpisodeOutcome::Completed), None);
    }
    assert_eq!(run.next_step(false), BatchStep::Finish(BatchSummary { completed: 2, failed: 0, stopped: false }));
    assert_eq!(run.next_step(true), BatchStep::Finish(BatchSummary { completed: 2, failed: 0, stopped: true }));
    let mut run = BatchRun::new(4);
    assert_eq!(run.next_step(false), BatchStep::Process(0));
    assert_eq!(run.record(EpisodeOutcome::Stopped), Some(BatchSummary { completed: 0, failed: 0, stopped: true }));
}

#[test]
fn batch_without_gpu() {
    assert_eq!(BatchRun::unavailable(0), BatchSummary { completed: 0, failed: 0, stopped: false });
    assert_eq!(BatchRun::unavailable(5), BatchSummary { completed: 0, failed: 1, stopped: false });
}

// ---------------------------------------------------------------- window decisions

fn gpu(available: bool, reason: &str) -> GpuCapabilities {
    GpuCapabilities {
        available,
        gpu_name: s("RTX"),
        driver_version: String::new(),
        nvenc_h264: available,
        nvdec_codecs: Vec::new(),
        reason: s(reason),
    }
}

#[test]
fn start_decisions() {
    let settings = Settings::default();
    let ready = gpu(true, "ok");
    assert!(matches!(start_decision(true, 2, Some(&ready), &settings), StartDecision::Ignore));
    assert!(matches!(start_decision(false, 0, Some(&ready), &settings), StartDecision::Ignore));
    match start_decision(false, 2, None, &settings) {
        StartDecision::GpuUnavailable(r) => assert_eq!(r, "GPU check is still running."),
        other => panic!("{other:?}"),
    }
    match start_decision(false, 2, Some(&gpu(false, "no NVENC")), &settings) {
        StartDecision::GpuUnavailable(r) => assert_eq!(r, "no NVENC"),
        other => panic!("{other:?}"),
    }
    let mut blank = Settings::default();
    blank.api_endpoint = s("  ");
    assert!(matches!(start_decision(false, 2, Some(&ready), &blank), StartDecision::ApiNotConfigured));
    assert!(matches!(start_decision(false, 2, Some(&ready), &settings), StartDecision::Start));
}

#[test]
fn finish_reports() {
    let r = finish_report(BatchSummary { completed: 2, failed: 0, stopped: true }, true);
    assert_eq!(r.status, "Stopped. Start is available again.");
    assert_eq!(r.title, "Processing stopped");
    assert_eq!(r.body, "2 episode(s) completed before Stop.");
    assert_eq!(r.tone, NoticeTone::Warning);
    assert!(r.native_body.is_none());

    let r = finish_report(BatchSummary { completed: 1, failed: 1, stopped: false }, true);
    assert_eq!(r.status, "Processing failed. Start is available again.");
    assert_eq!(r.body, "1 completed, 1 failed.");
    assert_eq!(r.tone, NoticeTone::Danger);

    let r = finish_report(BatchSummary { completed: 3, failed: 0, stopped: false }, true);
    assert_eq!(r.status, "All episodes completed.");
    assert_eq!(r.title, "Recap production complete");
    assert_eq!(r.body, "Rendered 3 episode(s) successfully.");
    assert_eq!(r.tone, NoticeTone::Success);
    assert_eq!(r.native_body.as_deref(), Some("Rendered 3 episode(s)."));
    assert!(finish_report(BatchSummary { completed: 3, failed: 0, stopped: false }, false).native_body.is_none());
}

#[test]
fn queue_status_text() {
    assert_eq!(queue_ready_status(3), "3 video(s) detected and ready.");
    assert_eq!(queue_ready_status(0), "0 video(s) detected and ready.");
}

// ---------------------------------------------------------------- paths

#[test]
fn portable_layout_on_unix_and_windows() {
    let p = AppPaths::under_root("/opt/app", false);
    assert_eq!(p.data, "/opt/app/data");
    assert_eq!(p.settings, "/opt/app/data/settings.json");
    assert_eq!(p.ffmpeg, "/opt/app/runtime/ffmpeg/bin/ffmpeg");
    assert_eq!(p.voicestudio_backend, "/opt/app/runtime/voicestudio/backend/omnivoice-backend");
    let w = AppPaths::under_root("C:\\tool\\", true);
    assert_eq!(w.data, "C:\\tool\\data");
    assert_eq!(w.ffprobe, "C:\\tool\\runtime\\ffmpeg\\bin\\ffprobe.exe");
    assert_eq!(w.voicestudio_backend, "C:\\tool\\runtime\\voicestudio\\backend\\omnivoice-backend.exe");
    assert_eq!(join("", "x", false), "x");
    assert_eq!(join("a/", "x", true), "a/x");
}

#[test]
fn data_folders() {
    let p = AppPaths::under_root("/r", false);
    assert_eq!(
        required_dirs(&p, false),
        vec![s("/r/data"), s("/r/data/cache"), s("/r/data/jobs"), s("/r/data/models"), s("/r/data/updates"), s("/r/data/logs")]
    );
}

// ---------------------------------------------------------------- updates

#[test]
fn sha256_of_known_inputs() {
    let mut h = Sha256Stream::new();
    h.feed(b"a");
    h.feed(b"bc");
    assert_eq!(h.finish_hex(), "ba7816bf8f01cfea414140de5dae2223b00361a396177a9cb410ff61f20015ad");
    assert_eq!(Sha256Stream::new().finish_hex(), "e3b0c44298fc1c149afbf4c8996fb92427ae41e4649b934ca495991b7852b855");
}

#[test]
fn hex_is_lower_case_two_digits_per_byte() {
    assert_eq!(hex_string(&[0x00, 0xab, 0x0f, 0xff]), "00ab0fff");
    assert_eq!(hex_string(&[]), "");
}

#[test]
fn checksum_comparison() {
    assert_eq!(verify_checksum("ABC123  tool.zip\n", "abc123"), Ok(()));
    assert_eq!(verify_checksum("\n  abc123", "abc123"), Ok(()));
    // The expected digest is lower-cased; the actual one is compared as given.
    assert_eq!(
        verify_checksum("abc123", "ABC123"),
        Err(s("Update checksum mismatch. Existing installation was not changed."))
    );
    assert_eq!(verify_checksum("   \n", "abc"), Err(s("Invalid checksum file")));
    assert_eq!(
        verify_checksum("abc124 tool.zip", "abc123"),
        Err(s("Update checksum mismatch. Existing installation was not changed."))
    );
}

fn asset(name: &str, url: &str) -> ReleaseAsset {
    ReleaseAsset { name: s(name), browser_download_url: s(url) }
}

#[test]
fn release_assets() {
    let zip = "tool-recap-rust-windows-portable.zip";
    let sum = "tool-recap-rust-windows-portable.zip.sha256";
    let assets = vec![asset("notes.txt", "u0"), asset(sum, "u1"), asset(zip, "u2"), asset(zip, "u3")];
    assert_eq!(release_download_urls("v1.2.0", &assets), Ok((s("u2"), s("u1"))));
    assert_eq!(
        release_download_urls("v1.2.0", &vec![asset(sum, "u1")]),
        Err(s("Release v1.2.0 has no portable Windows ZIP."))
    );
    assert_eq!(
        release_download_urls("v1.2.0", &vec![asset(zip, "u2")]),
        Err(s("Release v1.2.0 has no SHA-256 checksum."))
    );
    assert_eq!(release_version_text("vv1.2.3"), "1.2.3");
    assert_eq!(release_version_text("1.0"), "1.0");
}

#[test]
fn runtime_pin_paths() {
    let p = AppPaths::under_root("/opt/app", false);
    assert_eq!(voicestudio_pin_path(&p, false), "/opt/app/runtime/voicestudio/version.json");
    assert_eq!(ffmpeg_pin_path(&p, false), "/opt/app/runtime/ffmpeg/VERSION.txt");
    let both = portable_runtime_versions(&p, false, true, true);
    assert_eq!(both, vec![
        (s("VoiceStudio pin"), s("/opt/app/runtime/voicestudio/version.json")),
        (s("FFmpeg pin"), s("/opt/app/runtime/ffmpeg/VERSION.txt")),
    ]);
    assert_eq!(portable_runtime_versions(&p, false, false, true).len(), 1);
    assert!(portable_runtime_versions(&p, false, false, false).is_empty());
}

#[test]
fn update_helper_arguments() {
    let args = vec![s("helper"), s("--source"), s("/s"), s("--target")];
    assert_eq!(arg_value(&args, "--source"), Ok(s("/s")));
    assert_eq!(arg_value(&args, "--target"), Err(s("Missing value for --target")));
    assert_eq!(arg_value(&args, "--pid"), Err(s("Missing --pid")));
    let repeated = vec![s("--pid"), s("1"), s("--pid"), s("2")];
    assert_eq!(arg_value(&repeated, "--pid"), Ok(s("1")));
}

#[test]
fn data_folder_is_preserved() {
    assert!(is_preserved_component("data"));
    assert!(is_preserved_component("DATA"));
    assert!(!is_preserved_component("database"));
    assert!(!is_preserved_component("runtime"));
}

#[test]
fn rollback_undoes_newest_first() {
    assert_eq!(
        rollback_plan(&vec![true, false, true]),
        vec![RollbackStep::Restore(2), RollbackStep::Remove(1), RollbackStep::Restore(0)]
    );
    assert!(rollback_plan(&Vec::new()).is_empty());
}

// ---------------------------------------------------------------- VoiceStudio

#[test]
fn voicestudio_port() {
    assert_eq!(port_from_url("http://127.0.0.1:3900"), 3900);
    assert_eq!(port_from_url("http://localhost:4123/"), 4123);
    assert_eq!(port_from_url("http://localhost"), 3900);
    assert_eq!(port_from_url("http://h:70000"), 3900);
    assert_eq!(port_from_url("http://h:+81"), 81);
    assert_eq!(port_from_url("http://h:8a"), 3900);
}

#[test]
fn speech_retry_rules() {
    assert_eq!(speech_retry_delay(429, 0, None), Some(2));
    assert_eq!(speech_retry_delay(503, 3, Some("100")), Some(30));
    assert_eq!(speech_retry_delay(429, 1, Some("abc")), Some(4));
    assert_eq!(speech_retry_delay(429, 0, Some("7")), Some(7));
    assert_eq!(speech_retry_delay(429, 4, None), None);
    assert_eq!(speech_retry_delay(500, 0, None), None);
}

#[test]
fn voices_and_names() {
    assert_eq!(speech_voice("  "), "default");
    assert_eq!(speech_voice("alice"), "alice");
    let v = |id: &str, name: &str, desc: &str| VoiceChoice { voice_id: s(id), name: s(name), language: s("en"), description: s(desc) };
    assert_eq!(v("a", "Alice", "warm").display_name(), "Alice");
    assert_eq!(v("a", " ", "warm").display_name(), "a — warm");
    assert_eq!(v("a", "", "").display_name(), "a");
    let d = default_voice();
    assert_eq!((d.voice_id.as_str(), d.name.as_str()), ("default", "VoiceStudio Default"));
    let listed = voices_or_default(Vec::new());
    assert_eq!(listed.len(), 1);
    assert_eq!(listed[0].voice_id, "default");
    assert_eq!(voices_or_default(vec![v("b", "B", "")])[0].voice_id, "b");
}

fn obj(members: Vec<(&str, JsonValue)>) -> JsonValue {
    JsonValue::Object(members.into_iter().map(|(k, v)| (s(k), v)).collect())
}

#[test]
fn installed_flags_and_status() {
    assert!(model_is_installed(&obj(vec![("status", JsonValue::Str(s("ready")))])));
    assert!(model_is_installed(&obj(vec![("installed", JsonValue::Bool(true))])));
    assert!(!model_is_installed(&obj(vec![("installed", JsonValue::Bool(false)), ("status", JsonValue::Str(s("queued")))])));
    assert!(!model_is_installed(&JsonValue::Null));
    assert!(matches!(get_member(&obj(vec![("n", JsonValue::Number)]), "n"), Some(JsonValue::Number)));
}

#[test]
fn install_jobs() {
    let jobs = vec![
        obj(vec![("repo_id", JsonValue::Str(s("other")))]),
        obj(vec![("repo_id", JsonValue::Str(s("k2-fsa/OmniVoice"))), ("state", JsonValue::Str(s("failed"))), ("message", JsonValue::Str(s("disk full")))]),
    ];
    assert_eq!(find_job(&jobs, "k2-fsa/OmniVoice"), Some(1));
    assert_eq!(find_job(&jobs, "missing"), None);
    assert_eq!(
        job_failure(&jobs[1], "k2-fsa/OmniVoice"),
        Some(s("VoiceStudio model install failed for k2-fsa/OmniVoice: disk full"))
    );
    let numeric_error = obj(vec![("state", JsonValue::Str(s("failed"))), ("error", JsonValue::Number), ("message", JsonValue::Str(s("ignored")))]);
    assert_eq!(job_failure(&numeric_error, "r"), Some(s("VoiceStudio model install failed for r: model download failed")));
    assert_eq!(job_failure(&jobs[0], "other"), None);
}

#[test]
fn service_urls_drop_trailing_slashes() {
    assert_eq!(service_url("http://127.0.0.1:3900//", "/v1/audio/speech"), "http://127.0.0.1:3900/v1/audio/speech");
    assert_eq!(service_url("http://h:1", "/models"), "http://h:1/models");
}

#[test]
fn errors_are_stops_when_cancelled_or_reported() {
    assert_eq!(failure_outcome(true, "disk full"), EpisodeOutcome::Stopped);
    assert_eq!(failure_outcome(false, "run ffmpeg: Stopped by user"), EpisodeOutcome::Stopped);
    assert_eq!(failure_outcome(false, "disk full"), EpisodeOutcome::Failed);
}

#[test]
fn text_key_reads_digit_runs_as_numbers() {
    assert_eq!(describe(&text_key("ep10b")), vec!["t:ep", "n:10", "t:b"]);
    assert_eq!(describe(&text_key("Ab")), vec!["t:Ab"]);
    assert_eq!(describe(&text_key("x99999999999999999999999")), vec![s("t:x"), format!("n:{}", u64::MAX)]);
}

#[test]
fn pushed_parts() {
    let mut out = Vec::new();
    let mut current = String::new();
    push_part(&mut out, &mut current, true);
    assert!(out.is_empty());
    current.push_str("0042");
    push_part(&mut out, &mut current, true);
    current.push_str("+5");
    push_part(&mut out, &mut current, true);
    current.push_str("x1");
    push_part(&mut out, &mut current, true);
    current.push_str("Ab");
    push_part(&mut out, &mut current, false);
    assert!(current.is_empty());
    assert_eq!(describe(&out), vec![s("n:42"), s("n:5"), format!("n:{}", u64::MAX), s("t:Ab")]);
}

#[test]
fn release_offers_compare_versions() {
    let zip = "tool-recap-rust-windows-portable.zip";
    let sum = "tool-recap-rust-windows-portable.zip.sha256";
    let assets = vec![asset(zip, "z"), asset(sum, "c")];
    let current = parse_release_version("1.0.0").unwrap();
    let offer = release_offer(&current, "v1.2.0", &assets).unwrap().unwrap();
    assert_eq!(offer.version.semver().to_string(), "1.2.0");
    assert_eq!((offer.zip_url.as_str(), offer.checksum_url.as_str()), ("z", "c"));
    assert!(release_offer(&current, "v1.0.0", &assets).unwrap().is_none());
    assert!(release_offer(&current, "0.9.9", &assets).unwrap().is_none());
    assert!(release_offer(&current, "v1.0.0-rc.1", &assets).unwrap().is_none());
    assert_eq!(
        release_offer(&current, "v2.0.0", &vec![asset(sum, "c")]).unwrap_err(),
        "Release v2.0.0 has no portable Windows ZIP."
    );
    assert!(release_offer(&current, "vx", &assets).unwrap_err().starts_with("parse release version vx: "));
    assert_eq!(parse_release_version("").unwrap_err(), "empty string, expected a semver version");
}

#[test]
fn rollback_plan_restores_previous_files() {
    let before: Vec<Option<Vec<u8>>> = vec![Some(b"old app".to_vec()), None, Some(b"old dll".to_vec())];
    let backed_up: Vec<bool> = before.iter().map(Option::is_some).collect();
    let mut files: Vec<Option<Vec<u8>>> = vec![Some(b"new app".to_vec()), Some(b"new file".to_vec()), Some(b"new dll".to_vec())];
    for step in rollback_plan(&backed_up) {
        match step {
            RollbackStep::Restore(i) => files[i] = before[i].clone(),
            RollbackStep::Remove(i) => files[i] = None,
        }
    }
    assert_eq!(files, before);
}

#[test]
fn voicestudio_startup_plans() {
    assert_eq!(startup_plan(true, false, "x", false, "http://h:1"), StartupPlan::AlreadyReady);
    assert_eq!(
        startup_plan(false, false, "C:\\app\\backend.exe", true, "http://h:1"),
        StartupPlan::Missing(s("VoiceStudio runtime is missing at C:\\app\\backend.exe. Use a verified portable build or run the runtime packaging script."))
    );
    assert_eq!(startup_plan(false, true, "b", true, "http://h:1"), StartupPlan::Poll);
    assert_eq!(startup_plan(false, true, "b", false, "http://127.0.0.1:4123/"), StartupPlan::Spawn(4123));
    assert_eq!(startup_plan(false, true, "b", false, "http://127.0.0.1"), StartupPlan::Spawn(3900));
}

#[test]
fn voicestudio_startup_rounds() {
    assert_eq!(
        startup_step(300_000, true, true, None),
        StartupStep::Fail(s("VoiceStudio did not become ready within 300 seconds."))
    );
    assert_eq!(startup_step(10, true, true, Some("exit code: 1")), StartupStep::Stop);
    assert_eq!(startup_step(10, false, true, Some("exit code: 1")), StartupStep::Ready);
    assert_eq!(
        startup_step(299_999, false, false, Some("exit code: 1")),
        StartupStep::Fail(s("VoiceStudio exited during startup with exit code: 1. See data/logs/voicestudio.err.log."))
    );
    assert_eq!(startup_step(0, false, false, None), StartupStep::Wait(750));
}

fn run_plan(files: &mut Vec<Option<Vec<u8>>>, before: &[Option<Vec<u8>>], plan: &[RollbackStep]) {
    for step in plan {
        match *step {
            RollbackStep::Restore(i) => files[i] = before[i].clone(),
            RollbackStep::Remove(i) => files[i] = None,
        }
    }
}

#[test]
fn failed_updates_are_rolled_back() {
    // Two files installed (the first replaced an old one, the second was new), then the third,
    // which existed, failed after its old copy had been removed.
    let before: Vec<Option<Vec<u8>>> = vec![Some(b"a".to_vec()), None, Some(b"c".to_vec())];
    let backed_up = vec![true, false];
    let mut files: Vec<Option<Vec<u8>>> = vec![Some(b"A".to_vec()), Some(b"B".to_vec()), None];
    let plan = failure_rollback(&backed_up, ApplyFault::Touched(true));
    assert_eq!(plan, vec![RollbackStep::Restore(2), RollbackStep::Remove(1), RollbackStep::Restore(0)]);
    run_plan(&mut files, &before, &plan);
    assert_eq!(files, before);
    // A failure while making the backup of the third file leaves it alone.
    let mut files: Vec<Option<Vec<u8>>> = vec![Some(b"A".to_vec()), Some(b"B".to_vec()), Some(b"c".to_vec())];
    let plan = failure_rollback(&backed_up, ApplyFault::Untouched);
    assert_eq!(plan, vec![RollbackStep::Remove(1), RollbackStep::Restore(0)]);
    run_plan(&mut files, &before, &plan);
    assert_eq!(files, before);
    assert_eq!(failure_rollback(&Vec::new(), ApplyFault::Touched(false)), vec![RollbackStep::Remove(0)]);
}

#[test]
fn batch_sequence_follows_the_queue() {
    // Rounds: (Stop requested before the round, outcome of the episode processed in it).
    let rounds = [(false, EpisodeOutcome::Completed), (false, EpisodeOutcome::Completed), (false, EpisodeOutcome::Failed)];
    let mut run = BatchRun::new(4);
    let mut processed = Vec::new();
    let mut summaries = Vec::new();
    for (cancelled, outcome) in rounds {
        match run.next_step(cancelled) {
            BatchStep::Finish(summary) => { summaries.push(summary); break; }
            BatchStep::Process(i) => {
                processed.push(i);
                if let Some(summary) = run.record(outcome) { summaries.push(summary); break; }
            }
        }
    }
    assert_eq!(processed, vec![0, 1, 2]);
    assert_eq!(summaries, vec![BatchSummary { completed: 2, failed: 1, stopped: false }]);
}

#[test]
fn chat_reply_content() {
    let message = obj(vec![("role", JsonValue::Str(s("assistant"))), ("content", JsonValue::Str(s("{\"title\":\"x\"}")))]);
    let reply = obj(vec![("choices", JsonValue::Array(vec![obj(vec![("message", message)])]))]);
    assert_eq!(reply_content(&reply), Some(s("{\"title\":\"x\"}")));
    assert_eq!(reply_content(&obj(vec![("choices", JsonValue::Array(vec![]))])), None);
    let keyed = obj(vec![("choices", obj(vec![("0", obj(vec![("message", obj(vec![("content", JsonValue::Str(s("k")))]))]))]))]);
    assert_eq!(reply_content(&keyed), Some(s("k")));
    let numeric = obj(vec![("choices", JsonValue::Array(vec![obj(vec![("message", obj(vec![("content", JsonValue::Number)]))])]))]);
    assert_eq!(reply_content(&numeric), None);
}

#[test]
fn limited_responses() {
    let mut out = Vec::new();
    assert!(!append_limited(&mut out, b"abc", 5));
    assert!(append_limited(&mut out, b"defg", 5));
    assert_eq!(out, b"abcde".to_vec());
    assert!(append_limited(&mut out, b"h", 5));
    assert_eq!(out, b"abcde".to_vec());
    let mut none = Vec::new();
    assert!(append_limited(&mut none, b"x", 0));
    assert!(none.is_empty());
}

#[test]
fn safe_filename_twice_is_once() {
    for value in ["A:B / C?", "  ..x..  ", "", "name\twith\ttabs", "über   große  datei"] {
        let once = safe_filename(value);
        assert_eq!(safe_filename(&once), once);
    }
    // A cut at 120 bytes that ends in a space is trimmed by the second call.
    let cut = safe_filename(&format!("{} b", "a".repeat(119)));
    assert!(cut.ends_with(' '));
    assert_eq!(safe_filename(&cut), "a".repeat(119));
}
