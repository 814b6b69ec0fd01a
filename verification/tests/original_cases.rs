use tool_recap_rust::analyzer::{chat_endpoint, strip_code_fence};
use tool_recap_rust::input::{folder_videos, DirEntryInfo};
use tool_recap_rust::media::{ffmpeg_filter_path, nvdec_decoder};
use tool_recap_rust::model::{RecapPlan, RecapSegment};
use tool_recap_rust::pipeline::safe_filename;
use tool_recap_rust::voicestudio::{find_model, model_is_installed, node_at, JsonValue};

#[test]
fn endpoint_normalizes_v1_base() {
    assert_eq!(chat_endpoint("http://localhost:1234/v1/"), "http://localhost:1234/v1/chat/completions");
}

#[test]
fn removes_markdown_fence_without_touching_json() {
    assert_eq!(strip_code_fence("```json\n{\"x\":1}\n```"), "{\"x\":1}");
}

fn entry(name: &str, is_file: bool) -> DirEntryInfo {
    let extension = if is_file {
        name.rsplit_once('.').map(|(_, e)| e.to_string())
    } else {
        None
    };
    DirEntryInfo { name: name.to_string(), is_file, extension }
}

#[test]
fn folder_scan_is_non_recursive_and_ignores_non_video() {
    // Direct children of the folder; `season2/ep3.mp4` is inside a subfolder and never listed.
    let entries = vec![
        entry("ep10.mp4", true),
        entry("ep2.mkv", true),
        entry("notes.txt", true),
        entry("season2", false),
    ];
    let names: Vec<String> = folder_videos(&entries).unwrap().into_iter().map(|i| entries[i].name.clone()).collect();
    assert_eq!(names, vec!["ep2.mkv", "ep10.mp4"]);
}

#[test]
fn maps_common_codecs_to_nvdec() {
    assert_eq!(nvdec_decoder("h264"), Some("h264_cuvid"));
    assert_eq!(nvdec_decoder("hevc"), Some("hevc_cuvid"));
    assert_eq!(nvdec_decoder("prores"), None);
}

#[test]
fn subtitle_path_is_filter_safe_on_windows() {
    let escaped = ffmpeg_filter_path(r"C:\Video Recap\caption.srt");
    assert!(escaped.contains("C\\:"));
    assert!(escaped.contains("Video Recap"));
}

#[test]
fn plan_rejects_overlap_and_out_of_bounds() {
    let plan = RecapPlan {
        title: "x".into(),
        segments: vec![
            RecapSegment { start_ms: 0, end_ms: 5000, narration: "one".into() },
            RecapSegment { start_ms: 4000, end_ms: 6000, narration: "two".into() },
        ],
    };
    assert!(plan.validate(10_000).unwrap_err().contains("overlaps"));
}

#[test]
fn filenames_are_windows_safe() {
    assert_eq!(safe_filename("A:B / C?"), "A_B _ C_");
}

#[test]
fn recursive_model_lookup_handles_wrapped_catalog() {
    let value = JsonValue::Object(vec![(
        "models".to_string(),
        JsonValue::Array(vec![JsonValue::Object(vec![
            ("repo_id".to_string(), JsonValue::Str("k2-fsa/OmniVoice".to_string())),
            ("downloaded".to_string(), JsonValue::Bool(true)),
        ])]),
    )]);
    let path = find_model(&value, "k2-fsa/OmniVoice").unwrap();
    let model = node_at(&value, &path).unwrap();
    assert!(model_is_installed(model));
}

#[test]
fn srt_time_formats_milliseconds() {
    // Subtitle times are whole milliseconds; 61.234 seconds is rounded to 61 234 ms first.
    let ms: u64 = (61.234_f64.max(0.0) * 1000.0).round() as u64;
    assert_eq!(tool_recap_rust::pipeline::srt_time_ms(ms), "00:01:01,234");
}
