//! Media-tool decisions: cancellation, GPU capability reports, decoder choice and the text
//! handed to FFmpeg.
use std::sync::atomic::{AtomicBool, Ordering};
use std::sync::Arc;

use vstd::prelude::*;

use crate::text::{
    chars_of, contains_seq, contains_text, eq_ignore_ascii_case, eq_ignore_case, first_pos,
    find_char, flat_map_chars, join_seqs, join_strings, lemma_first_pos, lemma_flat_map_step,
    owned, push_char, push_str, slice_chars, string_of, trim, trim_chars,
};

verus! {

/// A shared Stop flag; clones share the flag.
#[derive(Clone, Default)]
pub struct CancellationToken(Arc<AtomicBool>);

pub open spec fn stopped_message() -> Seq<char> {
    "Stopped by user"@
}

impl CancellationToken {
    pub fn new() -> (t: CancellationToken) {
        CancellationToken(Arc::new(AtomicBool::new(false)))
    }

    /// Requests Stop for every clone of this token.
    pub fn cancel(&self) {
        self.0.store(true, Ordering::SeqCst);
    }

    /// Clears the Stop request.
    pub fn reset(&self) {
        self.0.store(false, Ordering::SeqCst);
    }

    /// Whether Stop is requested. The flag is shared with other threads, so no contract ties
    /// the answer to earlier calls.
    pub fn is_cancelled(&self) -> bool {
        self.0.load(Ordering::SeqCst)
    }

    /// `Ok` while no Stop is requested; otherwise the error `Stopped by user`.
    pub fn check(&self) -> (r: Result<(), String>)
        ensures
            r matches Err(m) ==> m@ == stopped_message(),
    {
        if self.is_cancelled() {
            Err(owned("Stopped by user"))
        } else {
            Ok(())
        }
    }
}

/// What the NVIDIA render check found.
#[derive(Debug, Clone)]
pub struct GpuCapabilities {
    pub available: bool,
    pub gpu_name: String,
    pub driver_version: String,
    pub nvenc_h264: bool,
    pub nvdec_codecs: Vec<String>,
    pub reason: String,
}

/// Report when the bundled FFmpeg is missing.
pub fn gpu_ffmpeg_missing() -> (g: GpuCapabilities)
    ensures
        !g.available,
        !g.nvenc_h264,
        g.gpu_name@.len() == 0,
        g.driver_version@.len() == 0,
        g.nvdec_codecs@.len() == 0,
        g.reason@ == "Bundled FFmpeg is missing."@,
{
    GpuCapabilities {
        available: false,
        gpu_name: String::new(),
        driver_version: String::new(),
        nvenc_h264: false,
        nvdec_codecs: Vec::new(),
        reason: owned("Bundled FFmpeg is missing."),
    }
}

/// First line of a command's output (`str::lines().next()`): up to the first `\n`, without a
/// `\r` just before it; `None` for empty output.
pub open spec fn first_line(t: Seq<char>) -> Option<Seq<char>> {
    if t.len() == 0 {
        None
    } else {
        let p = first_pos(t, '\n');
        let l = t.take(p as int);
        if p < t.len() && l.len() > 0 && l.last() == '\r' {
            Some(l.drop_last())
        } else {
            Some(l)
        }
    }
}

/// The `i`-th comma-separated field of `line`, if there is one (`str::split(',')`).
pub open spec fn comma_field(line: Seq<char>, i: nat) -> Option<Seq<char>>
    decreases i,
{
    let p = first_pos(line, ',');
    if i == 0 {
        Some(line.take(p as int))
    } else if p < line.len() {
        comma_field(line.skip((p + 1) as int), (i - 1) as nat)
    } else {
        None
    }
}

/// GPU name and driver version from `nvidia-smi --query-gpu=name,driver_version` output.
pub open spec fn smi_name(smi: Option<Seq<char>>) -> Seq<char> {
    match smi {
        Some(t) => match first_line(t) {
            Some(l) => trim(comma_field(l, 0)->0),
            None => "NVIDIA GPU"@,
        },
        None => "NVIDIA GPU"@,
    }
}

pub open spec fn smi_driver(smi: Option<Seq<char>>) -> Seq<char> {
    match smi {
        Some(t) => match first_line(t) {
            Some(l) => match comma_field(l, 1) {
                Some(f) => trim(f),
                None => Seq::<char>::empty(),
            },
            None => Seq::<char>::empty(),
        },
        None => Seq::<char>::empty(),
    }
}

/// NVDEC decoders looked for, in report order.
pub open spec fn nvdec_candidates() -> Seq<Seq<char>> {
    seq!["h264_cuvid"@, "hevc_cuvid"@, "av1_cuvid"@, "vp9_cuvid"@, "mpeg2_cuvid"@]
}

/// The candidates that the decoder list mentions, in order.
pub open spec fn nvdec_found(decoders: Seq<char>) -> Seq<Seq<char>> {
    nvdec_candidates().filter(|c: Seq<char>| contains_seq(decoders, c))
}

pub open spec fn no_nvenc_reason() -> Seq<char> {
    "Bundled FFmpeg does not expose h264_nvenc."@
}

pub open spec fn strings_view(v: Seq<String>) -> Seq<Seq<char>> {
    v.map_values(|s: String| s@)
}

fn first_line_chars(t: &[char]) -> (r: Option<Vec<char>>)
    ensures
        match r {
            Some(l) => first_line(t@) == Some(l@),
            None => first_line(t@) is None,
        },
{
    if t.len() == 0 {
        return None;
    }
    let p = find_char(t, '\n');
    proof {
        lemma_first_pos(t@, '\n');
    }
    let mut l = slice_chars(t, 0, p);
    assert(l@ =~= t@.take(p as int));
    if p < t.len() && l.len() > 0 && l[l.len() - 1] == '\r' {
        l.pop();
        assert(l@ =~= t@.take(p as int).drop_last());
    }
    Some(l)
}

fn comma_fields_two(line: &[char]) -> (r: (Vec<char>, Option<Vec<char>>))
    ensures
        comma_field(line@, 0) == Some(r.0@),
        match r.1 {
            Some(f) => comma_field(line@, 1) == Some(f@),
            None => comma_field(line@, 1) is None,
        },
{
    let p = find_char(line, ',');
    proof {
        lemma_first_pos(line@, ',');
    }
    let first = slice_chars(line, 0, p);
    assert(first@ =~= line@.take(p as int));
    if p < line.len() {
        let rest = slice_chars(line, p + 1, line.len());
        assert(rest@ =~= line@.skip(p + 1));
        let q = find_char(rest.as_slice(), ',');
        proof {
            lemma_first_pos(rest@, ',');
        }
        let second = slice_chars(rest.as_slice(), 0, q);
        assert(second@ =~= rest@.take(q as int));
        proof {
            reveal_with_fuel(comma_field, 2);
        }
        (first, Some(second))
    } else {
        (first, None)
    }
}

/// Capabilities from the encoder and decoder lists of the bundled FFmpeg and the output of
/// `nvidia-smi` (`None` when it could not run). Not yet available: when `h264_nvenc` is
/// listed, the hardware encode test decides (`gpu_tested`).
pub fn gpu_probe(encoders: &str, decoders: &str, smi_output: Option<&str>) -> (g: GpuCapabilities)
    ensures
        !g.available,
        g.nvenc_h264 == contains_seq(encoders@, "h264_nvenc"@),
        g.gpu_name@ == smi_name(
            match smi_output {
                Some(t) => Some(t@),
                None => None,
            },
        ),
        g.driver_version@ == smi_driver(
            match smi_output {
                Some(t) => Some(t@),
                None => None,
            },
        ),
        strings_view(g.nvdec_codecs@) == nvdec_found(decoders@),
        !g.nvenc_h264 ==> g.reason@ == no_nvenc_reason(),
        g.nvenc_h264 ==> g.reason@.len() == 0,
{
    let enc = chars_of(encoders);
    let nvenc_h264 = contains_text(enc.as_slice(), "h264_nvenc");
    let mut gpu_name = owned("NVIDIA GPU");
    let mut driver_version = String::new();
    if let Some(text) = smi_output {
        let tc = chars_of(text);
        if let Some(line) = first_line_chars(tc.as_slice()) {
            let (f0, f1) = comma_fields_two(line.as_slice());
            let n = trim_chars(f0.as_slice());
            gpu_name = string_of(n.as_slice());
            if let Some(f) = f1 {
                let d = trim_chars(f.as_slice());
                driver_version = string_of(d.as_slice());
            }
        }
    }
    let dec = chars_of(decoders);
    let candidates = vec!["h264_cuvid", "hevc_cuvid", "av1_cuvid", "vp9_cuvid", "mpeg2_cuvid"];
    proof {
        reveal_strlit("h264_cuvid");
        reveal_strlit("hevc_cuvid");
        reveal_strlit("av1_cuvid");
        reveal_strlit("vp9_cuvid");
        reveal_strlit("mpeg2_cuvid");
        assert(candidates@.map_values(|c: &str| c@) =~= nvdec_candidates());
    }
    let mut nvdec_codecs: Vec<String> = Vec::new();
    let mut i: usize = 0;
    while i < candidates.len()
        invariant
            i <= candidates@.len(),
            candidates@.map_values(|c: &str| c@) == nvdec_candidates(),
            dec@ == decoders@,
            strings_view(nvdec_codecs@) == nvdec_candidates().take(i as int).filter(
                |c: Seq<char>| contains_seq(decoders@, c),
            ),
        decreases candidates.len() - i,
    {
        let ghost before = nvdec_codecs@;
        assert(nvdec_candidates().take(i + 1).drop_last() =~= nvdec_candidates().take(i as int));
        proof {
            reveal_with_fuel(Seq::<_>::filter, 1);
        }
        assert(candidates@[i as int]@ == nvdec_candidates()[i as int]);
        if contains_text(dec.as_slice(), candidates[i]) {
            nvdec_codecs.push(owned(candidates[i]));
            assert(strings_view(nvdec_codecs@) =~= strings_view(before).push(candidates@[i as int]@));
        } else {
            assert(strings_view(nvdec_codecs@) =~= strings_view(before));
        }
        i += 1;
    }
    assert(nvdec_candidates().take(5) =~= nvdec_candidates());
    let reason = if nvenc_h264 {
        String::new()
    } else {
        owned("Bundled FFmpeg does not expose h264_nvenc.")
    };
    GpuCapabilities { available: false, gpu_name, driver_version, nvenc_h264, nvdec_codecs, reason }
}

/// How the short hardware encode test ended.
#[derive(Debug, Clone)]
pub enum NvencTest {
    Passed,
    /// FFmpeg ran and failed; its shortened error output.
    HardwareFailed(String),
    /// FFmpeg could not be run; the error.
    CouldNotRun(String),
}

/// Final report after the hardware encode test (run only when `h264_nvenc` is listed).
pub fn gpu_tested(probe: GpuCapabilities, test: NvencTest) -> (g: GpuCapabilities)
    ensures
        g.gpu_name == probe.gpu_name,
        g.driver_version == probe.driver_version,
        g.nvenc_h264 == probe.nvenc_h264,
        g.nvdec_codecs == probe.nvdec_codecs,
        !probe.available ==> (g.available <==> probe.nvenc_h264 && test is Passed),
        !probe.nvenc_h264 ==> g.available == probe.available && g.reason == probe.reason,
        probe.nvenc_h264 ==> match test {
            NvencTest::Passed => g.available && g.reason@ == "H.264 NVENC hardware test passed."@,
            NvencTest::HardwareFailed(t) => !g.available && g.reason@
                == "NVENC is present but the hardware test failed: "@ + t@,
            NvencTest::CouldNotRun(e) => !g.available && g.reason@ == "NVENC test failed: "@
                + e@,
        },
{
    if !probe.nvenc_h264 {
        return probe;
    }
    let GpuCapabilities { available: _, gpu_name, driver_version, nvenc_h264, nvdec_codecs, reason: _ } = probe;
    match test {
        NvencTest::Passed => GpuCapabilities {
            available: true,
            gpu_name,
            driver_version,
            nvenc_h264,
            nvdec_codecs,
            reason: owned("H.264 NVENC hardware test passed."),
        },
        NvencTest::HardwareFailed(t) => {
            let mut reason = owned("NVENC is present but the hardware test failed: ");
            push_str(&mut reason, t.as_str());
            GpuCapabilities { available: false, gpu_name, driver_version, nvenc_h264, nvdec_codecs, reason }
        },
        NvencTest::CouldNotRun(e) => {
            let mut reason = owned("NVENC test failed: ");
            push_str(&mut reason, e.as_str());
            GpuCapabilities { available: false, gpu_name, driver_version, nvenc_h264, nvdec_codecs, reason }
        },
    }
}

/// Status line shown when rendering can start.
pub open spec fn gpu_ready_status_of(g: GpuCapabilities) -> Seq<char> {
    "GPU ready: "@ + g.gpu_name@ + (if g.driver_version@.len() == 0 {
        Seq::<char>::empty()
    } else {
        " / driver "@ + g.driver_version@
    }) + " • H.264 NVENC • NVDEC "@ + (if g.nvdec_codecs@.len() == 0 {
        "not available"@
    } else {
        join_seqs(strings_view(g.nvdec_codecs@), ", "@)
    })
}

pub fn gpu_ready_status(g: &GpuCapabilities) -> (s: String)
    ensures
        s@ == gpu_ready_status_of(*g),
{
    let mut s = owned("GPU ready: ");
    push_str(&mut s, g.gpu_name.as_str());
    if g.driver_version.as_str().unicode_len() != 0 {
        push_str(&mut s, " / driver ");
        push_str(&mut s, g.driver_version.as_str());
    }
    push_str(&mut s, " • H.264 NVENC • NVDEC ");
    if g.nvdec_codecs.len() == 0 {
        push_str(&mut s, "not available");
    } else {
        let j = join_strings(&g.nvdec_codecs, ", ");
        push_str(&mut s, j.as_str());
    }
    assert(s@ =~= gpu_ready_status_of(*g));
    s
}

/// Status line and episode error when NVIDIA rendering is unavailable.
pub fn gpu_unavailable_message(reason: &str) -> (m: String)
    ensures
        m@ == "NVIDIA RTX rendering is unavailable: "@ + reason@,
{
    let mut m = owned("NVIDIA RTX rendering is unavailable: ");
    push_str(&mut m, reason);
    m
}

/// NVDEC decoder for a source codec name (any ASCII case).
pub open spec fn nvdec_for(codec: Seq<char>) -> Option<Seq<char>> {
    if eq_ignore_case(codec, "h264"@) {
        Some("h264_cuvid"@)
    } else if eq_ignore_case(codec, "hevc"@) || eq_ignore_case(codec, "h265"@) {
        Some("hevc_cuvid"@)
    } else if eq_ignore_case(codec, "av1"@) {
        Some("av1_cuvid"@)
    } else if eq_ignore_case(codec, "vp9"@) {
        Some("vp9_cuvid"@)
    } else if eq_ignore_case(codec, "mpeg2video"@) {
        Some("mpeg2_cuvid"@)
    } else {
        None
    }
}

pub fn nvdec_decoder(codec: &str) -> (d: Option<&'static str>)
    ensures
        match d {
            Some(n) => nvdec_for(codec@) == Some(n@),
            None => nvdec_for(codec@) is None,
        },
{
    let c = chars_of(codec);
    if eq_ignore_ascii_case(c.as_slice(), "h264") {
        Some("h264_cuvid")
    } else if eq_ignore_ascii_case(c.as_slice(), "hevc") || eq_ignore_ascii_case(c.as_slice(), "h265") {
        Some("hevc_cuvid")
    } else if eq_ignore_ascii_case(c.as_slice(), "av1") {
        Some("av1_cuvid")
    } else if eq_ignore_ascii_case(c.as_slice(), "vp9") {
        Some("vp9_cuvid")
    } else if eq_ignore_ascii_case(c.as_slice(), "mpeg2video") {
        Some("mpeg2_cuvid")
    } else {
        None
    }
}

/// Decoder used for rendering: the NVDEC decoder of the source codec when the GPU report
/// lists it.
pub fn render_decoder(codec: &str, gpu: &GpuCapabilities) -> (d: Option<&'static str>)
    ensures
        match d {
            Some(n) => nvdec_for(codec@) == Some(n@) && strings_view(gpu.nvdec_codecs@).contains(n@),
            None => match nvdec_for(codec@) {
                Some(n) => !strings_view(gpu.nvdec_codecs@).contains(n),
                None => true,
            },
        },
{
    match nvdec_decoder(codec) {
        None => None,
        Some(name) => {
            let mut i: usize = 0;
            while i < gpu.nvdec_codecs.len()
                invariant
                    i <= gpu.nvdec_codecs@.len(),
                    nvdec_for(codec@) == Some(name@),
                    forall|j: int| 0 <= j < i ==> gpu.nvdec_codecs@[j]@ != name@,
                decreases gpu.nvdec_codecs.len() - i,
            {
                if gpu.nvdec_codecs[i] == owned(name) {
                    assert(strings_view(gpu.nvdec_codecs@)[i as int] == name@);
                    return Some(name);
                }
                i += 1;
            }
            proof {
                if strings_view(gpu.nvdec_codecs@).contains(name@) {
                    let j = choose|j: int| 0 <= j < strings_view(gpu.nvdec_codecs@).len() && strings_view(gpu.nvdec_codecs@)[j] == name@;
                    assert(gpu.nvdec_codecs@[j]@ == name@);
                }
            }
            None
        },
    }
}

/// Escaping of a subtitle path inside an FFmpeg filter argument.
pub open spec fn filter_escape(c: char) -> Seq<char> {
    if c == '\\' {
        seq!['/']
    } else if c == ':' {
        seq!['\\', ':']
    } else if c == '\'' {
        seq!['\\', '\'']
    } else {
        seq![c]
    }
}

/// A path as written in an FFmpeg filter: `\` becomes `/`, `:` and `'` are escaped.
pub fn ffmpeg_filter_path(path: &str) -> (out: String)
    ensures
        out@ == flat_map_chars(path@, |c: char| filter_escape(c)),
{
    let cs = chars_of(path);
    let mut out = String::new();
    let mut i: usize = 0;
    while i < cs.len()
        invariant
            i <= cs@.len(),
            cs@ == path@,
            out@ == flat_map_chars(cs@.take(i as int), |c: char| filter_escape(c)),
        decreases cs.len() - i,
    {
        proof {
            lemma_flat_map_step(cs@, |c: char| filter_escape(c), i as int);
        }
        let c = cs[i];
        if c == '\\' {
            push_char(&mut out, '/');
        } else if c == ':' {
            push_char(&mut out, '\\');
            push_char(&mut out, ':');
        } else if c == '\'' {
            push_char(&mut out, '\\');
            push_char(&mut out, '\'');
        } else {
            push_char(&mut out, c);
        }
        assert(out@ =~= flat_map_chars(cs@.take(i as int), |c: char| filter_escape(c)) + filter_escape(c));
        i += 1;
    }
    assert(cs@.take(cs@.len() as int) =~= cs@);
    out
}

/// Reads an escaped filter text back: each `\` drops out and keeps the character after it.
pub open spec fn unescape_filter(s: Seq<char>) -> Seq<char>
    decreases s.len(),
{
    if s.len() == 0 {
        s
    } else if s.len() >= 2 && s[s.len() - 2] == '\\' {
        unescape_filter(s.take(s.len() - 2)).push(s.last())
    } else {
        unescape_filter(s.drop_last()).push(s.last())
    }
}

/// A path with its Windows separators `\` turned into `/`.
pub open spec fn slashed(path: Seq<char>) -> Seq<char> {
    path.map_values(|c: char| if c == '\\' { '/' } else { c })
}

/// The filter text of a path keeps no `\` separator: every `\` in it escapes a following `:`
/// or `'`, every `:` and `'` is escaped, and reading the escapes back gives the path with
/// `\` turned into `/`.
pub proof fn lemma_filter_path_escapes(path: Seq<char>)
    ensures
        ({
            let out = flat_map_chars(path, |c: char| filter_escape(c));
            &&& forall|i: int|
                0 <= i < out.len() && #[trigger] out[i] == '\\' ==> i + 1 < out.len() && (out[i + 1]
                    == ':' || out[i + 1] == '\'')
            &&& forall|i: int|
                0 <= i < out.len() && (#[trigger] out[i] == ':' || out[i] == '\'') ==> i > 0 && out[i
                    - 1] == '\\'
            &&& unescape_filter(out) == slashed(path)
            &&& out.len() > 0 ==> out.last() != '\\'
        }),
    decreases path.len(),
{
    let f = |c: char| filter_escape(c);
    let out = flat_map_chars(path, f);
    if path.len() > 0 {
        let p = path.drop_last();
        let c = path.last();
        lemma_filter_path_escapes(p);
        let q = flat_map_chars(p, f);
        let e = filter_escape(c);
        assert(out == q + e);
        assert(slashed(path) =~= slashed(p).push(if c == '\\' { '/' } else { c }));
        if c == ':' || c == '\'' {
            assert(e =~= seq!['\\', c]);
            assert(out.take(out.len() - 2) =~= q);
            assert(out[out.len() - 2] == '\\');
        } else {
            let d = if c == '\\' { '/' } else { c };
            assert(e =~= seq![d]);
            assert(out.drop_last() =~= q);
            if q.len() > 0 {
                assert(out[out.len() - 2] == q.last());
            }
        }
        assert forall|i: int| 0 <= i < out.len() && #[trigger] out[i] == '\\' implies i + 1 < out.len()
            && (out[i + 1] == ':' || out[i + 1] == '\'') by {
            if i < q.len() {
                assert(out[i] == q[i]);
                if i + 1 < q.len() {
                    assert(out[i + 1] == q[i + 1]);
                } else {
                    assert(q.last() == q[i]);
                }
            }
        }
        assert forall|i: int| 0 <= i < out.len() && (#[trigger] out[i] == ':' || out[i] == '\'') implies i
            > 0 && out[i - 1] == '\\' by {
            if i < q.len() {
                assert(out[i] == q[i]);
                assert(out[i - 1] == q[i - 1]);
            }
        }
    } else {
        assert(out =~= Seq::<char>::empty());
        assert(slashed(path) =~= Seq::<char>::empty());
    }
}

/// Escaping of a path inside a quoted entry of FFmpeg's concat list.
pub open spec fn concat_escape(c: char) -> Seq<char> {
    if c == '\\' {
        seq!['/']
    } else if c == '\'' {
        seq!['\'', '\\', '\'', '\'']
    } else {
        seq![c]
    }
}

pub open spec fn concat_entry(path: Seq<char>) -> Seq<char> {
    "file '"@ + flat_map_chars(path, |c: char| concat_escape(c)) + "'\n"@
}

/// The concat list: one `file '<path>'` line per rendered segment, in order.
pub open spec fn concat_list_of(paths: Seq<Seq<char>>) -> Seq<char>
    decreases paths.len(),
{
    if paths.len() == 0 {
        seq![]
    } else {
        concat_list_of(paths.drop_last()) + concat_entry(paths.last())
    }
}

fn push_concat_entry(out: &mut String, path: &str)
    ensures
        final(out)@ == old(out)@ + concat_entry(path@),
{
    push_str(out, "file '");
    let cs = chars_of(path);
    let ghost start = out@;
    let mut i: usize = 0;
    while i < cs.len()
        invariant
            i <= cs@.len(),
            cs@ == path@,
            out@ == start + flat_map_chars(cs@.take(i as int), |c: char| concat_escape(c)),
        decreases cs.len() - i,
    {
        proof {
            lemma_flat_map_step(cs@, |c: char| concat_escape(c), i as int);
        }
        let c = cs[i];
        if c == '\\' {
            push_char(out, '/');
        } else if c == '\'' {
            push_char(out, '\'');
            push_char(out, '\\');
            push_char(out, '\'');
            push_char(out, '\'');
        } else {
            push_char(out, c);
        }
        assert(out@ =~= start + (flat_map_chars(cs@.take(i as int), |c: char| concat_escape(c)) + concat_escape(c)));
        i += 1;
    }
    assert(cs@.take(cs@.len() as int) =~= cs@);
    push_str(out, "'\n");
    assert(out@ =~= old(out)@ + concat_entry(path@));
}

/// Text of the concat list for the rendered segment files; refused when there is none.
pub fn concat_list(paths: &Vec<String>) -> (r: Result<String, String>)
    ensures
        paths@.len() == 0 <==> r is Err,
        r matches Err(m) ==> m@ == "No rendered segments to concatenate."@,
        r matches Ok(t) ==> t@ == concat_list_of(strings_view(paths@)),
{
    if paths.len() == 0 {
        return Err(owned("No rendered segments to concatenate."));
    }
    let ghost pv = strings_view(paths@);
    let mut list = String::new();
    let mut i: usize = 0;
    while i < paths.len()
        invariant
            i <= paths@.len(),
            pv == strings_view(paths@),
            list@ == concat_list_of(pv.take(i as int)),
        decreases paths.len() - i,
    {
        assert(pv.take(i + 1).drop_last() =~= pv.take(i as int));
        push_concat_entry(&mut list, paths[i].as_str());
        i += 1;
    }
    assert(pv.take(paths@.len() as int) =~= pv);
    Ok(list)
}

/// FFmpeg error output as shown to the user: trimmed, at most 1200 characters.
pub open spec fn stderr_excerpt(t: Seq<char>) -> Seq<char> {
    let x = trim(t);
    if x.len() <= 1200 {
        x
    } else {
        x.take(1200)
    }
}

pub fn stderr_text(output: &str) -> (s: String)
    ensures
        s@ == stderr_excerpt(output@),
        s@.len() <= 1200,
{
    let cs = chars_of(output);
    let t = trim_chars(cs.as_slice());
    let n = if t.len() <= 1200 {
        t.len()
    } else {
        1200
    };
    let kept = slice_chars(t.as_slice(), 0, n);
    assert(kept@ =~= stderr_excerpt(output@));
    string_of(kept.as_slice())
}

/// A bundled tool must exist as a file: `<label> is missing: <path>` otherwise.
pub fn ensure_file(is_file: bool, label: &str, path_display: &str) -> (r: Result<(), String>)
    ensures
        is_file <==> r is Ok,
        r matches Err(m) ==> m@ == label@ + " is missing: "@ + path_display@,
{
    if is_file {
        Ok(())
    } else {
        let mut m = owned(label);
        push_str(&mut m, " is missing: ");
        push_str(&mut m, path_display);
        Err(m)
    }
}

/// Bytes of `chunk` still accepted when `have` bytes of at most `limit` are already kept.
pub open spec fn accepted_len(have: nat, chunk_len: nat, limit: nat) -> nat {
    if have >= limit {
        0
    } else if chunk_len <= limit - have {
        chunk_len
    } else {
        (limit - have) as nat
    }
}

/// Keeps a read chunk of a response that may hold at most `limit` bytes: appends as much of
/// the chunk as still fits and says whether the limit is now reached.
pub fn append_limited(out: &mut Vec<u8>, chunk: &[u8], limit: usize) -> (full: bool)
    ensures
        final(out)@ == old(out)@ + chunk@.take(
            accepted_len(old(out)@.len(), chunk@.len(), limit as nat) as int,
        ),
        full == (final(out)@.len() >= limit),
{
    let n: usize = if out.len() >= limit {
        0
    } else if chunk.len() <= limit - out.len() {
        chunk.len()
    } else {
        limit - out.len()
    };
    let ghost start = out@;
    let mut i: usize = 0;
    while i < n
        invariant
            i <= n,
            n <= chunk@.len(),
            n == accepted_len(start.len(), chunk@.len(), limit as nat),
            out@ == start + chunk@.take(i as int),
        decreases n - i,
    {
        out.push(chunk[i]);
        assert(chunk@.take(i + 1) =~= chunk@.take(i as int).push(chunk@[i as int]));
        i += 1;
    }
    out.len() >= limit
}

} // verus!
