//! Preparing the recap-analysis request and reading its answer.
use vstd::prelude::*;

use crate::config::Settings;
use crate::model::MediaInfo;
use crate::voicestudio::{get, get_member, JsonValue};
use crate::text::{
    chars_of, decimal, ends_with, find_char, first_pos, has_prefix, has_suffix, is_blank,
    lemma_first_pos, owned, push_chars, push_decimal, push_str, slice_chars, starts_with,
    strip_trailing, strip_trailing_len, trim, trim_bounds, trim_chars, blank_str,
};

verus! {

pub open spec fn chat_suffix() -> Seq<char> {
    "/chat/completions"@
}

/// The chat-completions URL for a configured base URL: the base, trimmed and without trailing
/// slashes, followed by `/chat/completions` unless it already ends that way.
pub open spec fn chat_endpoint_of(base: Seq<char>) -> Seq<char> {
    let b = strip_trailing(trim(base), '/');
    if has_suffix(b, chat_suffix()) {
        b
    } else {
        b + chat_suffix()
    }
}

proof fn lemma_strip_trailing_prefix(s: Seq<char>, c: char)
    ensures
        strip_trailing(s, c).len() <= s.len(),
        strip_trailing(s, c) == s.take(strip_trailing(s, c).len() as int),
        strip_trailing(s, c).len() > 0 ==> strip_trailing(s, c).last() != c,
    decreases s.len(),
{
    if s.len() > 0 && s.last() == c {
        lemma_strip_trailing_prefix(s.drop_last(), c);
        let r = strip_trailing(s.drop_last(), c);
        assert(s.drop_last().take(r.len() as int) =~= s.take(r.len() as int));
    } else {
        assert(s.take(s.len() as int) =~= s);
    }
}

/// Normalising an endpoint twice gives the same URL as normalising it once.
pub proof fn lemma_chat_endpoint_idempotent(base: Seq<char>)
    ensures
        chat_endpoint_of(chat_endpoint_of(base)) == chat_endpoint_of(base),
{
    reveal_strlit("/chat/completions");
    let t = trim(base);
    let lo = crate::text::lead_run(base, crate::text::ws_pred());
    crate::text::lemma_lead_run(base, crate::text::ws_pred());
    let t0 = base.skip(lo as int);
    crate::text::lemma_trail_run(t0, crate::text::ws_pred());
    lemma_strip_trailing_prefix(t, '/');
    let b = strip_trailing(t, '/');
    let e = chat_endpoint_of(base);
    if b.len() > 0 {
        assert(b[0] == t[0]);
        assert(t[0] == t0[0]);
        assert(!crate::text::is_ws(e[0]));
    } else {
        assert(e =~= chat_suffix());
    }
    if has_suffix(b, chat_suffix()) {
        assert(b.skip(b.len() - chat_suffix().len())[chat_suffix().len() - 1] == b.last());
    } else {
        assert((b + chat_suffix()).last() == chat_suffix().last());
    }
    assert(e.len() > 0);
    assert(e.last() == 's');
    assert(!crate::text::is_ws(e[0]) && !crate::text::is_ws(e.last()));
    crate::text::lemma_trim_by_bounds(e, crate::text::ws_pred(), 0, e.len() as int);
    assert(e.subrange(0, e.len() as int) =~= e);
    assert(trim(e) == e);
    assert(strip_trailing(e, '/') == e);
    if !has_suffix(b, chat_suffix()) {
        assert((b + chat_suffix()).skip((b + chat_suffix()).len() - chat_suffix().len()) =~= chat_suffix());
    }
    assert(has_suffix(e, chat_suffix()));
}

pub fn chat_endpoint(base: &str) -> (url: String)
    ensures
        url@ == chat_endpoint_of(base@),
{
    let cs = chars_of(base);
    let t = trim_chars(cs.as_slice());
    let n = strip_trailing_len(t.as_slice(), '/');
    let b = slice_chars(t.as_slice(), 0, n);
    assert(b@ =~= t@.take(n as int));
    let mut url = String::new();
    push_chars(&mut url, b.as_slice());
    if !ends_with(b.as_slice(), "/chat/completions") {
        push_str(&mut url, "/chat/completions");
    }
    url
}

pub open spec fn fence() -> Seq<char> {
    "```"@
}

/// A model answer without a surrounding Markdown code fence: the trimmed text; when it starts
/// with three backticks, its first line is dropped, then one closing fence, then the rest is
/// trimmed again.
pub open spec fn strip_code_fence_of(input: Seq<char>) -> Seq<char> {
    let t = trim(input);
    if !has_prefix(t, fence()) {
        t
    } else {
        let p = first_pos(t, '\n');
        let after = if p < t.len() {
            t.skip((p + 1) as int)
        } else {
            t
        };
        let body = if has_suffix(after, fence()) {
            after.take(after.len() - 3)
        } else {
            after
        };
        trim(body)
    }
}

pub fn strip_code_fence(input: &str) -> (out: &str)
    ensures
        out@ == strip_code_fence_of(input@),
{
    let cs = chars_of(input);
    let (lo, hi) = trim_bounds(cs.as_slice());
    let t = slice_chars(cs.as_slice(), lo, hi);
    if !starts_with(t.as_slice(), "```") {
        return input.substring_char(lo, hi);
    }
    let p = find_char(t.as_slice(), '\n');
    proof {
        lemma_first_pos(t@, '\n');
    }
    let start: usize = if p < t.len() {
        lo + p + 1
    } else {
        lo
    };
    let after = slice_chars(cs.as_slice(), start, hi);
    assert(after@ =~= (if p < t@.len() {
        t@.skip(p + 1)
    } else {
        t@
    }));
    let end: usize = if ends_with(after.as_slice(), "```") {
        proof {
            reveal_strlit("```");
        }
        hi - 3
    } else {
        hi
    };
    let body = slice_chars(cs.as_slice(), start, end);
    proof {
        reveal_strlit("```");
    }
    assert(body@ =~= (if has_suffix(after@, fence()) {
        after@.take(after@.len() - 3)
    } else {
        after@
    }));
    let (blo, bhi) = trim_bounds(body.as_slice());
    assert(cs@.subrange(start + blo, start + bhi) =~= body@.subrange(blo as int, bhi as int));
    input.substring_char(start + blo, start + bhi)
}

/// Everything the analysis call sends, prepared from the settings and the episode.
#[derive(Debug, Clone)]
pub struct AnalysisRequest {
    pub endpoint: String,
    pub model: String,
    pub system_prompt: String,
    pub user_prompt: String,
    /// The API key to send as a bearer token, if one is configured.
    pub bearer: Option<String>,
}

pub open spec fn missing_config_message() -> Seq<char> {
    "AI API endpoint and model must be configured before Start."@
}

pub open spec fn system_prompt_head() -> Seq<char> {
    "You are a precise video recap editor. Return JSON only. Create concise "@
}

pub open spec fn system_prompt_tail() -> Seq<char> {
    " narration using only facts supported by the timestamped transcript. Never invent timestamps. The output schema is exactly {\"title\":string,\"segments\":[{\"start_ms\":integer,\"end_ms\":integer,\"narration\":string}]}. Segments must be chronological, non-overlapping, within the source duration, and each narration must describe the selected source interval. Prefer 6-24 segments and a finished recap around 15%-30% of source duration. Do not add markdown."@
}

pub open spec fn system_prompt_of(language: Seq<char>) -> Seq<char> {
    system_prompt_head() + language + system_prompt_tail()
}

pub open spec fn user_prompt_of(
    source_name: Seq<char>,
    media: MediaInfo,
    transcript_text: Seq<char>,
) -> Seq<char> {
    "SOURCE: "@ + source_name + "\nDURATION_MS: "@ + decimal(media.duration_ms as nat)
        + "\nVIDEO_CODEC: "@ + media.video_codec@ + "\nSIZE: "@ + decimal(media.width as nat) + "x"@
        + decimal(media.height as nat) + "\n\nTIMESTAMPED TRANSCRIPT:\n"@ + transcript_text
}

/// Prepares the analysis request. `transcript_text` is the transcript already rendered one
/// timestamped line per segment. Refused when the endpoint or the model is blank.
pub fn prepare_analysis(
    settings: &Settings,
    source_name: &str,
    media: &MediaInfo,
    transcript_text: &str,
) -> (r: Result<AnalysisRequest, String>)
    ensures
        (is_blank(settings.api_endpoint@) || is_blank(settings.api_model@)) <==> r is Err,
        r matches Err(m) ==> m@ == missing_config_message(),
        r matches Ok(req) ==> {
            &&& req.endpoint@ == chat_endpoint_of(settings.api_endpoint@)
            &&& req.model@ == settings.api_model@
            &&& req.system_prompt@ == system_prompt_of(settings.analysis_language@)
            &&& req.user_prompt@ == user_prompt_of(source_name@, *media, transcript_text@)
            &&& (is_blank(settings.api_key@) <==> req.bearer is None)
            &&& (req.bearer matches Some(k) ==> k@ == trim(settings.api_key@))
        },
{
    if blank_str(settings.api_endpoint.as_str()) || blank_str(settings.api_model.as_str()) {
        return Err(owned("AI API endpoint and model must be configured before Start."));
    }
    let mut system_prompt = String::new();
    push_str(&mut system_prompt, "You are a precise video recap editor. Return JSON only. Create concise ");
    push_str(&mut system_prompt, settings.analysis_language.as_str());
    push_str(&mut system_prompt, " narration using only facts supported by the timestamped transcript. Never invent timestamps. The output schema is exactly {\"title\":string,\"segments\":[{\"start_ms\":integer,\"end_ms\":integer,\"narration\":string}]}. Segments must be chronological, non-overlapping, within the source duration, and each narration must describe the selected source interval. Prefer 6-24 segments and a finished recap around 15%-30% of source duration. Do not add markdown.");
    let mut user_prompt = String::new();
    push_str(&mut user_prompt, "SOURCE: ");
    push_str(&mut user_prompt, source_name);
    push_str(&mut user_prompt, "\nDURATION_MS: ");
    push_decimal(&mut user_prompt, media.duration_ms);
    push_str(&mut user_prompt, "\nVIDEO_CODEC: ");
    push_str(&mut user_prompt, media.video_codec.as_str());
    push_str(&mut user_prompt, "\nSIZE: ");
    push_decimal(&mut user_prompt, media.width as u64);
    push_str(&mut user_prompt, "x");
    push_decimal(&mut user_prompt, media.height as u64);
    push_str(&mut user_prompt, "\n\nTIMESTAMPED TRANSCRIPT:\n");
    push_str(&mut user_prompt, transcript_text);
    let key = chars_of(settings.api_key.as_str());
    let trimmed = trim_chars(key.as_slice());
    let bearer = if blank_str(settings.api_key.as_str()) {
        None
    } else {
        let mut k = String::new();
        push_chars(&mut k, trimmed.as_slice());
        Some(k)
    };
    let req = AnalysisRequest {
        endpoint: chat_endpoint(settings.api_endpoint.as_str()),
        model: owned(settings.api_model.as_str()),
        system_prompt,
        user_prompt,
        bearer,
    };
    assert(req.system_prompt@ =~= system_prompt_of(settings.analysis_language@));
    assert(req.user_prompt@ =~= user_prompt_of(source_name@, *media, transcript_text@));
    Ok(req)
}

/// The first choice of a chat reply: element `0` of an array, or the member named `0` of an
/// object (as the JSON pointer token `0` selects).
pub open spec fn first_choice(c: JsonValue) -> Option<JsonValue> {
    match c {
        JsonValue::Array(items) => if items@.len() > 0 {
            Some(items@[0])
        } else {
            None
        },
        JsonValue::Object(_) => get(c, "0"@),
        _ => None,
    }
}

/// The text at `/choices/0/message/content` of a chat-completions reply, if it is a string.
pub open spec fn reply_content_of(v: JsonValue) -> Option<Seq<char>> {
    match get(v, "choices"@) {
        Some(c) => match first_choice(c) {
            Some(choice) => match get(choice, "message"@) {
                Some(m) => match get(m, "content"@) {
                    Some(JsonValue::Str(s)) => Some(s@),
                    _ => None,
                },
                None => None,
            },
            None => None,
        },
        None => None,
    }
}

/// The message content of a chat-completions reply; `None` when the reply has none.
pub fn reply_content(v: &JsonValue) -> (r: Option<String>)
    ensures
        match r {
            Some(s) => reply_content_of(*v) == Some(s@),
            None => reply_content_of(*v) is None,
        },
{
    proof {
        reveal_strlit("choices");
        reveal_strlit("0");
        reveal_strlit("message");
        reveal_strlit("content");
    }
    let c = match get_member(v, "choices") {
        Some(c) => c,
        None => return None,
    };
    let choice = match c {
        JsonValue::Array(items) => {
            if items.len() > 0 {
                &items[0]
            } else {
                return None;
            }
        },
        JsonValue::Object(_) => match get_member(c, "0") {
            Some(x) => x,
            None => return None,
        },
        _ => return None,
    };
    let m = match get_member(choice, "message") {
        Some(m) => m,
        None => return None,
    };
    match get_member(m, "content") {
        Some(JsonValue::Str(s)) => Some(owned(s.as_str())),
        _ => None,
    }
}

} // verus!
