//! VoiceStudio runtime: voices, the local port, speech retries and the model catalogue.
use vstd::prelude::*;

use crate::text::{
    blank_str, chars_of, decimal, is_blank, is_digit, owned, push_str, slice_chars, strip_trailing,
    strip_trailing_len, string_of,
};

verus! {

/// A voice offered by VoiceStudio.
#[derive(Debug, Clone)]
pub struct VoiceChoice {
    pub voice_id: String,
    pub name: String,
    pub language: String,
    pub description: String,
}

/// Name shown for a voice: its name, else its id and description, else its id.
pub open spec fn display_name_of(v: VoiceChoice) -> Seq<char> {
    if !is_blank(v.name@) {
        v.name@
    } else if !is_blank(v.description@) {
        v.voice_id@ + " — "@ + v.description@
    } else {
        v.voice_id@
    }
}

impl VoiceChoice {
    pub fn display_name(&self) -> (s: String)
        ensures
            s@ == display_name_of(*self),
    {
        if !blank_str(self.name.as_str()) {
            owned(self.name.as_str())
        } else if !blank_str(self.description.as_str()) {
            let mut s = owned(self.voice_id.as_str());
            push_str(&mut s, " — ");
            push_str(&mut s, self.description.as_str());
            s
        } else {
            owned(self.voice_id.as_str())
        }
    }
}

/// The voice used when VoiceStudio lists none.
pub fn default_voice() -> (v: VoiceChoice)
    ensures
        v.voice_id@ == "default"@,
        v.name@ == "VoiceStudio Default"@,
        v.language@ == "en"@,
        v.description@.len() == 0,
{
    VoiceChoice {
        voice_id: owned("default"),
        name: owned("VoiceStudio Default"),
        language: owned("en"),
        description: String::new(),
    }
}

/// The voice list offered to the user: the listed voices, or the default voice alone.
pub fn voices_or_default(voices: Vec<VoiceChoice>) -> (r: Vec<VoiceChoice>)
    ensures
        voices@.len() > 0 ==> r@ == voices@,
        voices@.len() == 0 ==> r@.len() == 1 && r@[0].voice_id@ == "default"@ && r@[0].name@
            == "VoiceStudio Default"@ && r@[0].language@ == "en"@ && r@[0].description@.len() == 0,
{
    if voices.len() > 0 {
        voices
    } else {
        let mut r = Vec::new();
        r.push(default_voice());
        r
    }
}

/// The voice sent with a speech request: the configured id, or `default` when it is blank.
pub fn speech_voice(voice_id: &str) -> (v: String)
    ensures
        is_blank(voice_id@) ==> v@ == "default"@,
        !is_blank(voice_id@) ==> v@ == voice_id@,
{
    if blank_str(voice_id) {
        owned("default")
    } else {
        owned(voice_id)
    }
}

/// Pin of the bundled VoiceStudio runtime (`runtime/voicestudio/version.json`).
#[derive(Debug, Clone)]
pub struct RuntimePin {
    pub upstream: String,
    pub version: String,
    pub source_ref: String,
    pub api_contract: String,
}

pub open spec fn all_digits(d: Seq<char>) -> bool {
    forall|i: int| 0 <= i < d.len() ==> is_digit(#[trigger] d[i])
}

/// Value of an unsigned decimal with an optional leading `+` (what `str::parse` accepts for
/// unsigned integers), if at most `max`.
pub open spec fn unsigned_value(s: Seq<char>, max: nat) -> Option<nat> {
    let d = if s.len() > 0 && s[0] == '+' {
        s.drop_first()
    } else {
        s
    };
    if d.len() > 0 && all_digits(d) && crate::input::digits_value(d) <= max {
        Some(crate::input::digits_value(d))
    } else {
        None
    }
}

pub fn parse_unsigned(s: &[char], max: u64) -> (r: Option<u64>)
    ensures
        match r {
            Some(n) => unsigned_value(s@, max as nat) == Some(n as nat),
            None => unsigned_value(s@, max as nat) is None,
        },
{
    let start: usize = if s.len() > 0 && s[0] == '+' {
        1
    } else {
        0
    };
    let d = slice_chars(s, start, s.len());
    assert(d@ =~= (if s@.len() > 0 && s@[0] == '+' {
        s@.drop_first()
    } else {
        s@
    }));
    if d.len() == 0 {
        return None;
    }
    let ghost dd = d@;
    let mut i: usize = 0;
    while i < d.len()
        invariant
            i <= d@.len(),
            dd == d@,
            d@ == (if s@.len() > 0 && s@[0] == '+' {
                s@.drop_first()
            } else {
                s@
            }),
            forall|k: int| 0 <= k < i ==> is_digit(#[trigger] d@[k]),
        decreases d.len() - i,
    {
        if !('0' <= d[i] && d[i] <= '9') {
            proof {
                let sd = if s@.len() > 0 && s@[0] == '+' {
                    s@.drop_first()
                } else {
                    s@
                };
                assert(sd[i as int] == d@[i as int]);
                assert(!is_digit(sd[i as int]));
                assert(!all_digits(sd));
                assert(unsigned_value(s@, max as nat) is None);
            }
            return None;
        }
        i += 1;
    }
    match crate::input::parse_digits_value(d.as_slice()) {
        Some(n) => {
            if n <= max {
                Some(n)
            } else {
                None
            }
        },
        None => None,
    }
}

/// The text after the last `:` of `s`, or all of `s` (`str::rsplit(':').next()`).
pub open spec fn after_last_colon(s: Seq<char>) -> Seq<char>
    decreases s.len(),
{
    if s.len() == 0 {
        s
    } else if s.last() == ':' {
        Seq::<char>::empty()
    } else {
        after_last_colon(s.drop_last()).push(s.last())
    }
}

/// Port of the local VoiceStudio URL: the number after the last `:`, without trailing `/`;
/// 3900 when that is not a port number.
pub open spec fn port_of(url: Seq<char>) -> nat {
    match unsigned_value(strip_trailing(after_last_colon(url), '/'), 65535) {
        Some(p) => p,
        None => 3900,
    }
}

/// The text after the last `:` of `a`, a colon, then a text without colons, is that text.
proof fn lemma_after_last_colon_of(a: Seq<char>, b: Seq<char>)
    requires
        forall|i: int| 0 <= i < b.len() ==> b[i] != ':',
    ensures
        after_last_colon(a + seq![':'] + b) == b,
    decreases b.len(),
{
    let s = a + seq![':'] + b;
    if b.len() == 0 {
        assert(s.last() == ':');
    } else {
        let c = b.last();
        assert(s.last() == c);
        assert(s.drop_last() =~= a + seq![':'] + b.drop_last());
        lemma_after_last_colon_of(a, b.drop_last());
        assert(b.drop_last().push(c) =~= b);
    }
}

/// A configured URL that ends in `:` and a port number, with or without a trailing `/`, gives
/// that port, whatever comes before the colon.
pub proof fn lemma_port_of_configured_url(prefix: Seq<char>, n: nat)
    requires
        n <= 65535,
    ensures
        port_of(prefix + seq![':'] + decimal(n)) == n,
        port_of(prefix + seq![':'] + decimal(n) + seq!['/']) == n,
{
    crate::input::lemma_decimal_value(n);
    let d = decimal(n);
    assert forall|i: int| 0 <= i < d.len() implies d[i] != ':' by {
        assert(is_digit(d[i]));
    }
    lemma_after_last_colon_of(prefix, d);
    let ds = d + seq!['/'];
    assert forall|i: int| 0 <= i < ds.len() implies ds[i] != ':' by {
        if i < d.len() {
            assert(ds[i] == d[i]);
            assert(is_digit(d[i]));
        }
    }
    lemma_after_last_colon_of(prefix, ds);
    assert(prefix + seq![':'] + d + seq!['/'] =~= prefix + seq![':'] + ds);
    assert(is_digit(d.last()));
    assert(strip_trailing(d, '/') == d);
    assert(ds.drop_last() =~= d);
    assert(strip_trailing(ds, '/') == d);
    assert(is_digit(d[0]));
    assert(all_digits(d));
}

pub fn port_from_url(url: &str) -> (port: u16)
    ensures
        port == port_of(url@),
{
    let cs = chars_of(url);
    let mut k: usize = cs.len();
    assert(cs@.take(cs@.len() as int) =~= cs@);
    assert(cs@.skip(cs@.len() as int) =~= Seq::<char>::empty());
    assert(cs@ + Seq::<char>::empty() =~= cs@);
    while k > 0 && cs[k - 1] != ':'
        invariant
            k <= cs@.len(),
            after_last_colon(cs@) == after_last_colon(cs@.take(k as int)) + cs@.skip(k as int),
        decreases k,
    {
        assert(cs@.take(k as int).drop_last() =~= cs@.take(k - 1));
        assert(cs@.skip(k - 1) =~= seq![cs@[k - 1]] + cs@.skip(k as int));
        assert(after_last_colon(cs@.take(k as int)) == after_last_colon(cs@.take(k - 1)).push(cs@[k - 1]));
        k -= 1;
    }
    proof {
        assert(cs@.take(cs@.len() as int) =~= cs@);
        assert(cs@.skip(cs@.len() as int) =~= Seq::<char>::empty());
    }
    let tail = slice_chars(cs.as_slice(), k, cs.len());
    assert(tail@ =~= after_last_colon(cs@)) by {
        assert(cs@.subrange(k as int, cs@.len() as int) =~= cs@.skip(k as int));
        if k > 0 {
            assert(cs@.take(k as int).last() == ':');
        }
    }
    let n = strip_trailing_len(tail.as_slice(), '/');
    let s = slice_chars(tail.as_slice(), 0, n);
    assert(s@ =~= tail@.take(n as int));
    match parse_unsigned(s.as_slice(), 65535) {
        Some(p) => p as u16,
        None => 3900,
    }
}

/// What starting the local VoiceStudio runtime begins with.
#[derive(Debug, Clone, PartialEq, Eq)]
pub enum StartupPlan {
    /// The runtime already answers; nothing to do.
    AlreadyReady,
    /// The bundled backend is missing; the error to report.
    Missing(String),
    /// The backend process is still running; wait for it to become ready.
    Poll,
    /// Start the backend on this port, then wait for it.
    Spawn(u16),
}

/// Decides how the runtime is brought up: nothing when it is healthy, an error when the
/// bundled backend is missing, waiting when its process still runs, else a new process on the
/// port of the configured URL.
pub fn startup_plan(
    healthy: bool,
    backend_is_file: bool,
    backend_display: &str,
    child_alive: bool,
    url: &str,
) -> (p: StartupPlan)
    ensures
        healthy ==> p == StartupPlan::AlreadyReady,
        !healthy && !backend_is_file ==> (p matches StartupPlan::Missing(m) && m@
            == "VoiceStudio runtime is missing at "@ + backend_display@
            + ". Use a verified portable build or run the runtime packaging script."@),
        !healthy && backend_is_file && child_alive ==> p == StartupPlan::Poll,
        !healthy && backend_is_file && !child_alive ==> p == StartupPlan::Spawn(
            port_of(url@) as u16,
        ),
{
    if healthy {
        return StartupPlan::AlreadyReady;
    }
    if !backend_is_file {
        let mut m = owned("VoiceStudio runtime is missing at ");
        push_str(&mut m, backend_display);
        push_str(&mut m, ". Use a verified portable build or run the runtime packaging script.");
        return StartupPlan::Missing(m);
    }
    if child_alive {
        StartupPlan::Poll
    } else {
        StartupPlan::Spawn(port_from_url(url))
    }
}

/// How long the runtime is given to become ready, in milliseconds.
pub open spec fn startup_limit_ms() -> nat {
    300_000
}

/// Pause between two readiness checks, in milliseconds.
pub open spec fn startup_poll_ms() -> nat {
    750
}

/// One round of waiting for the runtime.
#[derive(Debug, Clone, PartialEq, Eq)]
pub enum StartupStep {
    /// The runtime answers.
    Ready,
    /// Stop was requested.
    Stop,
    /// Startup failed; the error to report.
    Fail(String),
    /// Check again after this many milliseconds.
    Wait(u64),
}

/// Decides one round of the readiness wait, checking in this order: the time limit, Stop, the
/// health check, then whether the backend process has exited (with its exit status text).
pub fn startup_step(elapsed_ms: u64, cancelled: bool, healthy: bool, exit_status: Option<&str>) -> (s: StartupStep)
    ensures
        elapsed_ms >= startup_limit_ms() ==> (s matches StartupStep::Fail(m) && m@
            == "VoiceStudio did not become ready within 300 seconds."@),
        elapsed_ms < startup_limit_ms() && cancelled ==> s == StartupStep::Stop,
        elapsed_ms < startup_limit_ms() && !cancelled && healthy ==> s == StartupStep::Ready,
        elapsed_ms < startup_limit_ms() && !cancelled && !healthy ==> match exit_status {
            Some(t) => s matches StartupStep::Fail(m) && m@ == "VoiceStudio exited during startup with "@
                + t@ + ". See data/logs/voicestudio.err.log."@,
            None => s == StartupStep::Wait(startup_poll_ms() as u64),
        },
{
    if elapsed_ms >= 300_000 {
        return StartupStep::Fail(owned("VoiceStudio did not become ready within 300 seconds."));
    }
    if cancelled {
        return StartupStep::Stop;
    }
    if healthy {
        return StartupStep::Ready;
    }
    match exit_status {
        Some(t) => {
            let mut m = owned("VoiceStudio exited during startup with ");
            push_str(&mut m, t);
            push_str(&mut m, ". See data/logs/voicestudio.err.log.");
            StartupStep::Fail(m)
        },
        None => StartupStep::Wait(750),
    }
}

/// Address of a VoiceStudio API path: the configured base URL without trailing `/`, then the
/// path (which starts with `/`).
pub fn service_url(base: &str, path: &str) -> (url: String)
    ensures
        url@ == strip_trailing(base@, '/') + path@,
{
    let cs = chars_of(base);
    let n = strip_trailing_len(cs.as_slice(), '/');
    let kept = slice_chars(cs.as_slice(), 0, n);
    assert(kept@ =~= cs@.take(n as int));
    let mut url = string_of(kept.as_slice());
    push_str(&mut url, path);
    url
}

/// Seconds to wait before retrying a speech request, or `None` when the failure is final:
/// only HTTP 429 and 503 are retried, on the first four attempts, after the `Retry-After`
/// header's seconds (else twice the attempt number), at most 30 seconds.
pub open spec fn speech_retry_delay_of(status: u16, attempt: nat, retry_after: Option<Seq<char>>) -> Option<nat> {
    let wait = match retry_after {
        Some(h) => match unsigned_value(h, u64::MAX as nat) {
            Some(v) => v,
            None => ((attempt + 1) * 2) as nat,
        },
        None => ((attempt + 1) * 2) as nat,
    };
    if (status == 429 || status == 503) && attempt < 4 {
        Some(if wait < 30 { wait } else { 30 })
    } else {
        None
    }
}

pub fn speech_retry_delay(status: u16, attempt: u32, retry_after: Option<&str>) -> (d: Option<u64>)
    ensures
        match d {
            Some(w) => speech_retry_delay_of(status, attempt as nat, match retry_after {
                Some(h) => Some(h@),
                None => None,
            }) == Some(w as nat),
            None => speech_retry_delay_of(status, attempt as nat, match retry_after {
                Some(h) => Some(h@),
                None => None,
            }) is None,
        },
        d matches Some(w) ==> w <= 30 && (status == 429 || status == 503) && attempt < 4,
{
    let fallback: u64 = ((attempt as u64) + 1) * 2;
    let wait: u64 = match retry_after {
        Some(h) => {
            let hc = chars_of(h);
            match parse_unsigned(hc.as_slice(), u64::MAX) {
                Some(v) => v,
                None => fallback,
            }
        },
        None => fallback,
    };
    if (status == 429 || status == 503) && attempt < 4 {
        Some(if wait < 30 { wait } else { 30 })
    } else {
        None
    }
}

/// JSON as far as the model catalogue is read: numbers are not needed and carry no value.
#[derive(Debug)]
pub enum JsonValue {
    Null,
    Bool(bool),
    Number,
    Str(String),
    Array(Vec<JsonValue>),
    /// Members in the order the parsed object lists them; keys are distinct.
    Object(Vec<(String, JsonValue)>),
}

/// The value under `key` in an object's members.
pub open spec fn member(entries: Seq<(String, JsonValue)>, key: Seq<char>) -> Option<JsonValue>
    decreases entries.len(),
{
    if entries.len() == 0 {
        None
    } else if entries[0].0@ == key {
        Some(entries[0].1)
    } else {
        member(entries.drop_first(), key)
    }
}

/// `value.get(key)` of serde_json: a member of an object, nothing for other values.
pub open spec fn get(v: JsonValue, key: Seq<char>) -> Option<JsonValue> {
    match v {
        JsonValue::Object(entries) => member(entries@, key),
        _ => None,
    }
}

pub open spec fn repo_matches(v: JsonValue, repo: Seq<char>) -> bool {
    match get(v, "repo_id"@) {
        Some(JsonValue::Str(s)) => s@ == repo,
        _ => false,
    }
}

/// Depth-first search for the catalogue entry of a repository: an object whose `repo_id` is
/// `repo`, else the first match inside array items or object members in order. The result is
/// the path of positions leading to it.
pub open spec fn find_model_path(v: JsonValue, repo: Seq<char>) -> Option<Seq<usize>>
    decreases v,
{
    match v {
        JsonValue::Array(items) => find_in_items(items@, repo, 0),
        JsonValue::Object(entries) => {
            if repo_matches(v, repo) {
                Some(Seq::<usize>::empty())
            } else {
                find_in_members(entries@, repo, 0)
            }
        },
        _ => None,
    }
}

pub open spec fn find_in_items(items: Seq<JsonValue>, repo: Seq<char>, offset: nat) -> Option<Seq<usize>>
    decreases items,
{
    if items.len() == 0 {
        None
    } else {
        match find_model_path(items[0], repo) {
            Some(p) => Some(seq![offset as usize] + p),
            None => find_in_items(items.drop_first(), repo, offset + 1),
        }
    }
}

pub open spec fn find_in_members(entries: Seq<(String, JsonValue)>, repo: Seq<char>, offset: nat) -> Option<Seq<usize>>
    decreases entries,
{
    if entries.len() == 0 {
        None
    } else {
        match find_model_path(entries[0].1, repo) {
            Some(p) => Some(seq![offset as usize] + p),
            None => find_in_members(entries.drop_first(), repo, offset + 1),
        }
    }
}

pub open spec fn path_view(r: Option<Vec<usize>>) -> Option<Seq<usize>> {
    match r {
        Some(p) => Some(p@),
        None => None,
    }
}

/// The value of an object member, as serde_json's `Value::get` finds it.
pub fn get_member<'a>(v: &'a JsonValue, key: &str) -> (r: Option<&'a JsonValue>)
    ensures
        match r {
            Some(x) => get(*v, key@) == Some(*x),
            None => get(*v, key@) is None,
        },
{
    match v {
        JsonValue::Object(entries) => {
            let mut i: usize = 0;
            assert(entries@.skip(0) =~= entries@);
            while i < entries.len()
                invariant
                    i <= entries@.len(),
                    get(*v, key@) == member(entries@, key@),
                    member(entries@, key@) == member(entries@.skip(i as int), key@),
                decreases entries.len() - i,
            {
                assert(entries@.skip(i as int)[0] == entries@[i as int]);
                if entries[i].0 == owned(key) {
                    return Some(&entries[i].1);
                }
                assert(entries@.skip(i as int).drop_first() =~= entries@.skip(i + 1));
                i += 1;
            }
            None
        },
        _ => None,
    }
}

fn is_str_member(v: &JsonValue, key: &str, expected: &str) -> (b: bool)
    ensures
        b == (get(*v, key@) matches Some(JsonValue::Str(s)) && s@ == expected@),
{
    match get_member(v, key) {
        Some(JsonValue::Str(s)) => *s == owned(expected),
        _ => false,
    }
}

/// Finds the catalogue entry of a repository; the path of positions to it.
pub fn find_model(v: &JsonValue, repo: &str) -> (r: Option<Vec<usize>>)
    ensures
        path_view(r) == find_model_path(*v, repo@),
    decreases v,
{
    match v {
        JsonValue::Array(items) => {
            let mut i: usize = 0;
            assert(items@.skip(0) =~= items@);
            while i < items.len()
                invariant
                    i <= items@.len(),
                    find_model_path(*v, repo@) == find_in_items(items@, repo@, 0),
                    *v == JsonValue::Array(*items),
                    find_in_items(items@, repo@, 0) == find_in_items(items@.skip(i as int), repo@, i as nat),
                decreases items.len() - i,
            {
                assert(items@.skip(i as int)[0] == items@[i as int]);
                assert(decreases_to!(*v => *items));
                assert(decreases_to!(*items => items@));
                assert(decreases_to!(items@ => items@[i as int]));
                match find_model(&items[i], repo) {
                    Some(p) => {
                        let mut path = Vec::new();
                        path.push(i);
                        let mut rest = p;
                        path.append(&mut rest);
                        assert(path@ =~= seq![i] + p@);
                        return Some(path);
                    },
                    None => {},
                }
                assert(items@.skip(i as int).drop_first() =~= items@.skip(i + 1));
                i += 1;
            }
            None
        },
        JsonValue::Object(entries) => {
            if is_str_member(v, "repo_id", repo) {
                proof {
                    reveal_strlit("repo_id");
                }
                return Some(Vec::new());
            }
            let mut i: usize = 0;
            assert(entries@.skip(0) =~= entries@);
            while i < entries.len()
                invariant
                    i <= entries@.len(),
                    find_model_path(*v, repo@) == find_in_members(entries@, repo@, 0),
                    *v == JsonValue::Object(*entries),
                    find_in_members(entries@, repo@, 0) == find_in_members(entries@.skip(i as int), repo@, i as nat),
                decreases entries.len() - i,
            {
                assert(entries@.skip(i as int)[0] == entries@[i as int]);
                assert(decreases_to!(*v => *entries));
                assert(decreases_to!(*entries => entries@));
                assert(decreases_to!(entries@ => entries@[i as int]));
                assert(decreases_to!(entries@[i as int] => entries@[i as int].1));
                match find_model(&entries[i].1, repo) {
                    Some(p) => {
                        let mut path = Vec::new();
                        path.push(i);
                        let mut rest = p;
                        path.append(&mut rest);
                        assert(path@ =~= seq![i] + p@);
                        return Some(path);
                    },
                    None => {},
                }
                assert(entries@.skip(i as int).drop_first() =~= entries@.skip(i + 1));
                i += 1;
            }
            None
        },
        _ => None,
    }
}

/// The value reached by following a path of positions (array items, object members).
pub open spec fn value_at(v: JsonValue, path: Seq<usize>) -> Option<JsonValue>
    decreases path.len(),
{
    if path.len() == 0 {
        Some(v)
    } else {
        match v {
            JsonValue::Array(items) => if path[0] < items@.len() {
                value_at(items@[path[0] as int], path.drop_first())
            } else {
                None
            },
            JsonValue::Object(entries) => if path[0] < entries@.len() {
                value_at(entries@[path[0] as int].1, path.drop_first())
            } else {
                None
            },
            _ => None,
        }
    }
}

pub fn node_at<'a>(v: &'a JsonValue, path: &[usize]) -> (r: Option<&'a JsonValue>)
    ensures
        match r {
            Some(x) => value_at(*v, path@) == Some(*x),
            None => value_at(*v, path@) is None,
        },
{
    let mut cur: &JsonValue = v;
    let mut i: usize = 0;
    assert(path@.skip(0) =~= path@);
    while i < path.len()
        invariant
            i <= path@.len(),
            value_at(*v, path@) == value_at(*cur, path@.skip(i as int)),
        decreases path.len() - i,
    {
        assert(path@.skip(i as int)[0] == path@[i as int]);
        assert(path@.skip(i as int).drop_first() =~= path@.skip(i + 1));
        let k = path[i];
        match cur {
            JsonValue::Array(items) => {
                if k < items.len() {
                    cur = &items[k];
                } else {
                    return None;
                }
            },
            JsonValue::Object(entries) => {
                if k < entries.len() {
                    cur = &entries[k].1;
                } else {
                    return None;
                }
            },
            _ => {
                return None;
            },
        }
        i += 1;
    }
    assert(path@.skip(path@.len() as int) =~= Seq::<usize>::empty());
    Some(cur)
}

/// What the catalogue search finds is an entry of the requested repository: following the
/// returned path leads to an object whose `repo_id` is `repo`.
pub proof fn lemma_find_model_sound(v: JsonValue, repo: Seq<char>)
    ensures
        find_model_path(v, repo) matches Some(p) ==> (value_at(v, p) matches Some(x) && repo_matches(x, repo)),
    decreases v,
{
    match v {
        JsonValue::Array(items) => {
            assert(decreases_to!(v => items));
            assert(decreases_to!(items => items@));
            assert(items@.skip(0) =~= items@);
            lemma_find_items_sound(v, items@, repo, 0);
        },
        JsonValue::Object(entries) => {
            if !repo_matches(v, repo) {
                assert(decreases_to!(v => entries));
                assert(decreases_to!(entries => entries@));
                assert(entries@.skip(0) =~= entries@);
                lemma_find_members_sound(v, entries@, repo, 0);
            }
        },
        _ => {},
    }
}

proof fn lemma_find_items_sound(v: JsonValue, items: Seq<JsonValue>, repo: Seq<char>, offset: nat)
    requires
        v matches JsonValue::Array(all) && offset + items.len() == all@.len() && items == all@.skip(offset as int),
        decreases_to!(v => items),
    ensures
        find_in_items(items, repo, offset) matches Some(p) ==> (value_at(v, p) matches Some(x) && repo_matches(x, repo)),
    decreases items,
{
    if items.len() > 0 {
        assert(decreases_to!(items => items[0]));
        lemma_find_model_sound(items[0], repo);
        if let JsonValue::Array(all) = v {
            assert(all@[offset as int] == items[0]);
            assert(all@.len() == all.len());
            if let Some(p) = find_model_path(items[0], repo) {
                let full = seq![offset as usize] + p;
                assert(full[0] as int == offset);
                assert(full.drop_first() =~= p);
                assert(value_at(v, full) == value_at(all@[offset as int], p));
            } else {
                assert(items.drop_first() =~= all@.skip((offset + 1) as int));
                lemma_find_items_sound(v, items.drop_first(), repo, offset + 1);
            }
        }
    }
}

proof fn lemma_find_members_sound(v: JsonValue, entries: Seq<(String, JsonValue)>, repo: Seq<char>, offset: nat)
    requires
        v matches JsonValue::Object(all) && offset + entries.len() == all@.len() && entries == all@.skip(offset as int),
        decreases_to!(v => entries),
    ensures
        find_in_members(entries, repo, offset) matches Some(p) ==> (value_at(v, p) matches Some(x) && repo_matches(x, repo)),
    decreases entries,
{
    if entries.len() > 0 {
        assert(decreases_to!(entries => entries[0]));
        assert(decreases_to!(entries[0] => entries[0].1));
        lemma_find_model_sound(entries[0].1, repo);
        if let JsonValue::Object(all) = v {
            assert(all@[offset as int] == entries[0]);
            assert(all@.len() == all.len());
            if let Some(p) = find_model_path(entries[0].1, repo) {
                let full = seq![offset as usize] + p;
                assert(full[0] as int == offset);
                assert(full.drop_first() =~= p);
                assert(value_at(v, full) == value_at(all@[offset as int].1, p));
            } else {
                assert(entries.drop_first() =~= all@.skip((offset + 1) as int));
                lemma_find_members_sound(v, entries.drop_first(), repo, offset + 1);
            }
        }
    }
}

/// Flags under which a catalogue entry reports its model as present.
pub open spec fn installed_flags() -> Seq<Seq<char>> {
    seq!["installed"@, "downloaded"@, "cached"@, "is_cached"@, "ready"@]
}

/// A catalogue entry says its model is installed: one of the flags is `true`, or its `status`
/// is `installed`, `ready` or `downloaded`.
pub open spec fn model_installed(v: JsonValue) -> bool {
    (exists|i: int| 0 <= i < installed_flags().len() && get(v, #[trigger] installed_flags()[i]) == Some(JsonValue::Bool(true)))
    || (get(v, "status"@) matches Some(JsonValue::Str(s)) && (s@ == "installed"@ || s@ == "ready"@ || s@ == "downloaded"@))
}

/// A catalogue entry counts as installed exactly when one of its members `installed`,
/// `downloaded`, `cached`, `is_cached` or `ready` is `true`, or its `status` is the text
/// `installed`, `ready` or `downloaded`.
pub proof fn lemma_installed_entries(v: JsonValue)
    ensures
        model_installed(v) <==> (get(v, "installed"@) == Some(JsonValue::Bool(true)) || get(
            v,
            "downloaded"@,
        ) == Some(JsonValue::Bool(true)) || get(v, "cached"@) == Some(JsonValue::Bool(true))
            || get(v, "is_cached"@) == Some(JsonValue::Bool(true)) || get(v, "ready"@) == Some(
            JsonValue::Bool(true),
        ) || (get(v, "status"@) matches Some(JsonValue::Str(s)) && (s@ == "installed"@ || s@
            == "ready"@ || s@ == "downloaded"@))),
{
    let f = installed_flags();
    assert(f[0] == "installed"@);
    assert(f[1] == "downloaded"@);
    assert(f[2] == "cached"@);
    assert(f[3] == "is_cached"@);
    assert(f[4] == "ready"@);
}

fn is_true_member(v: &JsonValue, key: &str) -> (b: bool)
    ensures
        b == (get(*v, key@) == Some(JsonValue::Bool(true))),
{
    match get_member(v, key) {
        Some(JsonValue::Bool(b)) => *b,
        _ => false,
    }
}

pub fn model_is_installed(v: &JsonValue) -> (b: bool)
    ensures
        b == model_installed(*v),
{
    let flags = vec!["installed", "downloaded", "cached", "is_cached", "ready"];
    proof {
        reveal_strlit("installed");
        reveal_strlit("downloaded");
        reveal_strlit("cached");
        reveal_strlit("is_cached");
        reveal_strlit("ready");
        assert(flags@.map_values(|f: &str| f@) =~= installed_flags());
    }
    let mut i: usize = 0;
    while i < flags.len()
        invariant
            i <= flags@.len(),
            flags@.map_values(|f: &str| f@) == installed_flags(),
            forall|j: int| 0 <= j < i ==> get(*v, #[trigger] installed_flags()[j]) != Some(JsonValue::Bool(true)),
        decreases flags.len() - i,
    {
        assert(flags@[i as int]@ == installed_flags()[i as int]);
        if is_true_member(v, flags[i]) {
            return true;
        }
        i += 1;
    }
    is_str_member(v, "status", "installed") || is_str_member(v, "status", "ready") || is_str_member(v, "status", "downloaded")
}

/// Position of the install job for a repository in the status list.
pub fn find_job(jobs: &Vec<JsonValue>, repo: &str) -> (r: Option<usize>)
    ensures
        match r {
            Some(i) => i < jobs@.len() && repo_matches(jobs@[i as int], repo@) && forall|j: int| 0 <= j < i ==> !repo_matches(#[trigger] jobs@[j], repo@),
            None => forall|j: int| 0 <= j < jobs@.len() ==> !repo_matches(#[trigger] jobs@[j], repo@),
        },
{
    let mut i: usize = 0;
    while i < jobs.len()
        invariant
            i <= jobs@.len(),
            forall|j: int| 0 <= j < i ==> !repo_matches(#[trigger] jobs@[j], repo@),
        decreases jobs.len() - i,
    {
        if is_str_member(&jobs[i], "repo_id", repo) {
            proof {
                reveal_strlit("repo_id");
            }
            return Some(i);
        }
        proof {
            reveal_strlit("repo_id");
        }
        i += 1;
    }
    None
}

/// Error text of a failed install job: its `error` member, else its `message` member, when
/// that is a string; else a generic text.
pub open spec fn job_error_text(job: JsonValue) -> Seq<char> {
    let m = match get(job, "error"@) {
        Some(e) => Some(e),
        None => get(job, "message"@),
    };
    match m {
        Some(JsonValue::Str(s)) => s@,
        _ => "model download failed"@,
    }
}

/// For an install job whose `state` is `failed`, the error to report.
pub fn job_failure(job: &JsonValue, repo: &str) -> (r: Option<String>)
    ensures
        (get(*job, "state"@) matches Some(JsonValue::Str(s)) && s@ == "failed"@) <==> r is Some,
        r matches Some(m) ==> m@ == "VoiceStudio model install failed for "@ + repo@ + ": "@ + job_error_text(*job),
{
    if !is_str_member(job, "state", "failed") {
        return None;
    }
    let chosen = match get_member(job, "error") {
        Some(e) => Some(e),
        None => get_member(job, "message"),
    };
    let mut m = owned("VoiceStudio model install failed for ");
    push_str(&mut m, repo);
    push_str(&mut m, ": ");
    match chosen {
        Some(JsonValue::Str(t)) => push_str(&mut m, t.as_str()),
        _ => push_str(&mut m, "model download failed"),
    }
    Some(m)
}

} // verus!
