//! Choosing the input videos: single files, direct children of a folder, natural order.
use vstd::prelude::*;

use crate::model::{video_extension_list, video_extensions};
use crate::text::{
    chars_of, decimal, digit_char, eq_ignore_ascii_case, eq_ignore_case, is_digit, owned, push_char,
};
use crate::voicestudio::{all_digits, parse_unsigned, unsigned_value};

verus! {

/// A file with one of the video extensions (any ASCII case) is accepted.
pub open spec fn supported_video(is_file: bool, extension: Option<Seq<char>>) -> bool {
    is_file && match extension {
        Some(ext) => exists|i: int|
            0 <= i < video_extensions().len() && eq_ignore_case(ext, #[trigger] video_extensions()[i]),
        None => false,
    }
}

/// The accepted inputs are exactly files whose extension is MP4, MKV, MOV, AVI, WebM, M4V or
/// TS, in any ASCII case.
pub proof fn lemma_supported_extensions(is_file: bool, extension: Option<Seq<char>>)
    ensures
        supported_video(is_file, extension) <==> is_file && match extension {
            Some(e) => eq_ignore_case(e, "mp4"@) || eq_ignore_case(e, "mkv"@) || eq_ignore_case(
                e,
                "mov"@,
            ) || eq_ignore_case(e, "avi"@) || eq_ignore_case(e, "webm"@) || eq_ignore_case(
                e,
                "m4v"@,
            ) || eq_ignore_case(e, "ts"@),
            None => false,
        },
{
    let v = video_extensions();
    assert(v[0] == "mp4"@);
    assert(v[1] == "mkv"@);
    assert(v[2] == "mov"@);
    assert(v[3] == "avi"@);
    assert(v[4] == "webm"@);
    assert(v[5] == "m4v"@);
    assert(v[6] == "ts"@);
}

/// Whether a path is a supported video, from whether it is a file and its extension.
pub fn is_supported_video(is_file: bool, extension: Option<&str>) -> (b: bool)
    ensures
        b == supported_video(
            is_file,
            match extension {
                Some(e) => Some(e@),
                None => None,
            },
        ),
{
    if !is_file {
        return false;
    }
    match extension {
        None => false,
        Some(ext) => {
            let cs = chars_of(ext);
            let allowed = video_extension_list();
            let mut i: usize = 0;
            while i < allowed.len()
                invariant
                    is_file,
                    extension == Some(ext),
                    i <= allowed@.len(),
                    allowed@.len() == video_extensions().len(),
                    forall|j: int|
                        0 <= j < allowed@.len() ==> (#[trigger] allowed@[j])@
                            == video_extensions()[j],
                    cs@ == ext@,
                    forall|j: int|
                        0 <= j < i ==> !eq_ignore_case(ext@, #[trigger] video_extensions()[j]),
                decreases allowed.len() - i,
            {
                if eq_ignore_ascii_case(cs.as_slice(), allowed[i]) {
                    assert(eq_ignore_case(ext@, video_extensions()[i as int]));
                    return true;
                }
                i += 1;
            }
            false
        },
    }
}

/// Lower-case form of a text (`str::to_lowercase`, full Unicode case mapping).
pub uninterp spec fn lowercase(s: Seq<char>) -> Seq<char>;

/// `str::to_lowercase`: the result is the Unicode lower-case mapping of the argument, which
/// depends on the text alone. Nothing further (such as its length) is claimed.
#[verifier::external_body]
fn to_lowercase(s: &str) -> (r: String)
    ensures
        r@ == lowercase(s@),
{
    s.to_lowercase()
}

/// One piece of a natural sort key: a run of non-digits, or a run of ASCII digits read as a
/// number.
#[derive(Debug, Clone)]
pub enum NaturalPart {
    Text(String),
    Number(u64),
}

/// Maximal runs of `s` whose characters are all digits or all non-digits.
pub open spec fn runs(s: Seq<char>) -> Seq<Seq<char>>
    decreases s.len(),
{
    if s.len() == 0 {
        seq![]
    } else {
        let r = runs(s.drop_last());
        let c = s.last();
        if r.len() > 0 && r.last().len() > 0 && is_digit(r.last().last()) == is_digit(c) {
            r.update(r.len() - 1, r.last().push(c))
        } else {
            r.push(seq![c])
        }
    }
}

/// Decimal value of a digit string.
pub open spec fn digits_value(d: Seq<char>) -> nat
    decreases d.len(),
{
    if d.len() == 0 {
        0
    } else {
        digits_value(d.drop_last()) * 10 + ((d.last() as u32) - ('0' as u32)) as nat
    }
}

/// The number a digit run stands for; values beyond `u64::MAX` become `u64::MAX`.
pub open spec fn run_number(d: Seq<char>) -> nat {
    if digits_value(d) > u64::MAX {
        u64::MAX as nat
    } else {
        digits_value(d)
    }
}

/// `p` is the key part for the run `run`.
pub open spec fn part_is(p: NaturalPart, run: Seq<char>) -> bool {
    if run.len() > 0 && is_digit(run[0]) {
        p matches NaturalPart::Number(n) && n == run_number(run)
    } else {
        p matches NaturalPart::Text(t) && t@ == run
    }
}

/// The mathematical value of a key part.
pub enum KeyPart {
    Text(Seq<char>),
    Number(nat),
}

pub open spec fn part_view(p: NaturalPart) -> KeyPart {
    match p {
        NaturalPart::Text(t) => KeyPart::Text(t@),
        NaturalPart::Number(n) => KeyPart::Number(n as nat),
    }
}

pub open spec fn key_view(k: Seq<NaturalPart>) -> Seq<KeyPart> {
    k.map_values(|p: NaturalPart| part_view(p))
}

pub open spec fn run_part(run: Seq<char>) -> KeyPart {
    if run.len() > 0 && is_digit(run[0]) {
        KeyPart::Number(run_number(run))
    } else {
        KeyPart::Text(run)
    }
}

/// The key of a text: its runs, digit runs read as numbers.
pub open spec fn text_key_of(s: Seq<char>) -> Seq<KeyPart> {
    runs(s).map_values(|r: Seq<char>| run_part(r))
}

/// The natural sort key of a file name: the key of its lower-cased form.
pub open spec fn name_key(name: Seq<char>) -> Seq<KeyPart> {
    text_key_of(lowercase(name))
}

/// `key` is the key of the text `s`, part by part.
pub open spec fn key_of(key: Seq<NaturalPart>, s: Seq<char>) -> bool {
    key.len() == runs(s).len() && forall|i: int|
        0 <= i < key.len() ==> part_is(#[trigger] key[i], runs(s)[i])
}

/// Runs are never empty and a run's characters are all digits or all non-digits.
pub open spec fn runs_shape(r: Seq<Seq<char>>) -> bool {
    forall|i: int|
        0 <= i < r.len() ==> (#[trigger] r[i]).len() > 0 && forall|j: int|
            0 <= j < r[i].len() ==> is_digit(#[trigger] r[i][j]) == is_digit(r[i][0])
}

proof fn lemma_runs_shape(s: Seq<char>)
    ensures
        runs_shape(runs(s)),
    decreases s.len(),
{
    if s.len() > 0 {
        lemma_runs_shape(s.drop_last());
        let r = runs(s.drop_last());
        let c = s.last();
        if r.len() > 0 && r.last().len() > 0 && is_digit(r.last().last()) == is_digit(c) {
            let nr = r.update(r.len() - 1, r.last().push(c));
            assert forall|i: int| 0 <= i < nr.len() implies (#[trigger] nr[i]).len() > 0 && forall|
                j: int,
            | 0 <= j < nr[i].len() ==> is_digit(#[trigger] nr[i][j]) == is_digit(nr[i][0]) by {
                if i == nr.len() - 1 {
                    assert forall|j: int| 0 <= j < nr[i].len() implies is_digit(#[trigger] nr[i][j])
                        == is_digit(nr[i][0]) by {
                        if j < nr[i].len() - 1 {
                            assert(nr[i][j] == r.last()[j]);
                        }
                        assert(is_digit(r.last().last()) == is_digit(r.last()[0]));
                    }
                }
            }
        }
    }
}

/// Value of a digit string with overflow detection (`u64::from_str` on ASCII digits).
fn parse_digits(d: &[char]) -> (r: Option<u64>)
    requires
        forall|i: int| 0 <= i < d@.len() ==> is_digit(#[trigger] d@[i]),
    ensures
        r matches Some(n) ==> n == digits_value(d@),
        r is None ==> digits_value(d@) > u64::MAX,
{
    let mut v: u64 = 0;
    let mut i: usize = 0;
    while i < d.len()
        invariant
            i <= d@.len(),
            forall|k: int| 0 <= k < d@.len() ==> is_digit(#[trigger] d@[k]),
            v == digits_value(d@.take(i as int)),
        decreases d.len() - i,
    {
        assert(d@.take(i + 1).drop_last() =~= d@.take(i as int));
        let digit: u64 = ((d[i] as u32) - ('0' as u32)) as u64;
        assert(is_digit(d@[i as int]));
        if v > (u64::MAX - digit) / 10 {
            proof {
                lemma_digits_monotone(d@, i + 1);
            }
            return None;
        }
        v = v * 10 + digit;
        i += 1;
    }
    assert(d@.take(d@.len() as int) =~= d@);
    Some(v)
}

proof fn lemma_digits_monotone(d: Seq<char>, k: int)
    requires
        0 <= k <= d.len(),
        forall|i: int| 0 <= i < d.len() ==> is_digit(#[trigger] d[i]),
    ensures
        digits_value(d.take(k)) <= digits_value(d),
    decreases d.len() - k,
{
    if k < d.len() {
        lemma_digits_monotone(d, k + 1);
        assert(d.take(k + 1).drop_last() =~= d.take(k));
        assert(is_digit(d[k]));
    } else {
        assert(d.take(k) =~= d);
    }
}

/// Value of a digit string, `None` when it exceeds `u64::MAX`.
pub fn parse_digits_value(d: &[char]) -> (r: Option<u64>)
    requires
        forall|i: int| 0 <= i < d@.len() ==> is_digit(#[trigger] d@[i]),
    ensures
        r matches Some(n) ==> n == digits_value(d@),
        r is None ==> digits_value(d@) > u64::MAX,
{
    parse_digits(d)
}

/// The part made of a finished run: for a numeric run its value as a `u64` (`u64::MAX` when
/// it does not parse as one), else the run's text.
pub open spec fn pushed_part(run: Seq<char>, numeric: bool) -> KeyPart {
    if numeric {
        KeyPart::Number(
            match unsigned_value(run, u64::MAX as nat) {
                Some(v) => v,
                None => u64::MAX as nat,
            },
        )
    } else {
        KeyPart::Text(run)
    }
}

/// For a run of one class, the pushed part is the run's key part.
proof fn lemma_pushed_part_is(run: Seq<char>, numeric: bool, p: NaturalPart)
    requires
        run.len() > 0,
        is_digit(run[0]) == numeric,
        numeric ==> forall|i: int| 0 <= i < run.len() ==> is_digit(#[trigger] run[i]),
        part_view(p) == pushed_part(run, numeric),
    ensures
        part_is(p, run),
{
    if numeric {
        assert(run[0] != '+');
        assert(all_digits(run));
    }
}

/// Moves the finished run `current` into the key.
pub fn push_part(out: &mut Vec<NaturalPart>, current: &mut String, numeric: bool)
    ensures
        old(current)@.len() == 0 ==> final(out)@ == old(out)@ && final(current)@ == old(
            current,
        )@,
        old(current)@.len() > 0 ==> final(out)@.len() == old(out)@.len() + 1 && final(out)@.take(
            old(out)@.len() as int,
        ) == old(out)@ && part_view(final(out)@.last()) == pushed_part(old(current)@, numeric)
            && final(current)@.len() == 0,
{
    let cs = chars_of(current.as_str());
    if cs.len() == 0 {
        return;
    }
    if numeric {
        let n = match parse_unsigned(cs.as_slice(), u64::MAX) {
            Some(n) => n,
            None => u64::MAX,
        };
        out.push(NaturalPart::Number(n));
        *current = String::new();
    } else {
        let mut text = String::new();
        std::mem::swap(&mut text, current);
        out.push(NaturalPart::Text(text));
    }
    assert(out@.take(old(out)@.len() as int) =~= old(out)@);
}

/// Natural sort key of a file name: the lower-cased name cut into digit and non-digit runs.
pub fn natural_key(name: &str) -> (key: Vec<NaturalPart>)
    ensures
        key_view(key@) == name_key(name@),
{
    let lower = to_lowercase(name);
    text_key(lower.as_str())
}

/// Key of an already lower-cased name: its digit and non-digit runs, digit runs as numbers
/// (a run too large for `u64` counts as `u64::MAX`).
pub fn text_key(lower: &str) -> (key: Vec<NaturalPart>)
    ensures
        key_view(key@) == text_key_of(lower@),
{
    let cs = chars_of(lower);
    let ghost s = cs@;
    let mut parts: Vec<NaturalPart> = Vec::new();
    let mut current = String::new();
    let mut numeric: Option<bool> = None;
    let mut i: usize = 0;
    proof {
        lemma_runs_shape(s);
    }
    while i < cs.len()
        invariant
            i <= s.len(),
            s == cs@,
            s == lower@,
            i == 0 ==> numeric is None && parts@.len() == 0 && current@.len() == 0,
            i > 0 ==> {
                let r = runs(s.take(i as int));
                &&& numeric matches Some(b) && b == is_digit(current@[0])
                &&& current@.len() > 0
                &&& r.len() == parts@.len() + 1
                &&& r.last() == current@
                &&& forall|k: int| 0 <= k < parts@.len() ==> part_is(#[trigger] parts@[k], r[k])
                &&& forall|k: int|
                    0 <= k < current@.len() ==> is_digit(#[trigger] current@[k]) == is_digit(
                        current@[0],
                    )
            },
        decreases s.len() - i,
    {
        let ch = cs[i];
        let is_num = '0' <= ch && ch <= '9';
        let ghost prev = s.take(i as int);
        let ghost next = s.take(i + 1);
        proof {
            assert(next.drop_last() =~= prev);
            assert(next.last() == ch);
            lemma_runs_shape(prev);
        }
        if let Some(was_num) = numeric {
            if was_num != is_num {
                let ghost old_parts = parts@;
                let ghost run = current@;
                push_part(&mut parts, &mut current, was_num);
                proof {
                    lemma_pushed_part_is(run, was_num, parts@.last());
                    let r = runs(prev);
                    assert forall|k: int| 0 <= k < parts@.len() implies part_is(
                        #[trigger] parts@[k],
                        r[k],
                    ) by {
                        if k < old_parts.len() {
                            assert(parts@[k] == parts@.take(old_parts.len() as int)[k]);
                        }
                    }
                }
            }
        }
        numeric = Some(is_num);
        push_char(&mut current, ch);
        proof {
            let r = runs(prev);
            let rn = runs(next);
            if i > 0 {
                assert(r.last().last() == r.last()[r.last().len() - 1]);
            }
            assert forall|k: int| 0 <= k < parts@.len() implies part_is(#[trigger] parts@[k], rn[k]) by {
                assert(rn[k] == r[k]);
            }
        }
        i += 1;
    }
    if let Some(is_num) = numeric {
        let ghost old_parts = parts@;
        let ghost run = current@;
        push_part(&mut parts, &mut current, is_num);
        proof {
            lemma_pushed_part_is(run, is_num, parts@.last());
            assert(s.take(s.len() as int) =~= s);
            let r = runs(s);
            assert forall|k: int| 0 <= k < parts@.len() implies part_is(#[trigger] parts@[k], r[k]) by {
                if k < old_parts.len() {
                    assert(parts@[k] == parts@.take(old_parts.len() as int)[k]);
                }
            }
        }
    } else {
        assert(s.len() == 0);
    }
    proof {
        assert(key_of(parts@, lower@));
        assert(key_view(parts@) =~= text_key_of(lower@));
    }
    parts
}

/// Text order of `String`: lexicographic by character.
pub open spec fn text_lt(a: Seq<char>, b: Seq<char>) -> bool
    decreases a.len(),
{
    if a.len() == 0 {
        b.len() > 0
    } else if b.len() == 0 {
        false
    } else if a[0] != b[0] {
        a[0] < b[0]
    } else {
        text_lt(a.drop_first(), b.drop_first())
    }
}

/// Order of key parts: text before numbers, texts by character, numbers by value.
pub open spec fn part_lt(p: KeyPart, q: KeyPart) -> bool {
    match (p, q) {
        (KeyPart::Text(x), KeyPart::Text(y)) => text_lt(x, y),
        (KeyPart::Text(_), KeyPart::Number(_)) => true,
        (KeyPart::Number(_), KeyPart::Text(_)) => false,
        (KeyPart::Number(m), KeyPart::Number(n)) => m < n,
    }
}

/// Order of keys: lexicographic by part, a proper prefix first.
pub open spec fn key_lt(a: Seq<KeyPart>, b: Seq<KeyPart>) -> bool
    decreases a.len(),
{
    if a.len() == 0 {
        b.len() > 0
    } else if b.len() == 0 {
        false
    } else if a[0] != b[0] {
        part_lt(a[0], b[0])
    } else {
        key_lt(a.drop_first(), b.drop_first())
    }
}

fn text_less(a: &String, b: &String) -> (r: bool)
    ensures
        r == text_lt(a@, b@),
{
    let x = chars_of(a.as_str());
    let y = chars_of(b.as_str());
    let mut i: usize = 0;
    assert(x@.skip(0) =~= x@);
    assert(y@.skip(0) =~= y@);
    while i < x.len() && i < y.len() && x[i] == y[i]
        invariant
            i <= x@.len(),
            i <= y@.len(),
            text_lt(a@, b@) == text_lt(x@.skip(i as int), y@.skip(i as int)),
            x@ == a@,
            y@ == b@,
        decreases x.len() - i,
    {
        assert(x@.skip(i as int).drop_first() =~= x@.skip(i + 1));
        assert(y@.skip(i as int).drop_first() =~= y@.skip(i + 1));
        i += 1;
    }
    if i == x.len() {
        i < y.len()
    } else if i == y.len() {
        false
    } else {
        x[i] < y[i]
    }
}

fn part_equal(p: &NaturalPart, q: &NaturalPart) -> (r: bool)
    ensures
        r == (part_view(*p) == part_view(*q)),
{
    match (p, q) {
        (NaturalPart::Text(x), NaturalPart::Text(y)) => {
            let r = !text_less(x, y) && !text_less(y, x);
            proof {
                lemma_text_trichotomy(x@, y@);
            }
            r
        },
        (NaturalPart::Number(m), NaturalPart::Number(n)) => *m == *n,
        _ => false,
    }
}

proof fn lemma_text_trichotomy(a: Seq<char>, b: Seq<char>)
    ensures
        a != b <==> (text_lt(a, b) || text_lt(b, a)),
        !(text_lt(a, b) && text_lt(b, a)),
    decreases a.len(),
{
    if a.len() > 0 && b.len() > 0 {
        if a[0] == b[0] {
            lemma_text_trichotomy(a.drop_first(), b.drop_first());
            if a.drop_first() =~= b.drop_first() {
                assert forall|i: int| 0 <= i < a.len() implies a[i] == b[i] by {
                    if i > 0 {
                        assert(a[i] == a.drop_first()[i - 1]);
                        assert(b[i] == b.drop_first()[i - 1]);
                    }
                }
                assert(a =~= b);
            } else {
                assert(a != b);
            }
        } else {
            assert(a != b);
        }
    } else if a.len() == 0 && b.len() == 0 {
        assert(a =~= b);
    } else {
        assert(a.len() != b.len());
    }
}

fn part_less(p: &NaturalPart, q: &NaturalPart) -> (r: bool)
    ensures
        r == part_lt(part_view(*p), part_view(*q)),
{
    match (p, q) {
        (NaturalPart::Text(x), NaturalPart::Text(y)) => text_less(x, y),
        (NaturalPart::Text(_), NaturalPart::Number(_)) => true,
        (NaturalPart::Number(_), NaturalPart::Text(_)) => false,
        (NaturalPart::Number(m), NaturalPart::Number(n)) => *m < *n,
    }
}

/// Whether key `a` sorts before key `b`.
pub fn key_less(a: &Vec<NaturalPart>, b: &Vec<NaturalPart>) -> (r: bool)
    ensures
        r == key_lt(key_view(a@), key_view(b@)),
{
    let ghost ka = key_view(a@);
    let ghost kb = key_view(b@);
    let mut i: usize = 0;
    assert(ka.skip(0) =~= ka);
    assert(kb.skip(0) =~= kb);
    while i < a.len() && i < b.len() && part_equal(&a[i], &b[i])
        invariant
            i <= a@.len(),
            i <= b@.len(),
            ka == key_view(a@),
            kb == key_view(b@),
            key_lt(ka, kb) == key_lt(ka.skip(i as int), kb.skip(i as int)),
        decreases a.len() - i,
    {
        assert(ka.skip(i as int).drop_first() =~= ka.skip(i + 1));
        assert(kb.skip(i as int).drop_first() =~= kb.skip(i + 1));
        assert(ka.skip(i as int)[0] == ka[i as int]);
        assert(kb.skip(i as int)[0] == kb[i as int]);
        i += 1;
    }
    if i == a.len() {
        i < b.len()
    } else if i == b.len() {
        false
    } else {
        assert(ka.skip(i as int)[0] == ka[i as int]);
        assert(kb.skip(i as int)[0] == kb[i as int]);
        part_less(&a[i], &b[i])
    }
}

proof fn lemma_text_lt_transitive(a: Seq<char>, b: Seq<char>, c: Seq<char>)
    requires
        text_lt(a, b),
        text_lt(b, c),
    ensures
        text_lt(a, c),
    decreases a.len(),
{
    if a.len() > 0 && b.len() > 0 && c.len() > 0 && a[0] == b[0] && b[0] == c[0] {
        lemma_text_lt_transitive(a.drop_first(), b.drop_first(), c.drop_first());
    }
}

proof fn lemma_text_lt_irreflexive(a: Seq<char>)
    ensures
        !text_lt(a, a),
    decreases a.len(),
{
    if a.len() > 0 {
        lemma_text_lt_irreflexive(a.drop_first());
    }
}

proof fn lemma_part_order(p: KeyPart, q: KeyPart, r: KeyPart)
    ensures
        part_lt(p, q) && part_lt(q, r) ==> part_lt(p, r),
        !part_lt(p, p),
        p == q || part_lt(p, q) || part_lt(q, p),
{
    match (p, q, r) {
        (KeyPart::Text(x), KeyPart::Text(y), KeyPart::Text(z)) => {
            if text_lt(x, y) && text_lt(y, z) {
                lemma_text_lt_transitive(x, y, z);
            }
        },
        _ => {},
    }
    if let KeyPart::Text(x) = p {
        lemma_text_lt_irreflexive(x);
        if let KeyPart::Text(y) = q {
            lemma_text_trichotomy(x, y);
        }
    }
}

/// The key order is a strict total order: irreflexive, transitive, and any two different keys
/// are ordered one way or the other.
pub proof fn lemma_key_order(a: Seq<KeyPart>, b: Seq<KeyPart>, c: Seq<KeyPart>)
    ensures
        !key_lt(a, a),
        key_lt(a, b) && key_lt(b, c) ==> key_lt(a, c),
        a == b || key_lt(a, b) || key_lt(b, a),
    decreases a.len(),
{
    if a.len() > 0 {
        lemma_part_order(a[0], a[0], a[0]);
        lemma_key_order(a.drop_first(), a.drop_first(), a.drop_first());
    }
    if a.len() > 0 && b.len() > 0 && c.len() > 0 {
        lemma_part_order(a[0], b[0], c[0]);
        lemma_part_order(b[0], a[0], c[0]);
        lemma_part_order(a[0], c[0], b[0]);
        lemma_key_order(a.drop_first(), b.drop_first(), c.drop_first());
    } else if a.len() > 0 && b.len() > 0 {
        lemma_part_order(a[0], b[0], a[0]);
        lemma_key_order(a.drop_first(), b.drop_first(), b.drop_first());
    }
    if a.len() > 0 && b.len() > 0 && a[0] == b[0] && a.drop_first() == b.drop_first() {
        assert forall|i: int| 0 <= i < a.len() implies a[i] == b[i] by {
            if i > 0 {
                assert(a[i] == a.drop_first()[i - 1]);
                assert(b[i] == b.drop_first()[i - 1]);
            }
        }
        assert(a =~= b);
    }
    if a.len() == 0 && b.len() == 0 {
        assert(a =~= b);
    }
}

proof fn lemma_digit_char_value(k: nat)
    requires
        k < 10,
    ensures
        is_digit(digit_char(k)),
        (digit_char(k) as u32) - ('0' as u32) == k,
{
    if k == 0 {
        assert(('0' as u32) == 48);
    } else if k == 1 {
        assert(('1' as u32) == 49);
    } else if k == 2 {
        assert(('2' as u32) == 50);
    } else if k == 3 {
        assert(('3' as u32) == 51);
    } else if k == 4 {
        assert(('4' as u32) == 52);
    } else if k == 5 {
        assert(('5' as u32) == 53);
    } else if k == 6 {
        assert(('6' as u32) == 54);
    } else if k == 7 {
        assert(('7' as u32) == 55);
    } else if k == 8 {
        assert(('8' as u32) == 56);
    } else {
        assert(('9' as u32) == 57);
    }
}

/// The decimal form of `n` is a non-empty run of digits whose value is `n`.
pub proof fn lemma_decimal_value(n: nat)
    ensures
        decimal(n).len() > 0,
        forall|i: int| 0 <= i < decimal(n).len() ==> is_digit(#[trigger] decimal(n)[i]),
        digits_value(decimal(n)) == n,
    decreases n,
{
    if n < 10 {
        lemma_digit_char_value(n);
        assert(decimal(n).drop_last() =~= Seq::<char>::empty());
        assert(digits_value(Seq::<char>::empty()) == 0);
    } else {
        lemma_digit_char_value(n % 10);
        lemma_decimal_value(n / 10);
        let d = decimal(n);
        assert(d.drop_last() =~= decimal(n / 10));
        assert forall|i: int| 0 <= i < d.len() implies is_digit(#[trigger] d[i]) by {
            if i < d.len() - 1 {
                assert(d[i] == decimal(n / 10)[i]);
            }
        }
    }
}

/// Runs of a non-empty text whose characters are all of one class: the text itself.
proof fn lemma_runs_uniform(s: Seq<char>)
    requires
        s.len() > 0,
        forall|i: int| 0 <= i < s.len() ==> is_digit(#[trigger] s[i]) == is_digit(s[0]),
    ensures
        runs(s) == seq![s],
    decreases s.len(),
{
    if s.len() == 1 {
        assert(s.drop_last() =~= Seq::<char>::empty());
        assert(runs(Seq::<char>::empty()) =~= Seq::<Seq<char>>::empty());
        assert(seq![s.last()] =~= s);
    } else {
        let t = s.drop_last();
        assert forall|i: int| 0 <= i < t.len() implies is_digit(#[trigger] t[i]) == is_digit(t[0]) by {
            assert(t[i] == s[i]);
        }
        lemma_runs_uniform(t);
        assert(t.push(s.last()) =~= s);
        assert(t.last() == s[s.len() - 2]);
        assert(is_digit(t.last()) == is_digit(s[0]));
        assert(is_digit(s.last()) == is_digit(s[0]));
        assert(runs(t).last() == t);
        assert(runs(t).update(0, t.push(s.last())) =~= seq![s]);
    }
}

/// Runs of a non-digit text followed by digits: the two parts.
proof fn lemma_runs_text_then_digits(p: Seq<char>, d: Seq<char>)
    requires
        p.len() > 0,
        d.len() > 0,
        forall|i: int| 0 <= i < p.len() ==> !is_digit(#[trigger] p[i]),
        forall|i: int| 0 <= i < d.len() ==> is_digit(#[trigger] d[i]),
    ensures
        runs(p + d) == seq![p, d],
    decreases d.len(),
{
    let s = p + d;
    if d.len() == 1 {
        assert(s.drop_last() =~= p);
        lemma_runs_uniform(p);
        assert(s.last() == d[0]);
        assert(seq![s.last()] =~= d);
        assert(runs(s) =~= seq![p, d]);
    } else {
        let e = d.drop_last();
        assert forall|i: int| 0 <= i < e.len() implies is_digit(#[trigger] e[i]) by {
            assert(e[i] == d[i]);
        }
        lemma_runs_text_then_digits(p, e);
        assert(s.drop_last() =~= p + e);
        assert(s.last() == d.last());
        assert(e.last() == d[d.len() - 2]);
        assert(e.push(d.last()) =~= d);
        assert(runs(s) =~= seq![p, d]);
    }
}

/// Names that differ only in a trailing number sort by that number: for a text without digits
/// (possibly empty) followed by the decimal form of `m` or of `n`, the first key is smaller
/// exactly when `m < n` (both numbers within `u64`, beyond which digit runs all count as
/// `u64::MAX`).
pub proof fn lemma_numbers_sort_numerically(p: Seq<char>, m: nat, n: nat)
    requires
        forall|i: int| 0 <= i < p.len() ==> !is_digit(#[trigger] p[i]),
        m <= u64::MAX,
        n <= u64::MAX,
    ensures
        key_lt(text_key_of(p + decimal(m)), text_key_of(p + decimal(n))) <==> m < n,
{
    lemma_decimal_value(m);
    lemma_decimal_value(n);
    let a = text_key_of(p + decimal(m));
    let b = text_key_of(p + decimal(n));
    assert(is_digit(decimal(m)[0]));
    assert(is_digit(decimal(n)[0]));
    if p.len() == 0 {
        assert(p + decimal(m) =~= decimal(m));
        assert(p + decimal(n) =~= decimal(n));
        lemma_runs_uniform(decimal(m));
        lemma_runs_uniform(decimal(n));
        assert(a =~= seq![KeyPart::Number(m)]);
        assert(b =~= seq![KeyPart::Number(n)]);
        reveal_with_fuel(key_lt, 2);
        assert(a.drop_first() =~= Seq::<KeyPart>::empty());
        assert(b.drop_first() =~= Seq::<KeyPart>::empty());
    } else {
        lemma_runs_text_then_digits(p, decimal(m));
        lemma_runs_text_then_digits(p, decimal(n));
        assert(!is_digit(p[0]));
        assert(a =~= seq![KeyPart::Text(p), KeyPart::Number(m)]);
        assert(b =~= seq![KeyPart::Text(p), KeyPart::Number(n)]);
        lemma_text_lt_irreflexive(p);
        reveal_with_fuel(key_lt, 3);
        assert(a.drop_first() =~= seq![KeyPart::Number(m)]);
        assert(b.drop_first() =~= seq![KeyPart::Number(n)]);
        assert(a.drop_first().drop_first() =~= Seq::<KeyPart>::empty());
        assert(b.drop_first().drop_first() =~= Seq::<KeyPart>::empty());
    }
}

/// `a` may stand directly before `b`: its key is smaller, or the keys are equal and it came
/// first.
#[verifier::opaque]
pub open spec fn in_order(keys: Seq<Seq<KeyPart>>, a: int, b: int) -> bool {
    key_lt(keys[a], keys[b]) || (!key_lt(keys[b], keys[a]) && a < b)
}

/// `order` lists each position below `n` exactly once.
pub open spec fn is_permutation(order: Seq<usize>, n: nat) -> bool {
    &&& order.len() == n
    &&& forall|i: int| 0 <= i < order.len() ==> (#[trigger] order[i]) < n
    &&& forall|i: int, j: int| 0 <= i < j < order.len() ==> order[i] != order[j]
    &&& forall|w: usize| (w as int) < n ==> #[trigger] order.contains(w)
}

pub open spec fn keys_view(keys: Seq<Vec<NaturalPart>>) -> Seq<Seq<KeyPart>> {
    keys.map_values(|k: Vec<NaturalPart>| key_view(k@))
}

proof fn lemma_in_order_transitive(kv: Seq<Seq<KeyPart>>, a: int, b: int, c: int)
    requires
        in_order(kv, a, b),
        in_order(kv, b, c),
    ensures
        in_order(kv, a, c),
{
    reveal(in_order);
    lemma_key_order(kv[a], kv[b], kv[c]);
    lemma_key_order(kv[c], kv[a], kv[b]);
    lemma_key_order(kv[b], kv[c], kv[a]);
    lemma_key_order(kv[a], kv[c], kv[b]);
    lemma_key_order(kv[c], kv[b], kv[a]);
}

/// Neighbours in order make the whole sequence ordered.
proof fn lemma_sorted_from_neighbours(kv: Seq<Seq<KeyPart>>, order: Seq<usize>)
    requires
        forall|q: int| 0 <= q < order.len() - 1 ==> in_order(kv, #[trigger] order[q] as int, order[q + 1] as int),
    ensures
        forall|i: int, j: int| 0 <= i < j < order.len() ==> in_order(kv, #[trigger] order[i] as int, #[trigger] order[j] as int),
{
    assert forall|i: int, j: int| 0 <= i < j < order.len() implies in_order(kv, #[trigger] order[i] as int, #[trigger] order[j] as int) by {
        lemma_sorted_range(kv, order, i, j);
    }
}

proof fn lemma_sorted_range(kv: Seq<Seq<KeyPart>>, order: Seq<usize>, i: int, j: int)
    requires
        forall|q: int| 0 <= q < order.len() - 1 ==> in_order(kv, #[trigger] order[q] as int, order[q + 1] as int),
        0 <= i < j < order.len(),
    ensures
        in_order(kv, order[i] as int, order[j] as int),
    decreases j - i,
{
    if j > i + 1 {
        lemma_sorted_range(kv, order, i, j - 1);
        assert(in_order(kv, order[j - 1] as int, order[(j - 1) + 1] as int));
        lemma_in_order_transitive(kv, order[i] as int, order[j - 1] as int, order[j] as int);
    }
}

proof fn lemma_insert_keeps_order(kv: Seq<Seq<KeyPart>>, old_order: Seq<usize>, p: int, i: int)
    requires
        0 <= p <= old_order.len(),
        old_order.len() == i,
        i < kv.len(),
        i <= usize::MAX,
        is_permutation(old_order, i as nat),
        forall|q: int|
            0 <= q < old_order.len() - 1 ==> in_order(
                kv,
                #[trigger] old_order[q] as int,
                old_order[q + 1] as int,
            ),
        p < old_order.len() ==> key_lt(kv[i], kv[old_order[p] as int]),
        p > 0 ==> !key_lt(kv[i], kv[old_order[p - 1] as int]),
    ensures
        ({
            let order = old_order.insert(p, i as usize);
            &&& is_permutation(order, (i + 1) as nat)
            &&& forall|q: int|
                0 <= q < order.len() - 1 ==> in_order(
                    kv,
                    #[trigger] order[q] as int,
                    order[q + 1] as int,
                )
        }),
{
    lemma_insert_neighbours(kv, old_order, p, i);
    lemma_insert_permutation(old_order, p, i);
}

#[verifier::spinoff_prover]
proof fn lemma_insert_neighbours(kv: Seq<Seq<KeyPart>>, old_order: Seq<usize>, p: int, i: int)
    requires
        0 <= p <= old_order.len(),
        old_order.len() == i,
        i <= usize::MAX,
        is_permutation(old_order, i as nat),
        forall|q: int|
            0 <= q < old_order.len() - 1 ==> in_order(
                kv,
                #[trigger] old_order[q] as int,
                old_order[q + 1] as int,
            ),
        p < old_order.len() ==> key_lt(kv[i], kv[old_order[p] as int]),
        p > 0 ==> !key_lt(kv[i], kv[old_order[p - 1] as int]),
    ensures
        ({
            let order = old_order.insert(p, i as usize);
            forall|q: int|
                0 <= q < order.len() - 1 ==> in_order(
                    kv,
                    #[trigger] order[q] as int,
                    order[q + 1] as int,
                )
        }),
{
    let order = old_order.insert(p, i as usize);
    assert forall|q: int| 0 <= q < order.len() - 1 implies in_order(
        kv,
        #[trigger] order[q] as int,
        order[q + 1] as int,
    ) by {
        if q < p - 1 {
            assert(order[q] == old_order[q]);
            assert(order[q + 1] == old_order[q + 1]);
        } else if q == p - 1 {
            assert(order[q] == old_order[q]);
            assert(old_order[q] < i);
            reveal(in_order);
        } else if q == p {
            reveal(in_order);
        } else {
            assert(order[q] == old_order[q - 1]);
            assert(order[q + 1] == old_order[q]);
            assert(in_order(kv, old_order[q - 1] as int, old_order[(q - 1) + 1] as int));
        }
    }
}

#[verifier::spinoff_prover]
proof fn lemma_insert_permutation(old_order: Seq<usize>, p: int, i: int)
    requires
        0 <= p <= old_order.len(),
        old_order.len() == i,
        i <= usize::MAX,
        is_permutation(old_order, i as nat),
    ensures
        is_permutation(old_order.insert(p, i as usize), (i + 1) as nat),
{
    let order = old_order.insert(p, i as usize);
    assert forall|a: int, b: int| 0 <= a < b < order.len() implies order[a] != order[b] by {
        if a < p && b < p {
        } else if a < p && b == p {
            assert(old_order[a] < i);
        } else if a < p {
            assert(order[b] == old_order[b - 1]);
        } else if a == p {
            assert(order[b] == old_order[b - 1]);
            assert(old_order[b - 1] < i);
        } else {
            assert(order[a] == old_order[a - 1]);
            assert(order[b] == old_order[b - 1]);
        }
    }
    assert forall|w: usize| (w as int) < i + 1 implies #[trigger] order.contains(w) by {
        if (w as int) < i {
            assert(old_order.contains(w));
            let t = choose|t: int| 0 <= t < old_order.len() && old_order[t] == w;
            if t < p {
                assert(order[t] == w);
            } else {
                assert(order[t + 1] == w);
            }
        } else {
            assert(order[p] == w);
        }
    }
    assert forall|a: int| 0 <= a < order.len() implies (#[trigger] order[a]) < (i + 1) by {
        if a < p {
        } else if a > p {
            assert(order[a] == old_order[a - 1]);
        }
    }
}

/// Stable sort of positions by key (insertion sort): every position once, each before every
/// later one in key order, equal keys in their original order.
pub fn natural_order(keys: &Vec<Vec<NaturalPart>>) -> (order: Vec<usize>)
    ensures
        is_permutation(order@, keys@.len()),
        forall|i: int, j: int|
            0 <= i < j < order@.len() ==> in_order(
                keys_view(keys@),
                #[trigger] order@[i] as int,
                #[trigger] order@[j] as int,
            ),
{
    let ghost kv = keys_view(keys@);
    let mut order: Vec<usize> = Vec::new();
    let mut i: usize = 0;
    while i < keys.len()
        invariant
            i <= keys@.len(),
            kv == keys_view(keys@),
            kv.len() == keys@.len(),
            is_permutation(order@, i as nat),
            forall|q: int|
                0 <= q < order@.len() - 1 ==> in_order(
                    kv,
                    #[trigger] order@[q] as int,
                    order@[q + 1] as int,
                ),
        decreases keys.len() - i,
    {
        let mut p: usize = order.len();
        while p > 0 && key_less(&keys[i], &keys[order[p - 1]])
            invariant
                p <= order@.len(),
                order@.len() == i,
                i < keys@.len(),
                kv == keys_view(keys@),
                kv.len() == keys@.len(),
                is_permutation(order@, i as nat),
                p < order@.len() ==> key_lt(kv[i as int], kv[order@[p as int] as int]),
            decreases p,
        {
            p -= 1;
        }
        let ghost old_order = order@;
        order.insert(p, i);
        proof {
            lemma_insert_keeps_order(kv, old_order, p as int, i as int);
        }
        i += 1;
    }
    proof {
        lemma_sorted_from_neighbours(kv, order@);
    }
    order
}

/// Why an input selection is refused.
#[derive(Debug, Clone, Copy, PartialEq, Eq, Structural)]
pub enum InputError {
    UnsupportedFile,
    Missing,
    NoVideos,
}

pub open spec fn input_error_message(e: InputError) -> Seq<char> {
    match e {
        InputError::UnsupportedFile => "The selected file is not a supported video."@,
        InputError::Missing => "The selected input does not exist."@,
        InputError::NoVideos => "No supported videos were found directly inside the selected folder."@,
    }
}

impl InputError {
    pub fn message(&self) -> (m: String)
        ensures
            m@ == input_error_message(*self),
    {
        match self {
            InputError::UnsupportedFile => owned("The selected file is not a supported video."),
            InputError::Missing => owned("The selected input does not exist."),
            InputError::NoVideos => owned(
                "No supported videos were found directly inside the selected folder.",
            ),
        }
    }
}

/// What a selected path turned out to be.
#[derive(Debug, Clone, Copy, PartialEq, Eq, Structural)]
pub enum InputKind {
    SingleVideo,
    Folder,
}

pub open spec fn opt_view(o: Option<&str>) -> Option<Seq<char>> {
    match o {
        Some(e) => Some(e@),
        None => None,
    }
}

/// A selected file must be a supported video; anything that is neither file nor folder is
/// missing; a folder is scanned.
pub fn classify_input(is_file: bool, is_dir: bool, extension: Option<&str>) -> (r: Result<
    InputKind,
    InputError,
>)
    ensures
        is_file && supported_video(true, opt_view(extension)) ==> r == Ok::<
            InputKind,
            InputError,
        >(InputKind::SingleVideo),
        is_file && !supported_video(true, opt_view(extension)) ==> r == Err::<
            InputKind,
            InputError,
        >(InputError::UnsupportedFile),
        !is_file && !is_dir ==> r == Err::<InputKind, InputError>(InputError::Missing),
        !is_file && is_dir ==> r == Ok::<InputKind, InputError>(InputKind::Folder),
{
    if is_file {
        if is_supported_video(true, extension) {
            Ok(InputKind::SingleVideo)
        } else {
            Err(InputError::UnsupportedFile)
        }
    } else if !is_dir {
        Err(InputError::Missing)
    } else {
        Ok(InputKind::Folder)
    }
}

/// One direct child of the selected folder.
#[derive(Debug, Clone)]
pub struct DirEntryInfo {
    /// File name as UTF-8; empty when the name is not valid UTF-8.
    pub name: String,
    pub is_file: bool,
    /// The extension as UTF-8, if it has one that is valid UTF-8.
    pub extension: Option<String>,
}

pub open spec fn string_opt_view(o: Option<String>) -> Option<Seq<char>> {
    match o {
        Some(e) => Some(e@),
        None => None,
    }
}

pub open spec fn entry_supported(e: DirEntryInfo) -> bool {
    supported_video(e.is_file, string_opt_view(e.extension))
}

/// Entry `a` may be listed directly before entry `b`: its name sorts first naturally, or the
/// names sort equal and it came first in the folder listing.
pub open spec fn entry_in_order(entries: Seq<DirEntryInfo>, a: int, b: int) -> bool {
    let ka = name_key(entries[a].name@);
    let kb = name_key(entries[b].name@);
    key_lt(ka, kb) || (!key_lt(kb, ka) && a < b)
}

/// The supported videos among the direct children of a folder, as positions in `entries`,
/// sorted in natural order of their names. Refused when there is none.
pub fn folder_videos(entries: &Vec<DirEntryInfo>) -> (r: Result<Vec<usize>, InputError>)
    ensures
        r is Err <==> forall|j: int| 0 <= j < entries@.len() ==> !entry_supported(#[trigger] entries@[j]),
        r matches Err(e) ==> e == InputError::NoVideos,
        r matches Ok(order) ==> {
            &&& forall|j: int| 0 <= j < entries@.len() && entry_supported(#[trigger] entries@[j]) ==> order@.contains(j as usize)
            &&& forall|i: int| 0 <= i < order@.len() ==> (#[trigger] order@[i]) < entries@.len() && entry_supported(entries@[order@[i] as int])
            &&& forall|i: int, j: int| 0 <= i < j < order@.len() ==> order@[i] != order@[j]
            &&& forall|i: int, j: int| 0 <= i < j < order@.len() ==> entry_in_order(entries@, #[trigger] order@[i] as int, #[trigger] order@[j] as int)
        },
{
    let mut selected: Vec<usize> = Vec::new();
    let mut keys: Vec<Vec<NaturalPart>> = Vec::new();
    let mut i: usize = 0;
    while i < entries.len()
        invariant
            i <= entries@.len(),
            selected@.len() == keys@.len(),
            forall|a: int| 0 <= a < selected@.len() ==> (#[trigger] selected@[a]) < i && entry_supported(entries@[selected@[a] as int]),
            forall|a: int, b: int| 0 <= a < b < selected@.len() ==> selected@[a] < selected@[b],
            forall|j: int| 0 <= j < i && entry_supported(#[trigger] entries@[j]) ==> selected@.contains(j as usize),
            forall|a: int| 0 <= a < keys@.len() ==> key_view((#[trigger] keys@[a])@) == name_key(entries@[selected@[a] as int].name@),
        decreases entries.len() - i,
    {
        let e = &entries[i];
        let ext: Option<&str> = match &e.extension {
            Some(x) => Some(x.as_str()),
            None => None,
        };
        if is_supported_video(e.is_file, ext) {
            let ghost old_sel = selected@;
            selected.push(i);
            keys.push(natural_key(e.name.as_str()));
            proof {
                assert forall|j: int| 0 <= j < i + 1 && entry_supported(#[trigger] entries@[j]) implies selected@.contains(j as usize) by {
                    if j < i {
                        let w = choose|w: int| 0 <= w < old_sel.len() && old_sel[w] == j as usize;
                        assert(selected@[w] == j as usize);
                    } else {
                        assert(selected@[selected@.len() - 1] == j as usize);
                    }
                }
            }
        } else {
            proof {
                assert(!entry_supported(entries@[i as int]));
            }
        }
        i += 1;
    }
    if selected.len() == 0 {
        proof {
            assert forall|j: int| 0 <= j < entries@.len() implies !entry_supported(#[trigger] entries@[j]) by {
                if entry_supported(entries@[j]) {
                    assert(selected@.contains(j as usize));
                }
            }
        }
        return Err(InputError::NoVideos);
    }
    let positions = natural_order(&keys);
    let ghost kv = keys_view(keys@);
    let mut order: Vec<usize> = Vec::new();
    let mut k: usize = 0;
    while k < positions.len()
        invariant
            k <= positions@.len(),
            is_permutation(positions@, keys@.len() as nat),
            selected@.len() == keys@.len(),
            order@.len() == k,
            forall|a: int| 0 <= a < k ==> (#[trigger] order@[a]) == selected@[positions@[a] as int],
        decreases positions.len() - k,
    {
        order.push(selected[positions[k]]);
        k += 1;
    }
    proof {
        assert(selected@.len() > 0);
        assert(entry_supported(entries@[selected@[0] as int]));
        assert forall|j: int| 0 <= j < entries@.len() && entry_supported(#[trigger] entries@[j]) implies order@.contains(j as usize) by {
            let w = choose|w: int| 0 <= w < selected@.len() && selected@[w] == j as usize;
            assert(positions@.contains(w as usize));
            let t = choose|t: int| 0 <= t < positions@.len() && positions@[t] == w as usize;
            assert(order@[t] == j as usize);
        }
        assert forall|a: int, b: int| 0 <= a < b < order@.len() implies order@[a] != order@[b] by {
            let pa = positions@[a] as int;
            let pb = positions@[b] as int;
            assert(pa != pb);
            if pa < pb {
                assert(selected@[pa] < selected@[pb]);
            } else {
                assert(selected@[pb] < selected@[pa]);
            }
        }
        assert forall|a: int, b: int| 0 <= a < b < order@.len() implies entry_in_order(entries@, #[trigger] order@[a] as int, #[trigger] order@[b] as int) by {
            let pa = positions@[a] as int;
            let pb = positions@[b] as int;
            assert(in_order(kv, pa, pb));
            reveal(in_order);
            assert(kv[pa] == key_view(keys@[pa]@));
            assert(kv[pb] == key_view(keys@[pb]@));
            if pa < pb {
                assert(selected@[pa] < selected@[pb]);
            }
        }
    }
    Ok(order)
}

} // verus!
