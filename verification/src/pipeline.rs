//! Naming, subtitle text and batch bookkeeping of the episode pipeline.
use vstd::prelude::*;

use crate::input::{digits_value, lemma_decimal_value};
use crate::text::{
    blank_str, chars_of, contains_seq, contains_text, decimal, digit_char, is_blank, is_digit, is_cc, is_control,
    is_whitespace, is_ws, lemma_trim_by_bounds, owned, push_chars, push_decimal, push_str,
    slice_chars, string_of, trim, trim_by, trim_chars,
};

verus! {

/// Characters that Windows does not allow in file names.
pub open spec fn is_reserved_name_char(c: char) -> bool {
    c == '<' || c == '>' || c == ':' || c == '"' || c == '/' || c == '\\' || c == '|' || c == '?'
        || c == '*'
}

pub open spec fn sanitize_char(c: char) -> char {
    if is_reserved_name_char(c) || is_cc(c) {
        '_'
    } else {
        c
    }
}

/// White-space runs of `t` replaced by one space each.
pub open spec fn squeeze(t: Seq<char>) -> Seq<char>
    decreases t.len(),
{
    if t.len() == 0 {
        seq![]
    } else {
        let i = t.len() - 1;
        let prev = squeeze(t.drop_last());
        if !is_ws(t[i]) {
            prev.push(t[i])
        } else if i == 0 || !is_ws(t[i - 1]) {
            prev.push(' ')
        } else {
            prev
        }
    }
}

/// The words of `s` joined by single spaces (`split_whitespace` then `join(" ")`).
pub open spec fn collapse_ws(s: Seq<char>) -> Seq<char> {
    squeeze(trim(s))
}

pub open spec fn dot_space_pred() -> spec_fn(char) -> bool {
    |c: char| c == ' ' || c == '.'
}

/// Bytes taken by `c` in UTF-8.
pub open spec fn utf8_width(c: char) -> nat {
    let n = c as u32;
    if n < 0x80 {
        1
    } else if n < 0x800 {
        2
    } else if n < 0x10000 {
        3
    } else {
        4
    }
}

/// Length in bytes of the UTF-8 encoding of `s`.
pub open spec fn utf8_len(s: Seq<char>) -> nat
    decreases s.len(),
{
    if s.len() == 0 {
        0
    } else {
        utf8_len(s.drop_last()) + utf8_width(s.last())
    }
}

/// Byte limit of a generated file name.
pub open spec fn name_byte_limit() -> nat {
    120
}

/// The name before the length limit: reserved and control characters replaced by `_`, white
/// space collapsed, and leading and trailing spaces and dots removed.
pub open spec fn cleaned_name(value: Seq<char>) -> Seq<char> {
    trim_by(collapse_ws(value.map_values(|c: char| sanitize_char(c))), dot_space_pred())
}

/// `String::truncate(120)` only succeeds on a character boundary; this says the cleaned
/// name is short enough or has a boundary at byte 120.
pub open spec fn name_truncatable(value: Seq<char>) -> bool {
    let x = cleaned_name(value);
    utf8_len(x) <= name_byte_limit() || exists|k: int|
        0 <= k <= x.len() && #[trigger] utf8_len(x.take(k)) == name_byte_limit()
}

pub open spec fn limit_bytes(x: Seq<char>) -> Seq<char> {
    if utf8_len(x) <= name_byte_limit() {
        x
    } else {
        x.take(choose|k: int| 0 <= k <= x.len() && #[trigger] utf8_len(x.take(k)) == name_byte_limit())
    }
}

/// A Windows-safe file name for `value`; `recap` when nothing usable is left.
pub open spec fn safe_filename_of(value: Seq<char>) -> Seq<char> {
    let x = limit_bytes(cleaned_name(value));
    if x.len() == 0 {
        "recap"@
    } else {
        x
    }
}

proof fn lemma_utf8_take_step(x: Seq<char>, i: int)
    requires
        0 <= i < x.len(),
    ensures
        utf8_len(x.take(i + 1)) == utf8_len(x.take(i)) + utf8_width(x[i]),
{
    assert(x.take(i + 1).drop_last() =~= x.take(i));
}

proof fn lemma_utf8_take_increasing(x: Seq<char>, i: int, j: int)
    requires
        0 <= i < j <= x.len(),
    ensures
        utf8_len(x.take(i)) < utf8_len(x.take(j)),
    decreases j - i,
{
    lemma_utf8_take_step(x, j - 1);
    if i < j - 1 {
        lemma_utf8_take_increasing(x, i, j - 1);
    }
}

fn utf8_char_width(c: char) -> (w: usize)
    ensures
        w == utf8_width(c),
{
    let n = c as u32;
    if n < 0x80 {
        1
    } else if n < 0x800 {
        2
    } else if n < 0x10000 {
        3
    } else {
        4
    }
}

fn squeeze_chars(t: &[char]) -> (out: Vec<char>)
    ensures
        out@ == squeeze(t@),
{
    let mut out: Vec<char> = Vec::new();
    let mut i: usize = 0;
    while i < t.len()
        invariant
            i <= t.len(),
            out@ == squeeze(t@.take(i as int)),
        decreases t.len() - i,
    {
        let ghost before = t@.take(i as int);
        let ghost after = t@.take(i + 1);
        assert(after.drop_last() =~= before);
        assert(after[i as int] == t@[i as int]);
        if i > 0 {
            assert(after[i - 1] == t@[i - 1]);
        }
        if !is_whitespace(t[i]) {
            out.push(t[i]);
        } else if i == 0 || !is_whitespace(t[i - 1]) {
            out.push(' ');
        }
        i += 1;
    }
    assert(t@.take(t@.len() as int) =~= t@);
    out
}

/// `split_whitespace().join(" ")` on a character sequence.
pub fn collapse_whitespace(s: &[char]) -> (out: Vec<char>)
    ensures
        out@ == collapse_ws(s@),
{
    let t = trim_chars(s);
    squeeze_chars(t.as_slice())
}

fn trim_dots_spaces(s: &[char]) -> (out: Vec<char>)
    ensures
        out@ == trim_by(s@, dot_space_pred()),
{
    let mut lo: usize = 0;
    while lo < s.len() && (s[lo] == ' ' || s[lo] == '.')
        invariant
            lo <= s.len(),
            forall|j: int| 0 <= j < lo ==> (dot_space_pred())(#[trigger] s@[j]),
        decreases s.len() - lo,
    {
        lo += 1;
    }
    let mut hi: usize = s.len();
    while hi > lo && (s[hi - 1] == ' ' || s[hi - 1] == '.')
        invariant
            lo <= hi <= s.len(),
            forall|j: int| hi <= j < s.len() ==> (dot_space_pred())(#[trigger] s@[j]),
        decreases hi,
    {
        hi -= 1;
    }
    proof {
        lemma_trim_by_bounds(s@, dot_space_pred(), lo as int, hi as int);
    }
    slice_chars(s, lo, hi)
}

fn cleaned_name_chars(value: &str) -> (out: Vec<char>)
    ensures
        out@ == cleaned_name(value@),
{
    let cs = chars_of(value);
    let mut mapped: Vec<char> = Vec::new();
    let mut i: usize = 0;
    while i < cs.len()
        invariant
            i <= cs.len(),
            cs@ == value@,
            mapped@ == cs@.take(i as int).map_values(|c: char| sanitize_char(c)),
        decreases cs.len() - i,
    {
        let c = cs[i];
        let m = if c == '<' || c == '>' || c == ':' || c == '"' || c == '/' || c == '\\' || c == '|'
            || c == '?' || c == '*' || is_control(c) {
            '_'
        } else {
            c
        };
        mapped.push(m);
        assert(cs@.take(i + 1).map_values(|c: char| sanitize_char(c)) =~= cs@.take(
            i as int,
        ).map_values(|c: char| sanitize_char(c)).push(m));
        i += 1;
    }
    assert(cs@.take(cs@.len() as int) =~= cs@);
    let collapsed = collapse_whitespace(mapped.as_slice());
    trim_dots_spaces(collapsed.as_slice())
}

/// A file or folder name that Windows accepts, made from `value`.
pub fn safe_filename(value: &str) -> (name: String)
    requires
        name_truncatable(value@),
    ensures
        name@ == safe_filename_of(value@),
{
    let x = cleaned_name_chars(value);
    let ghost xs = x@;
    let (k, acc): (usize, usize) = name_cut(&x);
    proof {
        assert(xs.take(xs.len() as int) =~= xs);
        if utf8_len(xs) > 120 {
            if k < xs.len() {
            } else {
                assert(acc > 120);
            }
            assert(acc >= 120);
            let k2 = choose|k2: int| 0 <= k2 <= xs.len() && #[trigger] utf8_len(xs.take(k2)) == 120;
            if k2 < k {
                if k2 < k - 1 {
                    lemma_utf8_take_increasing(xs, k2, k - 1);
                }
                assert(false);
            } else if k2 > k {
                lemma_utf8_take_increasing(xs, k as int, k2);
                assert(false);
            }
            assert(k2 == k);
        } else if k < xs.len() {
            lemma_utf8_take_increasing(xs, k as int, xs.len() as int);
        }
    }
    let kept = slice_chars(x.as_slice(), 0, k);
    assert(kept@ =~= limit_bytes(cleaned_name(value@)));
    if kept.len() == 0 {
        owned("recap")
    } else {
        string_of(kept.as_slice())
    }
}

/// A character allowed in a generated name.
pub open spec fn name_safe_char(c: char) -> bool {
    !is_reserved_name_char(c) && !is_cc(c)
}

proof fn lemma_squeeze_safe(t: Seq<char>)
    requires
        forall|i: int| 0 <= i < t.len() ==> name_safe_char(#[trigger] t[i]),
    ensures
        forall|i: int| 0 <= i < squeeze(t).len() ==> name_safe_char(#[trigger] squeeze(t)[i]),
    decreases t.len(),
{
    if t.len() > 0 {
        let d = t.drop_last();
        assert forall|i: int| 0 <= i < d.len() implies name_safe_char(#[trigger] d[i]) by {
            assert(d[i] == t[i]);
        }
        lemma_squeeze_safe(d);
        assert(name_safe_char(t[t.len() - 1]));
        assert(name_safe_char(' '));
        let sq = squeeze(t);
        let prev = squeeze(d);
        assert forall|i: int| 0 <= i < sq.len() implies name_safe_char(#[trigger] sq[i]) by {
            if i < prev.len() {
                assert(sq[i] == prev[i]);
            }
        }
    }
}

/// Every generated file name is one Windows accepts: not empty, at most 120 bytes of UTF-8,
/// free of reserved and control characters, and not starting with a space or a dot.
pub proof fn lemma_safe_filename_is_windows_safe(value: Seq<char>)
    requires
        name_truncatable(value),
    ensures
        safe_filename_of(value).len() > 0,
        utf8_len(safe_filename_of(value)) <= name_byte_limit(),
        forall|i: int|
            0 <= i < safe_filename_of(value).len() ==> name_safe_char(
                #[trigger] safe_filename_of(value)[i],
            ),
        safe_filename_of(value)[0] != ' ' && safe_filename_of(value)[0] != '.',
{
    reveal_strlit("recap");
    let mapped = value.map_values(|c: char| sanitize_char(c));
    assert forall|i: int| 0 <= i < mapped.len() implies name_safe_char(#[trigger] mapped[i]) by {}
    let tr = trim(mapped);
    crate::text::lemma_lead_run(mapped, crate::text::ws_pred());
    let t0 = mapped.skip(lead_run_ws(mapped) as int);
    crate::text::lemma_trail_run(t0, crate::text::ws_pred());
    assert forall|i: int| 0 <= i < tr.len() implies name_safe_char(#[trigger] tr[i]) by {
        assert(tr[i] == t0[i]);
        assert(t0[i] == mapped[i + lead_run_ws(mapped)]);
    }
    lemma_squeeze_safe(tr);
    let sq = squeeze(tr);
    let cleaned = trim_by(sq, dot_space_pred());
    crate::text::lemma_lead_run(sq, dot_space_pred());
    let t1 = sq.skip(crate::text::lead_run(sq, dot_space_pred()) as int);
    crate::text::lemma_trail_run(t1, dot_space_pred());
    assert forall|i: int| 0 <= i < cleaned.len() implies name_safe_char(#[trigger] cleaned[i]) by {
        assert(cleaned[i] == t1[i]);
        assert(t1[i] == sq[i + crate::text::lead_run(sq, dot_space_pred())]);
    }
    if cleaned.len() > 0 {
        assert(cleaned[0] == t1[0]);
        assert(t1[0] == sq[crate::text::lead_run(sq, dot_space_pred()) as int]);
        assert(!(dot_space_pred())(cleaned[0]));
    }
    assert(cleaned == cleaned_name(value));
    let x = limit_bytes(cleaned);
    if utf8_len(cleaned) > name_byte_limit() {
        let k = choose|k: int| 0 <= k <= cleaned.len() && #[trigger] utf8_len(cleaned.take(k)) == name_byte_limit();
        assert(x == cleaned.take(k));
        assert forall|i: int| 0 <= i < x.len() implies name_safe_char(#[trigger] x[i]) by {
            assert(x[i] == cleaned[i]);
        }
        if x.len() > 0 {
            assert(x[0] == cleaned[0]);
        }
    }
    if x.len() == 0 {
        assert(safe_filename_of(value) == "recap"@);
        assert(utf8_len("recap"@) == 5) by {
            reveal_with_fuel(utf8_len, 6);
        }
    }
}

/// Every white-space character of `t` is a space between two other characters.
pub open spec fn single_spaced(t: Seq<char>) -> bool {
    forall|i: int|
        0 <= i < t.len() && is_ws(#[trigger] t[i]) ==> t[i] == ' ' && 0 < i && !is_ws(t[i - 1])
            && i + 1 < t.len() && !is_ws(t[i + 1])
}

/// Every white-space character of `t` is a space right after another character.
spec fn spaces_after_words(t: Seq<char>) -> bool {
    forall|i: int|
        0 <= i < t.len() && is_ws(#[trigger] t[i]) ==> t[i] == ' ' && 0 < i && !is_ws(t[i - 1])
}

/// Squeezing a text that starts with a non-space leaves single spaces after words, and ends in
/// white space exactly when the text does.
proof fn lemma_squeeze_shape(t: Seq<char>)
    requires
        t.len() > 0 ==> !is_ws(t[0]),
    ensures
        spaces_after_words(squeeze(t)),
        forall|i: int|
            0 <= i < squeeze(t).len() - 1 && is_ws(#[trigger] squeeze(t)[i]) ==> !is_ws(
                squeeze(t)[i + 1],
            ),
        t.len() > 0 ==> squeeze(t).len() > 0 && (is_ws(squeeze(t).last()) <==> is_ws(t.last())),
    decreases t.len(),
{
    if t.len() > 0 {
        let d = t.drop_last();
        let c = t.last();
        if d.len() > 0 {
            assert(d[0] == t[0]);
        }
        lemma_squeeze_shape(d);
        let prev = squeeze(d);
        let s = squeeze(t);
        let i = t.len() - 1;
        assert(t[i] == c);
        if d.len() == 0 {
            assert(prev =~= Seq::<char>::empty());
            assert(!is_ws(c));
            assert(s =~= seq![c]);
        } else {
            assert(t[i - 1] == d.last());
            if !is_ws(c) {
                assert(s == prev.push(c));
                assert forall|j: int| 0 <= j < s.len() && is_ws(#[trigger] s[j]) implies s[j] == ' '
                    && 0 < j && !is_ws(s[j - 1]) by {
                    assert(s[j] == prev[j]);
                    assert(s[j - 1] == prev[j - 1]);
                }
                assert forall|j: int| 0 <= j < s.len() - 1 && is_ws(#[trigger] s[j]) implies !is_ws(
                    s[j + 1],
                ) by {
                    assert(s[j] == prev[j]);
                    if j + 1 < prev.len() {
                        assert(s[j + 1] == prev[j + 1]);
                    }
                }
            } else if !is_ws(d.last()) {
                assert(s == prev.push(' '));
                assert(!is_ws(prev.last()));
                assert forall|j: int| 0 <= j < s.len() && is_ws(#[trigger] s[j]) implies s[j] == ' '
                    && 0 < j && !is_ws(s[j - 1]) by {
                    if j < prev.len() {
                        assert(s[j] == prev[j]);
                        assert(s[j - 1] == prev[j - 1]);
                    } else {
                        assert(s[j - 1] == prev.last());
                    }
                }
                assert forall|j: int| 0 <= j < s.len() - 1 && is_ws(#[trigger] s[j]) implies !is_ws(
                    s[j + 1],
                ) by {
                    assert(s[j] == prev[j]);
                    if j + 1 < prev.len() {
                        assert(s[j + 1] == prev[j + 1]);
                    }
                }
            } else {
                assert(s == prev);
            }
        }
    }
}

/// Squeezing a text whose white space is already single spaces after words changes nothing.
proof fn lemma_squeeze_fixed(t: Seq<char>)
    requires
        spaces_after_words(t),
    ensures
        squeeze(t) == t,
    decreases t.len(),
{
    if t.len() > 0 {
        let d = t.drop_last();
        let i = t.len() - 1;
        assert forall|j: int| 0 <= j < d.len() && is_ws(#[trigger] d[j]) implies d[j] == ' ' && 0 < j
            && !is_ws(d[j - 1]) by {
            assert(d[j] == t[j]);
            assert(d[j - 1] == t[j - 1]);
        }
        lemma_squeeze_fixed(d);
        if is_ws(t[i]) {
            assert(t[i] == ' ' && i > 0 && !is_ws(t[i - 1]));
        }
        assert(squeeze(t) =~= t);
    }
}

/// A text whose first and last characters fail `p` is its own `trim_by`.
proof fn lemma_trim_by_fixed(s: Seq<char>, p: spec_fn(char) -> bool)
    requires
        s.len() > 0,
        !p(s[0]),
        !p(s.last()),
    ensures
        trim_by(s, p) == s,
{
    assert(crate::text::lead_run(s, p) == 0);
    assert(s.skip(0) =~= s);
    assert(crate::text::trail_run(s, p) == 0);
    assert(s.take(s.len() as int) =~= s);
}

/// A safe, single-spaced name of at most 120 bytes that neither starts nor ends with a space
/// or a dot is a fixed point of the cleaning.
proof fn lemma_safe_name_fixed(y: Seq<char>)
    requires
        y.len() > 0,
        forall|i: int| 0 <= i < y.len() ==> name_safe_char(#[trigger] y[i]),
        single_spaced(y),
        !(dot_space_pred())(y[0]),
        !(dot_space_pred())(y.last()),
        utf8_len(y) <= name_byte_limit(),
    ensures
        cleaned_name(y) == y,
        name_truncatable(y),
        safe_filename_of(y) == y,
{
    let mapped = y.map_values(|c: char| sanitize_char(c));
    assert(mapped =~= y);
    let last: int = y.len() - 1;
    if is_ws(y[0]) {
        assert(0 < 0int);
    }
    if is_ws(y[last]) {
        assert(last + 1 < y.len());
    }
    lemma_trim_by_fixed(y, crate::text::ws_pred());
    assert forall|i: int| 0 <= i < y.len() && is_ws(#[trigger] y[i]) implies y[i] == ' ' && 0 < i
        && !is_ws(y[i - 1]) by {}
    lemma_squeeze_fixed(y);
    assert(collapse_ws(y) == y);
    lemma_trim_by_fixed(y, dot_space_pred());
}

/// Applying `safe_filename` to its own result changes nothing, unless cutting at 120 bytes
/// left a space or a dot at the end (which the second call trims).
pub proof fn lemma_safe_filename_idempotent(value: Seq<char>)
    requires
        name_truncatable(value),
        safe_filename_of(value).last() != ' ',
        safe_filename_of(value).last() != '.',
    ensures
        name_truncatable(safe_filename_of(value)),
        safe_filename_of(safe_filename_of(value)) == safe_filename_of(value),
{
    lemma_safe_filename_is_windows_safe(value);
    let x = safe_filename_of(value);
    let mapped = value.map_values(|c: char| sanitize_char(c));
    let tr = trim(mapped);
    crate::text::lemma_lead_run(mapped, crate::text::ws_pred());
    let t0 = mapped.skip(lead_run_ws(mapped) as int);
    crate::text::lemma_trail_run(t0, crate::text::ws_pred());
    if tr.len() > 0 {
        assert(tr[0] == t0[0]);
        assert(tr.last() == t0[tr.len() - 1]);
    }
    lemma_squeeze_shape(tr);
    let sq = squeeze(tr);
    assert forall|i: int| 0 <= i < sq.len() && is_ws(#[trigger] sq[i]) implies i + 1 < sq.len() by {
        if i == sq.len() - 1 {
            assert(!is_ws(tr.last()));
        }
    }
    let lo = crate::text::lead_run(sq, dot_space_pred());
    crate::text::lemma_lead_run(sq, dot_space_pred());
    let t1 = sq.skip(lo as int);
    crate::text::lemma_trail_run(t1, dot_space_pred());
    let cleaned = trim_by(sq, dot_space_pred());
    assert(cleaned == cleaned_name(value));
    if cleaned.len() > 0 {
        assert(cleaned[0] == sq[lo as int]);
        assert(cleaned.last() == t1[cleaned.len() - 1]);
        assert(!(dot_space_pred())(cleaned.last()));
    }
    assert forall|i: int| 0 <= i < cleaned.len() && is_ws(#[trigger] cleaned[i]) implies cleaned[i]
        == ' ' && 0 < i && !is_ws(cleaned[i - 1]) && i + 1 < cleaned.len() && !is_ws(
        cleaned[i + 1],
    ) by {
        assert(cleaned[i] == sq[i + lo]);
        assert(sq[i + lo] == ' ');
        if i == 0 {
            assert(!(dot_space_pred())(cleaned[0]));
        }
        if i == cleaned.len() - 1 {
            assert(!(dot_space_pred())(cleaned.last()));
        }
        assert(cleaned[i - 1] == sq[i - 1 + lo]);
        assert(cleaned[i + 1] == sq[i + 1 + lo]);
    }
    let lim = limit_bytes(cleaned);
    if lim.len() == 0 {
        reveal_strlit("recap");
        assert(x == "recap"@);
        assert(x[0] == 'r' && x[1] == 'e' && x[2] == 'c' && x[3] == 'a' && x[4] == 'p');
        assert forall|i: int| 0 <= i < x.len() implies !is_ws(#[trigger] x[i]) by {}
        assert(utf8_len(x) <= name_byte_limit());
    } else {
        assert(x == lim);
        if utf8_len(cleaned) > name_byte_limit() {
            let k = choose|k: int| 0 <= k <= cleaned.len() && #[trigger] utf8_len(cleaned.take(k)) == name_byte_limit();
            assert(lim == cleaned.take(k));
            assert forall|i: int| 0 <= i < x.len() && is_ws(#[trigger] x[i]) implies x[i] == ' ' && 0 < i
                && !is_ws(x[i - 1]) && i + 1 < x.len() && !is_ws(x[i + 1]) by {
                assert(x[i] == cleaned[i]);
                assert(x[i - 1] == cleaned[i - 1]);
                if i + 1 < x.len() {
                    assert(x[i + 1] == cleaned[i + 1]);
                } else {
                    assert(x.last() == x[i]);
                }
            }
        }
    }
    lemma_safe_name_fixed(x);
}

spec fn lead_run_ws(s: Seq<char>) -> nat {
    crate::text::lead_run(s, crate::text::ws_pred())
}

/// The name of the output folder; `safe_filename` never returns an empty name, so the
/// fallback folder name is never used.
pub fn safe_component(value: &str) -> (name: String)
    requires
        name_truncatable(value@),
    ensures
        name@ == safe_filename_of(value@),
{
    let cleaned = safe_filename(value);
    proof {
        reveal_strlit("recap");
    }
    if cleaned.as_str().unicode_len() == 0 {
        owned("recaps_da_render")
    } else {
        cleaned
    }
}

/// Byte index at which the name is cut: the shortest prefix reaching 120 bytes, or the whole.
fn name_cut(x: &Vec<char>) -> (r: (usize, usize))
    ensures
        r.0 <= x@.len(),
        r.1 == utf8_len(x@.take(r.0 as int)),
        r.1 <= 123,
        r.0 < x@.len() ==> r.1 >= 120,
        r.0 > 0 ==> utf8_len(x@.take(r.0 - 1)) < 120,
{
    let ghost xs = x@;
    let mut k: usize = 0;
    let mut acc: usize = 0;
    while k < x.len() && acc < 120
        invariant
            k <= x.len(),
            xs == x@,
            acc == utf8_len(xs.take(k as int)),
            acc <= 123,
            k > 0 ==> utf8_len(xs.take(k - 1)) < 120,
        decreases x.len() - k,
    {
        proof {
            lemma_utf8_take_step(xs, k as int);
        }
        acc = acc + utf8_char_width(x[k]);
        k += 1;
    }
    (k, acc)
}

/// Whether `safe_filename` can be applied to `value` (its cleaned form can be cut at 120 bytes).
pub fn safe_filename_fits(value: &str) -> (b: bool)
    ensures
        b == name_truncatable(value@),
{
    let x = cleaned_name_chars(value);
    let ghost xs = x@;
    let (k, acc): (usize, usize) = name_cut(&x);
    proof {
        assert(xs.take(xs.len() as int) =~= xs);
        if k < xs.len() {
            lemma_utf8_take_increasing(xs, k as int, xs.len() as int);
        }
        if utf8_len(xs) > 120 && acc != 120 {
            assert(acc > 120);
            if exists|k2: int| 0 <= k2 <= xs.len() && #[trigger] utf8_len(xs.take(k2)) == 120 {
                let k2 = choose|k2: int| 0 <= k2 <= xs.len() && #[trigger] utf8_len(xs.take(k2)) == 120;
                if k2 < k {
                    if k2 < k - 1 {
                        lemma_utf8_take_increasing(xs, k2, k - 1);
                    }
                } else if k2 > k {
                    lemma_utf8_take_increasing(xs, k as int, k2);
                }
                assert(false);
            }
        }
        if acc == 120 {
            assert(utf8_len(xs.take(k as int)) == 120);
        }
    }
    if k == x.len() {
        if acc <= 120 {
            return true;
        }
    }
    acc == 120
}

/// `{:02}` of a number: at least two digits.
pub open spec fn pad2(n: nat) -> Seq<char> {
    if n < 10 {
        seq!['0'] + decimal(n)
    } else {
        decimal(n)
    }
}

/// `{:03}` of a number: at least three digits.
pub open spec fn pad3(n: nat) -> Seq<char> {
    if n < 10 {
        seq!['0', '0'] + decimal(n)
    } else if n < 100 {
        seq!['0'] + decimal(n)
    } else {
        decimal(n)
    }
}

fn push_pad2(out: &mut String, n: u64)
    ensures
        final(out)@ == old(out)@ + pad2(n as nat),
{
    if n < 10 {
        push_char_zero(out);
    }
    push_decimal(out, n);
    assert(final(out)@ =~= old(out)@ + pad2(n as nat));
}

fn push_pad3(out: &mut String, n: u64)
    ensures
        final(out)@ == old(out)@ + pad3(n as nat),
{
    if n < 10 {
        push_char_zero(out);
        push_char_zero(out);
    } else if n < 100 {
        push_char_zero(out);
    }
    push_decimal(out, n);
    assert(final(out)@ =~= old(out)@ + pad3(n as nat));
}

fn push_char_zero(out: &mut String)
    ensures
        final(out)@ == old(out)@.push('0'),
{
    crate::text::push_char(out, '0');
}

/// SubRip time stamp `HH:MM:SS,mmm` of a time in milliseconds.
pub open spec fn srt_time_of(ms: nat) -> Seq<char> {
    pad2(ms / 3_600_000) + seq![':'] + pad2((ms % 3_600_000) / 60_000) + seq![':'] + pad2(
        (ms % 60_000) / 1000,
    ) + seq![','] + pad3(ms % 1000)
}

pub fn srt_time_ms(ms: u64) -> (t: String)
    ensures
        t@ == srt_time_of(ms as nat),
{
    let mut t = String::new();
    push_pad2(&mut t, ms / 3_600_000);
    crate::text::push_char(&mut t, ':');
    push_pad2(&mut t, (ms % 3_600_000) / 60_000);
    crate::text::push_char(&mut t, ':');
    push_pad2(&mut t, (ms % 60_000) / 1000);
    crate::text::push_char(&mut t, ',');
    push_pad3(&mut t, ms % 1000);
    assert(t@ =~= srt_time_of(ms as nat));
    t
}

/// A leading `0` does not change the value of a digit string.
proof fn lemma_zero_prefix_value(d: Seq<char>)
    ensures
        digits_value(seq!['0'] + d) == digits_value(d),
    decreases d.len(),
{
    let z = seq!['0'] + d;
    if d.len() == 0 {
        assert(z.drop_last() =~= Seq::<char>::empty());
        assert(digits_value(Seq::<char>::empty()) == 0);
        assert(z.last() == '0');
    } else {
        assert(z.drop_last() =~= seq!['0'] + d.drop_last());
        assert(z.last() == d.last());
        lemma_zero_prefix_value(d.drop_last());
    }
}

/// `pad2(n)` is a digit string of at least two characters worth `n`; exactly two below 100.
proof fn lemma_pad2(n: nat)
    ensures
        pad2(n).len() >= 2,
        n < 100 ==> pad2(n).len() == 2,
        forall|i: int| 0 <= i < pad2(n).len() ==> is_digit(#[trigger] pad2(n)[i]),
        digits_value(pad2(n)) == n,
{
    lemma_decimal_value(n);
    let d = decimal(n);
    if n < 10 {
        assert(d.len() == 1);
        lemma_zero_prefix_value(d);
        assert forall|i: int| 0 <= i < pad2(n).len() implies is_digit(#[trigger] pad2(n)[i]) by {
            if i > 0 {
                assert(pad2(n)[i] == d[i - 1]);
            }
        }
    } else {
        lemma_decimal_value(n / 10);
        assert(d.len() == decimal(n / 10).len() + 1);
        if n < 100 {
            assert(decimal(n / 10).len() == 1);
        }
    }
}

/// `pad3(n)` of `n < 1000` is three digits worth `n`.
proof fn lemma_pad3(n: nat)
    requires
        n < 1000,
    ensures
        pad3(n).len() == 3,
        forall|i: int| 0 <= i < pad3(n).len() ==> is_digit(#[trigger] pad3(n)[i]),
        digits_value(pad3(n)) == n,
{
    lemma_decimal_value(n);
    let d = decimal(n);
    if n < 10 {
        lemma_zero_prefix_value(d);
        lemma_zero_prefix_value(seq!['0'] + d);
        assert(seq!['0', '0'] + d =~= seq!['0'] + (seq!['0'] + d));
        assert forall|i: int| 0 <= i < pad3(n).len() implies is_digit(#[trigger] pad3(n)[i]) by {
            if i > 1 {
                assert(pad3(n)[i] == d[i - 2]);
            }
        }
    } else if n < 100 {
        lemma_pad2(n);
        lemma_zero_prefix_value(d);
        assert forall|i: int| 0 <= i < pad3(n).len() implies is_digit(#[trigger] pad3(n)[i]) by {
            if i > 0 {
                assert(pad3(n)[i] == d[i - 1]);
            }
        }
    } else {
        lemma_decimal_value(n / 10);
        lemma_decimal_value(n / 100);
        assert(decimal(n / 10) == decimal(n / 100).push(digit_char((n / 10) % 10)));
    }
}

/// A SubRip time stamp reads back as the time it was made from: its fields, separated by `:`,
/// `:` and `,`, are digit strings for hours, minutes below 60, seconds below 60 and three
/// digits of milliseconds, which add up to `ms`.
pub proof fn lemma_srt_time_reads_back(ms: nat)
    ensures
        ({
            let t = srt_time_of(ms);
            let n = t.len() as int;
            let hours = digits_value(t.take(n - 10));
            let minutes = digits_value(t.subrange(n - 9, n - 7));
            let seconds = digits_value(t.subrange(n - 6, n - 4));
            let millis = digits_value(t.skip(n - 3));
            &&& n >= 12
            &&& t[n - 10] == ':' && t[n - 7] == ':' && t[n - 4] == ','
            &&& forall|i: int|
                0 <= i < n && i != n - 10 && i != n - 7 && i != n - 4 ==> is_digit(#[trigger] t[i])
            &&& minutes < 60 && seconds < 60 && millis < 1000
            &&& hours * 3_600_000 + minutes * 60_000 + seconds * 1000 + millis == ms
        }),
{
    let h = ms / 3_600_000;
    let m = (ms % 3_600_000) / 60_000;
    let s = (ms % 60_000) / 1000;
    let f = ms % 1000;
    lemma_pad2(h);
    lemma_pad2(m);
    lemma_pad2(s);
    lemma_pad3(f);
    let a = pad2(h);
    let t = srt_time_of(ms);
    let l = a.len() as int;
    assert(t == a + seq![':'] + pad2(m) + seq![':'] + pad2(s) + seq![','] + pad3(f));
    assert(t.len() == l + 10);
    assert(t.take(l) =~= a);
    assert(t.subrange(l + 1, l + 3) =~= pad2(m));
    assert(t.subrange(l + 4, l + 6) =~= pad2(s));
    assert(t.skip(l + 7) =~= pad3(f));
    assert forall|i: int| 0 <= i < t.len() && i != l && i != l + 3 && i != l + 6 implies is_digit(
        #[trigger] t[i],
    ) by {
        if i < l {
            assert(t[i] == a[i]);
        } else if i < l + 3 {
            assert(t[i] == pad2(m)[i - l - 1]);
        } else if i < l + 6 {
            assert(t[i] == pad2(s)[i - l - 4]);
        } else {
            assert(t[i] == pad3(f)[i - l - 7]);
        }
    }
    assert(h * 3_600_000 + m * 60_000 + s * 1000 + f == ms) by (nonlinear_arith)
        requires
            h == ms / 3_600_000,
            m == (ms % 3_600_000) / 60_000,
            s == (ms % 60_000) / 1000,
            f == ms % 1000,
    ;
}

/// One SubRip cue: number, time range, trimmed text.
pub open spec fn srt_cue(number: nat, start_ms: nat, end_ms: nat, text: Seq<char>) -> Seq<char> {
    decimal(number) + seq!['\n'] + srt_time_of(start_ms) + " --> "@ + srt_time_of(end_ms) + seq![
        '\n',
    ] + trim(text) + seq!['\n']
}

fn push_cue(out: &mut String, number: u64, start_ms: u64, end_ms: u64, text: &str)
    ensures
        final(out)@ == old(out)@ + srt_cue(number as nat, start_ms as nat, end_ms as nat, text@),
{
    push_decimal(out, number);
    crate::text::push_char(out, '\n');
    let a = srt_time_ms(start_ms);
    push_str(out, a.as_str());
    push_str(out, " --> ");
    let b = srt_time_ms(end_ms);
    push_str(out, b.as_str());
    crate::text::push_char(out, '\n');
    let cs = chars_of(text);
    let t = trim_chars(cs.as_slice());
    push_chars(out, t.as_slice());
    crate::text::push_char(out, '\n');
    assert(final(out)@ =~= old(out)@ + srt_cue(number as nat, start_ms as nat, end_ms as nat, text@));
}

/// The subtitle file of one narration segment: a single cue from zero to its length.
pub fn one_cue_srt(text: &str, duration_ms: u64) -> (srt: String)
    ensures
        srt@ == srt_cue(1, 0, duration_ms as nat, text@),
{
    let mut srt = String::new();
    push_cue(&mut srt, 1, 0, duration_ms, text);
    srt
}

/// Cues numbered from one, separated by blank lines.
pub open spec fn multi_cue_of(rows: Seq<(u64, u64, String)>) -> Seq<char>
    decreases rows.len(),
{
    if rows.len() == 0 {
        seq![]
    } else {
        let n = rows.len() - 1;
        let cue = srt_cue((n + 1) as nat, rows[n].0 as nat, rows[n].1 as nat, rows[n].2@);
        if n == 0 {
            cue
        } else {
            multi_cue_of(rows.drop_last()) + seq!['\n'] + cue
        }
    }
}

/// The subtitle file of a finished episode, one cue per narration segment (times in ms).
pub fn multi_cue_srt(rows: &[(u64, u64, String)]) -> (srt: String)
    ensures
        srt@ == multi_cue_of(rows@),
{
    let mut srt = String::new();
    let mut i: usize = 0;
    while i < rows.len()
        invariant
            i <= rows@.len(),
            srt@ == multi_cue_of(rows@.take(i as int)),
        decreases rows.len() - i,
    {
        assert(rows@.take(i + 1).drop_last() =~= rows@.take(i as int));
        if i > 0 {
            crate::text::push_char(&mut srt, '\n');
        }
        let row = &rows[i];
        push_cue(&mut srt, (i as u64) + 1, row.0, row.1, row.2.as_str());
        i += 1;
    }
    assert(rows@.take(rows@.len() as int) =~= rows@);
    srt
}

/// An error message shortened for the queue: words joined by single spaces, at most 500
/// characters.
pub open spec fn compact_error_of(text: Seq<char>) -> Seq<char> {
    let c = collapse_ws(text);
    if c.len() <= 500 {
        c
    } else {
        c.take(500)
    }
}

pub fn compact_error(text: &str) -> (out: String)
    ensures
        out@ == compact_error_of(text@),
        out@.len() <= 500,
{
    let cs = chars_of(text);
    let c = collapse_whitespace(cs.as_slice());
    let n = if c.len() <= 500 {
        c.len()
    } else {
        500
    };
    let kept = slice_chars(c.as_slice(), 0, n);
    assert(kept@ =~= compact_error_of(text@));
    string_of(kept.as_slice())
}

/// File name `<prefix><index:03><suffix>` used for per-segment work files.
pub open spec fn numbered_name(prefix: Seq<char>, index: nat, suffix: Seq<char>) -> Seq<char> {
    prefix + pad3(index) + suffix
}

pub fn numbered_file_name(prefix: &str, index: u64, suffix: &str) -> (name: String)
    ensures
        name@ == numbered_name(prefix@, index as nat, suffix@),
{
    let mut name = String::new();
    push_str(&mut name, prefix);
    push_pad3(&mut name, index);
    push_str(&mut name, suffix);
    name
}

/// Title of the finished episode: the source name, then ` - ` and the plan title if it has one.
pub open spec fn episode_title_of(source_stem: Seq<char>, plan_title: Seq<char>) -> Seq<char> {
    if is_blank(plan_title) {
        source_stem
    } else {
        source_stem + " - "@ + trim(plan_title)
    }
}

pub fn episode_title(source_stem: &str, plan_title: &str) -> (t: String)
    ensures
        t@ == episode_title_of(source_stem@, plan_title@),
{
    if blank_str(plan_title) {
        owned(source_stem)
    } else {
        let mut t = owned(source_stem);
        push_str(&mut t, " - ");
        let cs = chars_of(plan_title);
        let tr = trim_chars(cs.as_slice());
        push_chars(&mut t, tr.as_slice());
        t
    }
}

/// File name of the finished episode: the safe form of its title with `.mp4`.
pub fn episode_output_name(source_stem: &str, plan_title: &str) -> (name: Option<String>)
    ensures
        name is Some <==> name_truncatable(episode_title_of(source_stem@, plan_title@)),
        name matches Some(n) ==> n@ == safe_filename_of(episode_title_of(source_stem@, plan_title@))
            + ".mp4"@,
{
    let title = episode_title(source_stem, plan_title);
    if !safe_filename_fits(title.as_str()) {
        return None;
    }
    let mut name = safe_filename(title.as_str());
    push_str(&mut name, ".mp4");
    Some(name)
}

/// How the processing of one episode ended.
#[derive(Debug, Clone, Copy, PartialEq, Eq, Structural)]
pub enum EpisodeOutcome {
    Completed,
    Stopped,
    Failed,
}

/// How an episode that ended in an error is counted: as stopped when Stop was requested or
/// the error text reports the stop, else as failed.
pub fn failure_outcome(cancelled: bool, error_text: &str) -> (o: EpisodeOutcome)
    ensures
        o == (if cancelled || contains_seq(error_text@, "Stopped by user"@) {
            EpisodeOutcome::Stopped
        } else {
            EpisodeOutcome::Failed
        }),
{
    if cancelled {
        return EpisodeOutcome::Stopped;
    }
    let cs = chars_of(error_text);
    if contains_text(cs.as_slice(), "Stopped by user") {
        EpisodeOutcome::Stopped
    } else {
        EpisodeOutcome::Failed
    }
}

/// Counts reported when a batch finishes.
#[derive(Debug, Clone, Copy, PartialEq, Eq, Structural)]
pub struct BatchSummary {
    pub completed: usize,
    pub failed: usize,
    pub stopped: bool,
}

/// What the batch does next.
#[derive(Debug, Clone, Copy, PartialEq, Eq, Structural)]
pub enum BatchStep {
    /// Process the episode at this queue position.
    Process(usize),
    /// Report the summary and end the batch.
    Finish(BatchSummary),
}

/// Sequential batch over a queue: episodes are processed in order, and the batch ends at the
/// end of the queue, on Stop, or at the first failed episode.
#[derive(Debug)]
pub struct BatchRun {
    total: usize,
    next: usize,
}

impl BatchRun {
    /// Number of episodes in the queue.
    pub closed spec fn total(&self) -> nat {
        self.total as nat
    }

    /// Number of episodes completed so far; the next one to process has this position.
    pub closed spec fn done(&self) -> nat {
        self.next as nat
    }

    pub closed spec fn wf(&self) -> bool {
        self.next <= self.total
    }

    pub fn new(total: usize) -> (b: BatchRun)
        ensures
            b.wf(),
            b.total() == total,
            b.done() == 0,
    {
        BatchRun { total, next: 0 }
    }

    /// Summary when NVIDIA rendering is unavailable: the first episode, if any, is failed.
    pub fn unavailable(total: usize) -> (s: BatchSummary)
        ensures
            s == (BatchSummary {
                completed: 0,
                failed: if total > 0 {
                    1usize
                } else {
                    0usize
                },
                stopped: false,
            }),
    {
        BatchSummary { completed: 0, failed: if total > 0 { 1 } else { 0 }, stopped: false }
    }

    /// The next step, checking first whether Stop was requested.
    pub fn next_step(&self, cancelled: bool) -> (step: BatchStep)
        requires
            self.wf(),
        ensures
            cancelled ==> step == BatchStep::Finish(
                BatchSummary { completed: self.done() as usize, failed: 0, stopped: true },
            ),
            !cancelled && self.done() == self.total() ==> step == BatchStep::Finish(
                BatchSummary { completed: self.done() as usize, failed: 0, stopped: false },
            ),
            !cancelled && self.done() < self.total() ==> step == BatchStep::Process(
                self.done() as usize,
            ),
    {
        if cancelled {
            BatchStep::Finish(BatchSummary { completed: self.next, failed: 0, stopped: true })
        } else if self.next == self.total {
            BatchStep::Finish(BatchSummary { completed: self.next, failed: 0, stopped: false })
        } else {
            BatchStep::Process(self.next)
        }
    }

    /// Records how the current episode ended; returns the summary when the batch ends here.
    pub fn record(&mut self, outcome: EpisodeOutcome) -> (finish: Option<BatchSummary>)
        requires
            old(self).wf(),
            old(self).done() < old(self).total(),
        ensures
            final(self).wf(),
            final(self).total() == old(self).total(),
            outcome == EpisodeOutcome::Completed ==> finish is None && final(self).done()
                == old(self).done() + 1,
            outcome == EpisodeOutcome::Stopped ==> finish == Some(
                BatchSummary { completed: old(self).done() as usize, failed: 0, stopped: true },
            ) && final(self).done() == old(self).done(),
            outcome == EpisodeOutcome::Failed ==> finish == Some(
                BatchSummary { completed: old(self).done() as usize, failed: 1, stopped: false },
            ) && final(self).done() == old(self).done(),
            finish matches Some(s) ==> s.completed + s.failed <= old(self).total(),
    {
        match outcome {
            EpisodeOutcome::Completed => {
                self.next = self.next + 1;
                None
            },
            EpisodeOutcome::Stopped => Some(
                BatchSummary { completed: self.next, failed: 0, stopped: true },
            ),
            EpisodeOutcome::Failed => Some(
                BatchSummary { completed: self.next, failed: 1, stopped: false },
            ),
        }
    }
}

/// The batch loop over a sequence of rounds, from `done` completed episodes of `total`. Each
/// round first sees whether Stop was requested (`.0`), then, if an episode is processed, how it
/// ends (`.1`). The result: the queue positions processed, in order, and the summary once the
/// batch has ended (`None` when the rounds run out first). Each round is what
/// `BatchRun::next_step` and then `BatchRun::record` do.
pub open spec fn batch_trace(total: nat, done: nat, rounds: Seq<(bool, EpisodeOutcome)>) -> (
    Seq<nat>,
    Option<BatchSummary>,
)
    decreases rounds.len(),
{
    if rounds.len() == 0 {
        (seq![], None)
    } else if rounds[0].0 {
        (seq![], Some(BatchSummary { completed: done as usize, failed: 0, stopped: true }))
    } else if done >= total {
        (seq![], Some(BatchSummary { completed: done as usize, failed: 0, stopped: false }))
    } else {
        match rounds[0].1 {
            EpisodeOutcome::Completed => {
                let rest = batch_trace(total, done + 1, rounds.drop_first());
                (seq![done] + rest.0, rest.1)
            },
            EpisodeOutcome::Stopped => (
                seq![done],
                Some(BatchSummary { completed: done as usize, failed: 0, stopped: true }),
            ),
            EpisodeOutcome::Failed => (
                seq![done],
                Some(BatchSummary { completed: done as usize, failed: 1, stopped: false }),
            ),
        }
    }
}

/// How many of the rounds ended with a completed episode.
pub open spec fn completed_rounds(rounds: Seq<(bool, EpisodeOutcome)>) -> nat
    decreases rounds.len(),
{
    if rounds.len() == 0 {
        0
    } else {
        (if rounds[0].1 == EpisodeOutcome::Completed {
            1nat
        } else {
            0nat
        }) + completed_rounds(rounds.drop_first())
    }
}

proof fn lemma_batch_trace_from(total: nat, done: nat, rounds: Seq<(bool, EpisodeOutcome)>)
    requires
        done <= total,
        total <= usize::MAX,
    ensures
        ({
            let (p, s) = batch_trace(total, done, rounds);
            &&& p.len() <= rounds.len()
            &&& done + p.len() <= total
            &&& forall|i: int| 0 <= i < p.len() ==> #[trigger] p[i] == done + i
            &&& s matches Some(x) ==> {
                &&& x.completed as nat == done + completed_rounds(rounds.take(p.len() as int))
                &&& x.failed <= 1
                &&& (x.stopped ==> x.failed == 0)
                &&& x.completed + x.failed <= total
            }
            &&& rounds.len() > total - done ==> s is Some
        }),
    decreases rounds.len(),
{
    if rounds.len() > 0 && !rounds[0].0 && done < total {
        let rest = rounds.drop_first();
        assert(rounds.take(1).drop_first() =~= Seq::<(bool, EpisodeOutcome)>::empty());
        assert(completed_rounds(rounds.take(1).drop_first()) == 0);
        match rounds[0].1 {
            EpisodeOutcome::Completed => {
                lemma_batch_trace_from(total, done + 1, rest);
                let (q, _) = batch_trace(total, done + 1, rest);
                let (p, _) = batch_trace(total, done, rounds);
                assert(p =~= seq![done] + q);
                assert forall|i: int| 0 <= i < p.len() implies #[trigger] p[i] == done + i by {
                    if i > 0 {
                        assert(p[i] == q[i - 1]);
                    }
                }
                assert(rounds.take(p.len() as int).drop_first() =~= rest.take(q.len() as int));
            },
            _ => {
                assert(completed_rounds(rounds.take(1)) == 0);
            },
        }
    }
}

/// The whole batch follows the queue: positions are processed one at a time in queue order,
/// the batch reports exactly one summary, at its end, after at most one round more than the
/// queue holds; the summary counts the completed episodes, at most one failure, none when
/// stopped, and never more episodes than the queue holds.
pub proof fn lemma_batch_sequence(total: nat, rounds: Seq<(bool, EpisodeOutcome)>)
    requires
        total <= usize::MAX,
    ensures
        ({
            let (p, s) = batch_trace(total, 0, rounds);
            &&& p.len() <= total
            &&& forall|i: int| 0 <= i < p.len() ==> #[trigger] p[i] == i
            &&& s matches Some(x) ==> {
                &&& x.completed as nat == completed_rounds(rounds.take(p.len() as int))
                &&& x.failed <= 1
                &&& (x.stopped ==> x.failed == 0)
                &&& x.completed + x.failed <= total
            }
            &&& rounds.len() > total ==> s is Some
        }),
{
    lemma_batch_trace_from(total, 0, rounds);
}

} // verus!
