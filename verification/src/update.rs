//! Update packages: SHA-256 checksum of the download, release assets, bundled runtime pins.
use sha2::{Digest, Sha256};
use vstd::prelude::*;

use crate::paths::{join, join_of, AppPaths};
use crate::text::{
    ascii_lower, ascii_lower_code, chars_of, is_ws, lead_run, owned, push_char, push_str, ws_pred,
    is_whitespace,
};

verus! {

#[verifier::external_type_specification]
#[verifier::external_body]
pub struct ExSha256(Sha256);

/// The SHA-256 digest of a byte string (32 bytes).
pub uninterp spec fn sha256_of(data: Seq<u8>) -> Seq<u8>;

/// The bytes fed to a SHA-256 hasher so far.
pub uninterp spec fn hashed_input(h: Sha256) -> Seq<u8>;

/// `Sha256::new`: a hasher that has been fed nothing.
#[verifier::external_body]
fn hasher_new() -> (h: Sha256)
    ensures
        hashed_input(h) == Seq::<u8>::empty(),
{
    Sha256::new()
}

/// `Digest::update`: the data is appended to what the hasher was fed.
#[verifier::external_body]
fn hasher_update(h: &mut Sha256, data: &[u8])
    ensures
        hashed_input(*final(h)) == hashed_input(*old(h)) + data@,
{
    h.update(data);
}

/// `Digest::finalize`: the digest of everything fed, as 32 bytes.
#[verifier::external_body]
fn hasher_finalize(h: Sha256) -> (d: Vec<u8>)
    ensures
        d@ == sha256_of(hashed_input(h)),
        d@.len() == 32,
{
    h.finalize().to_vec()
}

/// Lower-case hexadecimal digit of `d < 16`.
pub open spec fn hex_digit(d: nat) -> char {
    if d < 10 {
        crate::text::digit_char(d)
    } else if d == 10 {
        'a'
    } else if d == 11 {
        'b'
    } else if d == 12 {
        'c'
    } else if d == 13 {
        'd'
    } else if d == 14 {
        'e'
    } else {
        'f'
    }
}

/// Lower-case hexadecimal text of bytes, two digits per byte (`{:x}` of a digest).
pub open spec fn hex_lower(bytes: Seq<u8>) -> Seq<char>
    decreases bytes.len(),
{
    if bytes.len() == 0 {
        seq![]
    } else {
        hex_lower(bytes.drop_last()) + seq![
            hex_digit((bytes.last() / 16) as nat),
            hex_digit((bytes.last() % 16) as nat),
        ]
    }
}

fn hex_char(d: u8) -> (c: char)
    requires
        d < 16,
    ensures
        c == hex_digit(d as nat),
{
    if d < 10 {
        crate::text::digit(d as u64)
    } else if d == 10 {
        'a'
    } else if d == 11 {
        'b'
    } else if d == 12 {
        'c'
    } else if d == 13 {
        'd'
    } else if d == 14 {
        'e'
    } else {
        'f'
    }
}

pub fn hex_string(bytes: &[u8]) -> (s: String)
    ensures
        s@ == hex_lower(bytes@),
{
    let mut s = String::new();
    let mut i: usize = 0;
    while i < bytes.len()
        invariant
            i <= bytes@.len(),
            s@ == hex_lower(bytes@.take(i as int)),
        decreases bytes.len() - i,
    {
        assert(bytes@.take(i + 1).drop_last() =~= bytes@.take(i as int));
        let b = bytes[i];
        push_char(&mut s, hex_char(b / 16));
        push_char(&mut s, hex_char(b % 16));
        assert(s@ =~= hex_lower(bytes@.take(i + 1)));
        i += 1;
    }
    assert(bytes@.take(bytes@.len() as int) =~= bytes@);
    s
}

/// SHA-256 over data fed in pieces, as a downloaded file is read.
pub struct Sha256Stream {
    hasher: Sha256,
}

impl Sha256Stream {
    /// The bytes fed so far.
    pub closed spec fn input(&self) -> Seq<u8> {
        hashed_input(self.hasher)
    }

    pub fn new() -> (s: Sha256Stream)
        ensures
            s.input() == Seq::<u8>::empty(),
    {
        Sha256Stream { hasher: hasher_new() }
    }

    pub fn feed(&mut self, data: &[u8])
        ensures
            final(self).input() == old(self).input() + data@,
    {
        hasher_update(&mut self.hasher, data);
    }

    /// Lower-case hexadecimal digest of everything fed.
    pub fn finish_hex(self) -> (hex: String)
        ensures
            hex@ == hex_lower(sha256_of(self.input())),
    {
        let d = hasher_finalize(self.hasher);
        hex_string(d.as_slice())
    }
}

/// The first white-space separated word of a checksum file (the expected digest).
pub open spec fn first_word(t: Seq<char>) -> Seq<char> {
    let rest = t.skip(lead_run(t, ws_pred()) as int);
    rest.take(lead_run(rest, |c: char| !is_ws(c)) as int)
}

pub open spec fn invalid_checksum_message() -> Seq<char> {
    "Invalid checksum file"@
}

pub open spec fn checksum_mismatch_message() -> Seq<char> {
    "Update checksum mismatch. Existing installation was not changed."@
}

/// `w` in ASCII lower case is exactly `a` (`to_ascii_lowercase` then `==`).
pub open spec fn lowercases_to(w: Seq<char>, a: Seq<char>) -> bool {
    w.len() == a.len() && forall|i: int| 0 <= i < w.len() ==> ascii_lower(#[trigger] w[i]) == a[i] as u32 as int
}

/// Whether `w` lowered to ASCII lower case equals `a`.
fn lowercase_equals(w: &[char], a: &str) -> (r: bool)
    ensures
        r == lowercases_to(w@, a@),
{
    let ac = chars_of(a);
    if w.len() != ac.len() {
        return false;
    }
    let mut i: usize = 0;
    while i < w.len()
        invariant
            i <= w.len(),
            w@.len() == ac@.len(),
            ac@ == a@,
            forall|j: int| 0 <= j < i ==> ascii_lower(#[trigger] w@[j]) == ac@[j] as u32 as int,
        decreases w.len() - i,
    {
        if ascii_lower_code(w[i]) != (ac[i] as u32) {
            return false;
        }
        i += 1;
    }
    true
}

/// Compares the checksum file of an update with the digest of the downloaded archive: the
/// expected digest is the file's first word in ASCII lower case, and it must equal
/// `actual_hex` exactly.
pub fn verify_checksum(checksum_text: &str, actual_hex: &str) -> (r: Result<(), String>)
    ensures
        first_word(checksum_text@).len() == 0 ==> (r matches Err(m) && m@ == invalid_checksum_message()),
        first_word(checksum_text@).len() > 0 ==> (r is Ok <==> lowercases_to(first_word(checksum_text@), actual_hex@)),
        first_word(checksum_text@).len() > 0 && r is Err ==> (r matches Err(m) && m@ == checksum_mismatch_message()),
{
    let cs = chars_of(checksum_text);
    let mut lo: usize = 0;
    while lo < cs.len() && is_whitespace(cs[lo])
        invariant
            lo <= cs@.len(),
            forall|j: int| 0 <= j < lo ==> is_ws(#[trigger] cs@[j]),
        decreases cs.len() - lo,
    {
        lo += 1;
    }
    proof {
        crate::text::lemma_lead_run_exact(cs@, ws_pred(), lo as int);
    }
    let mut hi: usize = lo;
    while hi < cs.len() && !is_whitespace(cs[hi])
        invariant
            lo <= hi <= cs@.len(),
            forall|j: int| lo <= j < hi ==> !is_ws(#[trigger] cs@[j]),
        decreases cs.len() - hi,
    {
        hi += 1;
    }
    let word = crate::text::slice_chars(cs.as_slice(), lo, hi);
    proof {
        let rest = cs@.skip(lo as int);
        assert forall|j: int| 0 <= j < hi - lo implies (|c: char| !is_ws(c))(#[trigger] rest[j]) by {
            assert(rest[j] == cs@[j + lo]);
        }
        if hi < cs@.len() {
            assert(rest[hi - lo] == cs@[hi as int]);
        }
        crate::text::lemma_lead_run_exact(rest, |c: char| !is_ws(c), (hi - lo) as int);
        assert(word@ =~= first_word(checksum_text@));
    }
    if word.len() == 0 {
        return Err(owned("Invalid checksum file"));
    }
    if lowercase_equals(word.as_slice(), actual_hex) {
        Ok(())
    } else {
        Err(owned("Update checksum mismatch. Existing installation was not changed."))
    }
}

/// One downloadable file of a release.
#[derive(Debug, Clone)]
pub struct ReleaseAsset {
    pub name: String,
    pub browser_download_url: String,
}

/// The release tag without its leading `v` characters (`trim_start_matches('v')`).
pub open spec fn tag_version_text(tag: Seq<char>) -> Seq<char> {
    tag.skip(lead_run(tag, |c: char| c == 'v') as int)
}

pub fn release_version_text(tag: &str) -> (v: String)
    ensures
        v@ == tag_version_text(tag@),
{
    let cs = chars_of(tag);
    let mut i: usize = 0;
    while i < cs.len() && cs[i] == 'v'
        invariant
            i <= cs@.len(),
            forall|j: int| 0 <= j < i ==> (|c: char| c == 'v')(#[trigger] cs@[j]),
        decreases cs.len() - i,
    {
        i += 1;
    }
    proof {
        crate::text::lemma_lead_run_exact(cs@, |c: char| c == 'v', i as int);
    }
    let rest = crate::text::slice_chars(cs.as_slice(), i, cs.len());
    assert(rest@ =~= tag_version_text(tag@));
    crate::text::string_of(rest.as_slice())
}

/// Position of the first asset with exactly this name.
pub fn find_asset(assets: &Vec<ReleaseAsset>, name: &str) -> (r: Option<usize>)
    ensures
        match r {
            Some(i) => i < assets@.len() && assets@[i as int].name@ == name@ && forall|j: int|
                0 <= j < i ==> (#[trigger] assets@[j]).name@ != name@,
            None => forall|j: int| 0 <= j < assets@.len() ==> (#[trigger] assets@[j]).name@ != name@,
        },
{
    let target = owned(name);
    let mut i: usize = 0;
    while i < assets.len()
        invariant
            i <= assets@.len(),
            target@ == name@,
            forall|j: int| 0 <= j < i ==> (#[trigger] assets@[j]).name@ != name@,
        decreases assets.len() - i,
    {
        if assets[i].name == target {
            return Some(i);
        }
        i += 1;
    }
    None
}

pub open spec fn zip_asset_name() -> Seq<char> {
    "tool-recap-rust-windows-portable.zip"@
}

pub open spec fn checksum_asset_name() -> Seq<char> {
    "tool-recap-rust-windows-portable.zip.sha256"@
}

/// Download URLs of the portable ZIP and of its SHA-256 file; a release lacking either is
/// refused, the ZIP checked first.
pub fn release_download_urls(tag: &str, assets: &Vec<ReleaseAsset>) -> (r: Result<(String, String), String>)
    ensures
        (exists|j: int| 0 <= j < assets@.len() && (#[trigger] assets@[j]).name@ == zip_asset_name())
            && (exists|j: int| 0 <= j < assets@.len() && (#[trigger] assets@[j]).name@ == checksum_asset_name())
            <==> r is Ok,
        r matches Ok(urls) ==> exists|a: int, b: int|
            0 <= a < assets@.len() && 0 <= b < assets@.len()
            && assets@[a].name@ == zip_asset_name() && (forall|j: int| 0 <= j < a ==> (#[trigger] assets@[j]).name@ != zip_asset_name())
            && assets@[b].name@ == checksum_asset_name() && (forall|j: int| 0 <= j < b ==> (#[trigger] assets@[j]).name@ != checksum_asset_name())
            && urls.0@ == assets@[a].browser_download_url@ && urls.1@ == assets@[b].browser_download_url@,
        r matches Err(m) ==> (forall|j: int| 0 <= j < assets@.len() ==> (#[trigger] assets@[j]).name@ != zip_asset_name())
            ==> m@ == "Release "@ + tag@ + " has no portable Windows ZIP."@,
        r matches Err(m) ==> (exists|j: int| 0 <= j < assets@.len() && (#[trigger] assets@[j]).name@ == zip_asset_name())
            ==> m@ == "Release "@ + tag@ + " has no SHA-256 checksum."@,
{
    let zip = find_asset(assets, "tool-recap-rust-windows-portable.zip");
    let zi = match zip {
        Some(i) => i,
        None => {
            let mut m = owned("Release ");
            push_str(&mut m, tag);
            push_str(&mut m, " has no portable Windows ZIP.");
            return Err(m);
        },
    };
    let sum = find_asset(assets, "tool-recap-rust-windows-portable.zip.sha256");
    let si = match sum {
        Some(i) => i,
        None => {
            let mut m = owned("Release ");
            push_str(&mut m, tag);
            push_str(&mut m, " has no SHA-256 checksum.");
            return Err(m);
        },
    };
    Ok((owned(assets[zi].browser_download_url.as_str()), owned(assets[si].browser_download_url.as_str())))
}

#[verifier::external_type_specification]
#[verifier::external_body]
pub struct ExVersion(semver::Version);

/// What `semver::Version::parse` reports for a text: `None` when it accepts the text, else
/// the message of its error.
pub uninterp spec fn semver_parse_error(text: Seq<char>) -> Option<Seq<char>>;

/// Whether the version parsed from text `a` is at most the one parsed from text `b` under
/// `semver::Version`'s order (major, minor, patch, pre-release, then build metadata).
pub uninterp spec fn semver_le(a: Seq<char>, b: Seq<char>) -> bool;

/// A version number read by `semver`, kept with the text it was read from.
#[derive(Debug)]
pub struct ReleaseVersion {
    text: String,
    value: semver::Version,
}

impl View for ReleaseVersion {
    type V = Seq<char>;

    /// The text the version was read from.
    closed spec fn view(&self) -> Seq<char> {
        self.text@
    }
}

impl ReleaseVersion {
    /// The `semver` value read from the text.
    pub closed spec fn version(&self) -> semver::Version {
        self.value
    }

    /// The version as `semver` holds it.
    pub fn semver(&self) -> (v: &semver::Version)
        ensures
            *v == self.version(),
    {
        &self.value
    }
}

/// `semver::Version::parse`: accepts a text exactly when `semver_parse_error` has no message
/// for it; otherwise returns that message. The value is only stored; nothing is stated of its
/// fields.
#[verifier::external_body]
fn parse_semver(text: &str) -> (r: Result<ReleaseVersion, String>)
    ensures
        r is Ok <==> semver_parse_error(text@) is None,
        r matches Ok(v) ==> v@ == text@,
        r matches Err(m) ==> semver_parse_error(text@) == Some(m@),
{
    match semver::Version::parse(text) {
        Ok(value) => Ok(ReleaseVersion { text: text.to_string(), value }),
        Err(error) => Err(error.to_string()),
    }
}

/// `<=` of `semver::Version` (its derived order) on two read versions: the result is named by
/// `semver_le` over the texts they were read from.
#[verifier::external_body]
fn semver_at_most(a: &ReleaseVersion, b: &ReleaseVersion) -> (r: bool)
    ensures
        r == semver_le(a@, b@),
{
    a.value <= b.value
}

/// Reads a version number; the error is `semver`'s message.
pub fn parse_release_version(text: &str) -> (r: Result<ReleaseVersion, String>)
    ensures
        r is Ok <==> semver_parse_error(text@) is None,
        r matches Ok(v) ==> v@ == text@,
        r matches Err(m) ==> semver_parse_error(text@) == Some(m@),
{
    parse_semver(text)
}

/// A newer release that can be installed.
#[derive(Debug)]
pub struct ReleaseOffer {
    pub version: ReleaseVersion,
    pub zip_url: String,
    pub checksum_url: String,
}

pub open spec fn has_asset(assets: Seq<ReleaseAsset>, name: Seq<char>) -> bool {
    exists|j: int| 0 <= j < assets.len() && (#[trigger] assets[j]).name@ == name
}

/// `url` is the download URL of the first asset called `name`.
pub open spec fn first_asset_url(assets: Seq<ReleaseAsset>, name: Seq<char>, url: Seq<char>) -> bool {
    exists|a: int|
        0 <= a < assets.len() && assets[a].name@ == name && (forall|j: int|
            0 <= j < a ==> (#[trigger] assets[j]).name@ != name) && url == assets[a].browser_download_url@
}

/// What the latest release offers against the running version: nothing when its version (the
/// tag without leading `v`) is not newer, else its version and download URLs. Refused when the
/// tag is not a version or an asset is missing.
pub fn release_offer(current: &ReleaseVersion, tag: &str, assets: &Vec<ReleaseAsset>) -> (r: Result<
    Option<ReleaseOffer>,
    String,
>)
    ensures
        semver_parse_error(tag_version_text(tag@)) matches Some(e) ==> (r matches Err(m) && m@
            == "parse release version "@ + tag@ + ": "@ + e),
        semver_parse_error(tag_version_text(tag@)) is None && semver_le(
            tag_version_text(tag@),
            current@,
        ) ==> r matches Ok(None),
        semver_parse_error(tag_version_text(tag@)) is None && !semver_le(
            tag_version_text(tag@),
            current@,
        ) ==> {
            &&& (r is Ok <==> has_asset(assets@, zip_asset_name()) && has_asset(
                assets@,
                checksum_asset_name(),
            ))
            &&& (r matches Ok(o) ==> o matches Some(offer) && offer.version@ == tag_version_text(
                tag@,
            ) && first_asset_url(assets@, zip_asset_name(), offer.zip_url@) && first_asset_url(
                assets@,
                checksum_asset_name(),
                offer.checksum_url@,
            ))
            &&& (!has_asset(assets@, zip_asset_name()) ==> (r matches Err(m) ==> m@ == "Release "@
                + tag@ + " has no portable Windows ZIP."@))
            &&& (has_asset(assets@, zip_asset_name()) ==> (r matches Err(m) ==> m@ == "Release "@
                + tag@ + " has no SHA-256 checksum."@))
        },
{
    let text = release_version_text(tag);
    let version = match parse_semver(text.as_str()) {
        Ok(v) => v,
        Err(e) => {
            let mut m = owned("parse release version ");
            push_str(&mut m, tag);
            push_str(&mut m, ": ");
            push_str(&mut m, e.as_str());
            return Err(m);
        },
    };
    if semver_at_most(&version, current) {
        return Ok(None);
    }
    match release_download_urls(tag, assets) {
        Ok((zip_url, checksum_url)) => Ok(Some(ReleaseOffer { version, zip_url, checksum_url })),
        Err(m) => Err(m),
    }
}

/// Version pin files of the bundled runtimes.
pub fn voicestudio_pin_path(paths: &AppPaths, windows: bool) -> (p: String)
    ensures
        p@ == join_of(join_of(paths.runtime@, "voicestudio"@, windows), "version.json"@, windows),
{
    let d = join(paths.runtime.as_str(), "voicestudio", windows);
    join(d.as_str(), "version.json", windows)
}

pub fn ffmpeg_pin_path(paths: &AppPaths, windows: bool) -> (p: String)
    ensures
        p@ == join_of(join_of(paths.runtime@, "ffmpeg"@, windows), "VERSION.txt"@, windows),
{
    let d = join(paths.runtime.as_str(), "ffmpeg", windows);
    join(d.as_str(), "VERSION.txt", windows)
}

/// The runtime pins present in the portable folder, labelled, VoiceStudio first; the caller
/// says which pin files exist.
pub fn portable_runtime_versions(
    paths: &AppPaths,
    windows: bool,
    voicestudio_pin_exists: bool,
    ffmpeg_pin_exists: bool,
) -> (out: Vec<(String, String)>)
    ensures
        out@.len() == (if voicestudio_pin_exists { 1nat } else { 0nat }) + (if ffmpeg_pin_exists { 1nat } else { 0nat }),
        voicestudio_pin_exists ==> out@[0].0@ == "VoiceStudio pin"@ && out@[0].1@ == join_of(
            join_of(paths.runtime@, "voicestudio"@, windows),
            "version.json"@,
            windows,
        ),
        ffmpeg_pin_exists ==> out@.last().0@ == "FFmpeg pin"@ && out@.last().1@ == join_of(
            join_of(paths.runtime@, "ffmpeg"@, windows),
            "VERSION.txt"@,
            windows,
        ),
{
    let mut out: Vec<(String, String)> = Vec::new();
    if voicestudio_pin_exists {
        out.push((owned("VoiceStudio pin"), voicestudio_pin_path(paths, windows)));
    }
    if ffmpeg_pin_exists {
        out.push((owned("FFmpeg pin"), ffmpeg_pin_path(paths, windows)));
    }
    out
}

} // verus!
