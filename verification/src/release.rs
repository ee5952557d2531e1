//! Knowing about, and moving to, newer releases.

use crate::archive::{read_tarball, read_zip, ArchiveItem, ItemParts, ZipItem, ZipParts};
use crate::archive::{item_result, item_views, tarball_entries, zip_entries, zip_result, zip_views};
use crate::clock::{is_old, stamp_is_old, Moment};
use crate::json::{json_read_bytes, read_json_bytes, reads, Doc, Json};
use crate::paths::{file_name, file_name_of, join_path, joined, user_path, user_place, USER_DIR};
use crate::text::{
    blank, chars_of, decimal, ends_with, is_blank, is_char, is_digit, lemma_span, lemma_span_end,
    lemma_span_end_is, lemma_span_is, numbers_read_as_they_are_written, opt_str, opt_text,
    parse_u64, read_u64, run_from, same_text, space, span, strs, text_ends_with, trim,
    trim_start_by, trim_start_char, trimmed,
};
use vstd::prelude::*;

verus! {

/// The repo releases are published from.
pub const RELEASE_REPO: &'static str = "mangosteen-lab/log-scouter";

/// The version of this library.
pub const CURRENT_VERSION: &'static str = "0.0.22";

/// How long a "latest is X" answer is good for, in seconds.
pub const UPDATE_CHECK_TTL: i64 = 86400;

/// Setting this to anything non-empty stops the update check reaching the network.
pub const NO_UPDATE_CHECK_VAR: &'static str = "LOGSCOUT_NO_UPDATE_CHECK";

/// A release binary is a few megabytes; far past that, something is wrong.
pub const MAX_ASSET_BYTES: u64 = 67108864;

// ---------------------------------------------------------------------------
// Versions
// ---------------------------------------------------------------------------

/// What does not separate the parts of a version.
pub open spec fn version_ink() -> spec_fn(char) -> bool {
    |c: char| c != '.' && c != '-' && c != '+'
}

/// The pieces between the separators of a version; always at least one.
pub open spec fn pieces(s: Seq<char>) -> Seq<Seq<char>>
    decreases s.len(),
{
    let n = span(s, version_ink()) as int;
    if n >= s.len() {
        seq![s]
    } else {
        seq![s.take(n)] + pieces(s.skip(n + 1))
    }
}

/// A version without its blanks and the `v` of a tag.
pub open spec fn bare_version(version: Seq<char>) -> Seq<char> {
    trim_start_by(trimmed(version), is_char('v'))
}

/// What a piece counts for: one that is no number counts for nothing.
pub open spec fn piece_value(piece: Seq<char>) -> u64 {
    match read_u64(piece) {
        Some(n) => n,
        None => 0,
    }
}

/// At most the first three pieces.
pub open spec fn leading<A>(all: Seq<A>) -> Seq<A> {
    if all.len() <= 3 {
        all
    } else {
        all.take(3)
    }
}

/// The numbers of a version, at most three.
pub open spec fn version_parts(version: Seq<char>) -> Seq<u64> {
    leading(pieces(bare_version(version))).map_values(|p: Seq<char>| piece_value(p))
}

/// The number at a place of a version; a version that ends before it has 0 there.
pub open spec fn number_at(version: Seq<char>, i: int) -> u64 {
    if i < version_parts(version).len() {
        version_parts(version)[i]
    } else {
        0
    }
}

/// Whether `latest` is a newer version than `current`: of their three numbers the first that
/// differs decides.
pub open spec fn newer(latest: Seq<char>, current: Seq<char>) -> bool {
    if number_at(latest, 0) != number_at(current, 0) {
        number_at(latest, 0) > number_at(current, 0)
    } else if number_at(latest, 1) != number_at(current, 1) {
        number_at(latest, 1) > number_at(current, 1)
    } else {
        number_at(latest, 2) > number_at(current, 2)
    }
}

fn version_pieces<'a>(s: &'a str) -> (r: Vec<&'a str>)
    ensures
        strs(r@) == pieces(s@),
{
    let chars = chars_of(s);
    let mut out: Vec<&'a str> = Vec::new();
    let mut from: usize = 0;
    let f = |x: char| -> (b: bool)
        ensures
            b == (x != '.' && x != '-' && x != '+'),
        { x != '.' && x != '-' && x != '+' };
    assert(s@.skip(0) == s@);
    let total: usize = chars.len();
    loop
        invariant
            chars@ == s@,
            total == s@.len(),
            from <= s@.len(),
            strs(out@) + pieces(s@.skip(from as int)) == pieces(s@),
            forall|c: char| #[trigger] f.requires((c,)),
            forall|c: char, b: bool| #[trigger]
                f.ensures((c,), b) ==> b == (c != '.' && c != '-' && c != '+'),
        decreases s@.len() - from,
    {
        let n: usize = run_from(chars.as_slice(), from, f, Ghost(version_ink()));
        let ghost rest = s@.skip(from as int);
        let piece = s.substring_char(from, from + n);
        let ghost before = strs(out@);
        out.push(piece);
        assert(strs(out@) == before.push(piece@));
        assert(piece@ == rest.take(n as int));
        if from + n >= total {
            assert(rest.take(n as int) == rest);
            assert(before + seq![rest] == before.push(rest));
            return out;
        }
        assert(rest.skip(n + 1) == s@.skip(from + n + 1));
        assert(before + (seq![rest.take(n as int)] + pieces(rest.skip(n + 1))) == before.push(
            rest.take(n as int),
        ) + pieces(rest.skip(n + 1)));
        from = from + n + 1;
    }
}

/// The numbers of a version.
pub fn parts(version: &str) -> (r: Vec<u64>)
    ensures
        r@ == version_parts(version@),
{
    let found = version_pieces(trim_start_char(trim(version), 'v'));
    let ghost all = strs(found@);
    let count: usize = if found.len() <= 3 {
        found.len()
    } else {
        3
    };
    let mut out: Vec<u64> = Vec::new();
    for i in 0..count
        invariant
            all == strs(found@),
            all == pieces(bare_version(version@)),
            count == leading(all).len(),
            count <= found.len(),
            out@ == leading(all).take(i as int).map_values(|p: Seq<char>| piece_value(p)),
    {
        let value: u64 = match parse_u64(found[i]) {
            Some(n) => n,
            None => 0,
        };
        let ghost before = out@;
        out.push(value);
        assert(leading(all)[i as int] == found@[i as int]@);
        assert(out@ =~= leading(all).take(i + 1).map_values(|p: Seq<char>| piece_value(p)));
    }
    assert(leading(all).take(count as int) =~= leading(all));
    out
}

fn part_at(parts: &Vec<u64>, i: usize) -> (r: u64)
    ensures
        r == if i < parts@.len() {
            parts@[i as int]
        } else {
            0
        },
{
    if i < parts.len() {
        parts[i]
    } else {
        0
    }
}

/// Whether `latest` is a newer version than `current`, comparing three dotted numbers. A part
/// that is missing or will not parse counts as 0, so a malformed tag cannot look like an
/// upgrade.
pub fn is_newer(latest: &str, current: &str) -> (r: bool)
    ensures
        r == newer(latest@, current@),
{
    let a = parts(current);
    let b = parts(latest);
    if part_at(&b, 0) != part_at(&a, 0) {
        return part_at(&b, 0) > part_at(&a, 0);
    }
    if part_at(&b, 1) != part_at(&a, 1) {
        return part_at(&b, 1) > part_at(&a, 1);
    }
    part_at(&b, 2) > part_at(&a, 2)
}

// ---------------------------------------------------------------------------
// The update check
// ---------------------------------------------------------------------------

/// What the last check found, so the next one need not ask again.
#[derive(Debug, PartialEq, Eq)]
pub struct UpdateCache {
    /// The newest version reported, without the `v`.
    pub latest: String,
    /// When it was reported, as RFC 3339.
    pub checked_at: String,
}

/// `~/.log-scouter/update.json`.
pub fn update_cache_path(home: Option<&str>) -> (r: Option<String>)
    ensures
        opt_text(r) == user_place(opt_str(home), "update.json"@),
{
    user_path(home, "update.json")
}

impl UpdateCache {
    /// Whether the answer is still good: given less than `ttl` seconds ago. A stamp that
    /// cannot be read counts as stale.
    pub fn is_fresh(&self, now: Moment, ttl: i64) -> (r: bool)
        ensures
            r == !is_old(self.checked_at@, now, ttl),
    {
        !stamp_is_old(self.checked_at.as_str(), now, ttl)
    }
}

/// The newest published version that a release response names.
pub open spec fn named_version(response: Result<Doc, Seq<char>>) -> Result<Seq<char>, Seq<char>> {
    match response {
        Err(e) => Err("bad response: "@ + e),
        Ok(d) => match d.text_field("tag_name"@) {
            Some(tag) => Ok(trim_start_by(tag, is_char('v'))),
            None => Err("no tag_name in the release response"@),
        },
    }
}

/// The newest published version, without the `v`, from the body of a release response.
pub fn latest_version(body: &[u8]) -> (r: Result<String, String>)
    ensures
        match r {
            Ok(v) => named_version(json_read_bytes(body@)) == Ok::<Seq<char>, Seq<char>>(v@),
            Err(e) => named_version(json_read_bytes(body@)) == Err::<Seq<char>, Seq<char>>(e@),
        },
{
    version_in(read_json_bytes(body))
}

/// The newest published version, from what could be read of a release response.
pub fn version_in(read: Result<Json, String>) -> (r: Result<String, String>)
    ensures
        match r {
            Ok(v) => named_version(reads(read)) == Ok::<Seq<char>, Seq<char>>(v@),
            Err(e) => named_version(reads(read)) == Err::<Seq<char>, Seq<char>>(e@),
        },
{
    match read {
        Err(error) => Err("bad response: ".to_string().concat(error.as_str())),
        Ok(json) => match json.get_str("tag_name") {
            Some(tag) => Ok(trim_start_char(tag, 'v').to_string()),
            None => Err("no tag_name in the release response".to_string()),
        },
    }
}

/// A version to tell the user about: one newer than theirs.
pub open spec fn upgrade_to(latest: Seq<char>, current: Seq<char>) -> Option<Seq<char>> {
    if newer(latest, current) {
        Some(latest)
    } else {
        None
    }
}

/// Whether the update check may ask at all: the variable against it is blank or not set, and
/// there is a home directory to remember the answer in.
pub open spec fn may_check(opt_out: Option<Seq<char>>, home: Option<Seq<char>>) -> bool {
    (opt_out is None || is_blank(opt_out->0)) && home is Some
}

/// Whether a check that had to ask, and was answered `answer`, reports and remembers what it
/// should.
pub open spec fn checked(
    answer: Result<String, String>,
    current: Seq<char>,
    stamp: Seq<char>,
    told: Option<String>,
    remembered: Option<UpdateCache>,
) -> bool {
    match answer {
        Err(_) => told is None && remembered is None,
        Ok(latest) => {
            &&& opt_text(told) == upgrade_to(latest@, current)
            &&& remembered is Some
            &&& remembered->0.latest@ == latest@
            &&& remembered->0.checked_at@ == stamp
        },
    }
}

/// The version to tell the user about, or nothing when this build is current; and what to
/// remember of the check, if `fetch` was asked. A remembered answer is good for a day. Every
/// failure is silent.
pub fn available_update<F: FnOnce() -> Result<String, String>>(
    opt_out: Option<&str>,
    home: Option<&str>,
    cached: Option<&UpdateCache>,
    now: Moment,
    stamp: &str,
    current: &str,
    fetch: F,
) -> (r: (Option<String>, Option<UpdateCache>))
    requires
        call_requires(fetch, ()),
    ensures
        if !may_check(opt_str(opt_out), opt_str(home)) {
            r.0 is None && r.1 is None
        } else if cached is Some && !is_old(cached->0.checked_at@, now, UPDATE_CHECK_TTL) {
            opt_text(r.0) == upgrade_to(cached->0.latest@, current@) && r.1 is None
        } else {
            exists|answer: Result<String, String>| #[trigger]
                call_ensures(fetch, (), answer) && checked(answer, current@, stamp@, r.0, r.1)
        },
{
    if let Some(value) = opt_out {
        if !blank(value) {
            return (None, None);
        }
    }
    if home.is_none() {
        return (None, None);
    }
    if let Some(cache) = cached {
        if cache.is_fresh(now, UPDATE_CHECK_TTL) {
            if is_newer(cache.latest.as_str(), current) {
                return (Some(cache.latest.clone()), None);
            }
            return (None, None);
        }
    }
    let answer = fetch();
    let ghost given = answer;
    match answer {
        Err(_) => {
            assert(checked(given, current@, stamp@, None, None));
            (None, None)
        },
        Ok(latest) => {
            let told = if is_newer(latest.as_str(), current) {
                Some(latest.clone())
            } else {
                None
            };
            let remembered = UpdateCache { latest, checked_at: stamp.to_string() };
            assert(checked(given, current@, stamp@, told, Some(remembered)));
            (told, Some(remembered))
        },
    }
}

/// What is said of a newer release.
pub open spec fn notice(current: Seq<char>, latest: Seq<char>) -> Seq<char> {
    "\nA new release of logscout is available: "@ + current + " -> "@ + latest
        + "\nhttps://github.com/"@ + RELEASE_REPO@ + "/releases/tag/v"@ + latest
        + "\nRun `logscout upgrade` to update."@
}

/// The notice to print under the version, or nothing when up to date.
pub fn update_notice(current: &str, latest: Option<&str>) -> (r: Option<String>)
    ensures
        match latest {
            Some(l) => r is Some && r->0@ == notice(current@, l@),
            None => r is None,
        },
{
    match latest {
        None => None,
        Some(latest) => Some(
            "\nA new release of logscout is available: ".to_string().concat(current).concat(
                " -> ",
            ).concat(latest).concat("\nhttps://github.com/").concat(RELEASE_REPO).concat(
                "/releases/tag/v",
            ).concat(latest).concat("\nRun `logscout upgrade` to update."),
        ),
    }
}

// ---------------------------------------------------------------------------
// Upgrading
// ---------------------------------------------------------------------------

/// What an upgrade did, for the caller to report.
#[derive(Debug, PartialEq, Eq)]
pub enum Upgraded {
    /// Already on the newest version.
    AlreadyCurrent(String),
    /// Replaced the binary at this path, and the version now installed.
    Replaced { path: String, version: String },
}

/// What an uninstall removed.
#[derive(Debug, PartialEq, Eq)]
pub struct Uninstalled {
    pub binary: Option<String>,
    pub library: Option<String>,
}

impl Default for Uninstalled {
    fn default() -> (r: Self)
        ensures
            r.binary is None,
            r.library is None,
    {
        Uninstalled { binary: None, library: None }
    }
}

/// The user-level library an uninstall may purge.
pub fn user_library_dir(home: Option<&str>) -> (r: Option<String>)
    ensures
        opt_text(r) == match home {
            Some(h) => Some(joined(h@, USER_DIR@)),
            None => None,
        },
{
    match home {
        Some(h) => Some(join_path(h, USER_DIR)),
        None => None,
    }
}

/// The release asset for a platform; none is published for the others.
pub open spec fn asset_for(os: Seq<char>, arch: Seq<char>) -> Option<Seq<char>> {
    if os == "linux"@ && arch == "x86_64"@ {
        Some("log-scouter-x86_64-unknown-linux-musl.tar.gz"@)
    } else if os == "macos"@ && arch == "aarch64"@ {
        Some("log-scouter-aarch64-apple-darwin.tar.gz"@)
    } else if os == "macos"@ && arch == "x86_64"@ {
        Some("log-scouter-x86_64-apple-darwin.tar.gz"@)
    } else if os == "windows"@ && arch == "x86_64"@ {
        Some("log-scouter-x86_64-pc-windows-msvc.zip"@)
    } else {
        None
    }
}

/// The release asset for the platform `os` on `arch`.
pub fn asset_name(os: &str, arch: &str) -> (r: Option<&'static str>)
    ensures
        opt_str(r) == asset_for(os@, arch@),
{
    if same_text(os, "linux") && same_text(arch, "x86_64") {
        Some("log-scouter-x86_64-unknown-linux-musl.tar.gz")
    } else if same_text(os, "macos") && same_text(arch, "aarch64") {
        Some("log-scouter-aarch64-apple-darwin.tar.gz")
    } else if same_text(os, "macos") && same_text(arch, "x86_64") {
        Some("log-scouter-x86_64-apple-darwin.tar.gz")
    } else if same_text(os, "windows") && same_text(arch, "x86_64") {
        Some("log-scouter-x86_64-pc-windows-msvc.zip")
    } else {
        None
    }
}

/// What an upgrade is to do.
#[derive(Debug, PartialEq, Eq)]
pub enum UpgradePlan {
    /// Nothing: this version is current.
    AlreadyCurrent(String),
    /// Install `version`, whose binary is in `asset` at `url`.
    Install { version: String, asset: &'static str, url: String },
}

/// Where a release's asset is downloaded from.
pub open spec fn asset_url(version: Seq<char>, asset: Seq<char>) -> Seq<char> {
    "https://github.com/"@ + RELEASE_REPO@ + "/releases/download/v"@ + version + "/"@ + asset
}

/// Decide an upgrade from `current`. An explicit `asked` version is an instruction, and may be
/// a downgrade; without one, `latest` answers with the newest version.
pub fn plan_upgrade<F: FnOnce() -> Result<String, String>>(
    current: &str,
    asked: Option<&str>,
    os: &str,
    arch: &str,
    latest: F,
) -> (r: Result<UpgradePlan, String>)
    requires
        call_requires(latest, ()),
    ensures
        match asked {
            Some(version) => planned(
                trim_start_by(version@, is_char('v')),
                os@,
                arch@,
                r,
            ),
            None => exists|answer: Result<String, String>| #[trigger]
                call_ensures(latest, (), answer) && plan_follows(answer, current@, os@, arch@, r),
        },
{
    match asked {
        Some(version) => install_plan(trim_start_char(version, 'v').to_string(), os, arch),
        None => {
            let answer = latest();
            let ghost given = answer;
            match answer {
                Err(error) => {
                    let r: Result<UpgradePlan, String> = Err(error);
                    assert(plan_follows(given, current@, os@, arch@, r));
                    r
                },
                Ok(target) => {
                    let r = if is_newer(target.as_str(), current) {
                        install_plan(target, os, arch)
                    } else {
                        Ok(UpgradePlan::AlreadyCurrent(current.to_string()))
                    };
                    assert(plan_follows(given, current@, os@, arch@, r));
                    r
                },
            }
        },
    }
}

/// Whether a plan installs `target`, or says that there is no binary for the platform.
pub open spec fn planned(
    target: Seq<char>,
    os: Seq<char>,
    arch: Seq<char>,
    r: Result<UpgradePlan, String>,
) -> bool {
    match asset_for(os, arch) {
        None => r is Err && r->Err_0@ == "no published binary for "@ + os + "-"@ + arch
            + "; build from source instead"@,
        Some(name) => match r {
            Ok(UpgradePlan::Install { version, asset, url }) => {
                &&& version@ == target
                &&& asset@ == name
                &&& url@ == asset_url(target, name)
            },
            _ => false,
        },
    }
}

/// Whether a plan is what the newest version, as it was answered, calls for.
pub open spec fn plan_follows(
    answer: Result<String, String>,
    current: Seq<char>,
    os: Seq<char>,
    arch: Seq<char>,
    r: Result<UpgradePlan, String>,
) -> bool {
    match answer {
        Err(e) => r == Err::<UpgradePlan, String>(e),
        Ok(target) => if newer(target@, current) {
            planned(target@, os, arch, r)
        } else {
            r matches Ok(UpgradePlan::AlreadyCurrent(v)) && v@ == current
        },
    }
}

fn install_plan(target: String, os: &str, arch: &str) -> (r: Result<UpgradePlan, String>)
    ensures
        planned(target@, os@, arch@, r),
{
    match asset_name(os, arch) {
        None => Err(
            "no published binary for ".to_string().concat(os).concat("-").concat(arch).concat(
                "; build from source instead",
            ),
        ),
        Some(asset) => {
            let url = "https://github.com/".to_string().concat(RELEASE_REPO).concat(
                "/releases/download/v",
            ).concat(target.as_str()).concat("/").concat(asset);
            Ok(UpgradePlan::Install { version: target, asset, url })
        },
    }
}

/// The token to send with a request: the one set for hubs, else GitHub's own; a blank one
/// counts for nothing, and still stands in the way of the other.
pub fn release_token<'a>(hub: Option<&'a str>, github: Option<&'a str>) -> (r: Option<&'a str>)
    ensures
        r == ({
            let set = if hub is Some {
                hub
            } else {
                github
            };
            if set is Some && !is_blank(set->0@) {
                set
            } else {
                None
            }
        }),
{
    let set = match hub {
        Some(value) => Some(value),
        None => github,
    };
    match set {
        Some(value) => if blank(value) {
            None
        } else {
            Some(value)
        },
        None => None,
    }
}

/// Why an answer with this status holds nothing, if it holds nothing.
pub open spec fn answer_refusal(url: Seq<char>, status: u16, shown: Seq<char>) -> Option<
    Seq<char>,
> {
    if 200 <= status < 300 {
        None
    } else if status == 404 {
        Some("not found: "@ + url)
    } else if status == 403 {
        Some("rate limited by GitHub; try again later or set GITHUB_TOKEN"@)
    } else {
        Some("fetch failed: "@ + shown)
    }
}

/// What a status says against a request; `shown` is the status in words.
pub fn refused_answer(url: &str, status: u16, shown: &str) -> (r: Option<String>)
    ensures
        opt_text(r) == answer_refusal(url@, status, shown@),
{
    if status >= 200 && status < 300 {
        None
    } else if status == 404 {
        Some("not found: ".to_string().concat(url))
    } else if status == 403 {
        Some("rate limited by GitHub; try again later or set GITHUB_TOKEN".to_string())
    } else {
        Some("fetch failed: ".to_string().concat(shown))
    }
}

/// What a size says against a download.
pub fn refused_download(length: u64) -> (r: Option<String>)
    ensures
        opt_text(r) == if length > MAX_ASSET_BYTES {
            Some("refusing an implausibly large download"@)
        } else {
            None
        },
{
    if length > MAX_ASSET_BYTES {
        Some("refusing an implausibly large download".to_string())
    } else {
        None
    }
}

// ---------------------------------------------------------------------------
// The binary in a release
// ---------------------------------------------------------------------------

/// Whether a path inside a release archive is the binary, wherever it sits.
pub open spec fn names_binary(path: Seq<char>) -> bool {
    file_name_of(path) == Some("logscout"@) || file_name_of(path) == Some("logscout.exe"@)
}

pub fn is_binary_entry(path: &str) -> (r: bool)
    ensures
        r == names_binary(path@),
{
    match file_name(path) {
        Some(name) => same_text(name, "logscout") || same_text(name, "logscout.exe"),
        None => false,
    }
}

/// The binary among the entries of a tarball from `i` on: the first entry that names it. An
/// entry that cannot be read before it is an error.
pub open spec fn tar_binary(
    items: Seq<Result<ItemParts, Seq<char>>>,
    dest: Seq<char>,
    i: int,
) -> Result<Seq<u8>, Seq<char>>
    decreases items.len() - i,
{
    if i < 0 || i >= items.len() {
        Err("no logscout binary in the archive"@)
    } else {
        match items[i] {
            Err(e) => Err("corrupt archive: "@ + e),
            Ok((_, Err(e), _)) => Err("corrupt archive: "@ + e),
            Ok((_, Ok(path), body)) => if names_binary(path) {
                match body {
                    Ok(bytes) => Ok(bytes),
                    Err(e) => Err(dest + ": "@ + e),
                }
            } else {
                tar_binary(items, dest, i + 1)
            },
        }
    }
}

/// The binary among the entries of a zip from `i` on. An entry whose path leads out of the
/// archive is passed over.
pub open spec fn zip_binary(
    items: Seq<Result<ZipParts, Seq<char>>>,
    dest: Seq<char>,
    i: int,
) -> Result<Seq<u8>, Seq<char>>
    decreases items.len() - i,
{
    if i < 0 || i >= items.len() {
        Err("no logscout.exe in the archive"@)
    } else {
        match items[i] {
            Err(e) => Err("corrupt archive: "@ + e),
            Ok((None, _)) => zip_binary(items, dest, i + 1),
            Ok((Some(path), body)) => if names_binary(path) {
                match body {
                    Ok(bytes) => Ok(bytes),
                    Err(e) => Err(dest + ": "@ + e),
                }
            } else {
                zip_binary(items, dest, i + 1)
            },
        }
    }
}

/// What bytes, or an error, say.
pub open spec fn bytes_result(r: Result<Vec<u8>, String>) -> Result<Seq<u8>, Seq<char>> {
    match r {
        Ok(v) => Ok(v@),
        Err(e) => Err(e@),
    }
}

/// Pick the binary out of the entries of a tarball; `dest` is where it will be written.
pub fn binary_in_tarball(items: &Vec<Result<ArchiveItem, String>>, dest: &str) -> (r: Result<
    Vec<u8>,
    String,
>)
    ensures
        bytes_result(r) == tar_binary(item_views(items@), dest@, 0),
{
    let ghost all = item_views(items@);
    for i in 0..items.len()
        invariant
            all == item_views(items@),
            tar_binary(all, dest@, i as int) == tar_binary(all, dest@, 0),
    {
        assert(all[i as int] == item_result(items@[i as int]));
        match &items[i] {
            Err(error) => {
                return Err("corrupt archive: ".to_string().concat(error.as_str()));
            },
            Ok(item) => match &item.path {
                Err(error) => {
                    return Err("corrupt archive: ".to_string().concat(error.as_str()));
                },
                Ok(path) => if is_binary_entry(path.as_str()) {
                    return match &item.body {
                        Ok(bytes) => Ok(bytes.clone()),
                        Err(error) => Err(
                            dest.to_string().concat(": ").concat(error.as_str()),
                        ),
                    };
                },
            },
        }
    }
    Err("no logscout binary in the archive".to_string())
}

/// Pick the binary out of the entries of a zip; `dest` is where it will be written.
pub fn binary_in_zip(items: &Vec<Result<ZipItem, String>>, dest: &str) -> (r: Result<
    Vec<u8>,
    String,
>)
    ensures
        bytes_result(r) == zip_binary(zip_views(items@), dest@, 0),
{
    let ghost all = zip_views(items@);
    for i in 0..items.len()
        invariant
            all == zip_views(items@),
            zip_binary(all, dest@, i as int) == zip_binary(all, dest@, 0),
    {
        assert(all[i as int] == zip_result(items@[i as int]));
        match &items[i] {
            Err(error) => {
                return Err("corrupt archive: ".to_string().concat(error.as_str()));
            },
            Ok(item) => match &item.path {
                None => {},
                Some(path) => if is_binary_entry(path.as_str()) {
                    return match &item.body {
                        Ok(bytes) => Ok(bytes.clone()),
                        Err(error) => Err(
                            dest.to_string().concat(": ").concat(error.as_str()),
                        ),
                    };
                },
            },
        }
    }
    Err("no logscout.exe in the archive".to_string())
}

/// The binary of a release asset: Windows has zips, every other platform gzipped tarballs.
pub open spec fn asset_binary(
    archive: Seq<u8>,
    asset: Seq<char>,
    windows: bool,
    dest: Seq<char>,
) -> Result<Seq<u8>, Seq<char>> {
    if ends_with(asset, ".zip"@) {
        if !windows {
            Err("zip release assets are only used on Windows"@)
        } else {
            match zip_entries(archive) {
                Err(e) => Err("not a zip: "@ + e),
                Ok(items) => zip_binary(items, dest, 0),
            }
        }
    } else {
        match tarball_entries(archive) {
            Err(e) => Err("not a gzipped tarball: "@ + e),
            Ok(items) => tar_binary(items, dest, 0),
        }
    }
}

/// Pull the `logscout` binary out of a release archive, to be written to `dest`.
pub fn extract_binary(archive: &[u8], asset: &str, windows: bool, dest: &str) -> (r: Result<
    Vec<u8>,
    String,
>)
    ensures
        bytes_result(r) == asset_binary(archive@, asset@, windows, dest@),
{
    if text_ends_with(asset, ".zip") {
        if !windows {
            return Err("zip release assets are only used on Windows".to_string());
        }
        match read_zip(archive) {
            Err(error) => Err("not a zip: ".to_string().concat(error.as_str())),
            Ok(items) => binary_in_zip(&items, dest),
        }
    } else {
        match read_tarball(archive) {
            Err(error) => Err("not a gzipped tarball: ".to_string().concat(error.as_str())),
            Ok(items) => binary_in_tarball(&items, dest),
        }
    }
}

// ---------------------------------------------------------------------------
// Laws
// ---------------------------------------------------------------------------

/// Being newer orders versions: no version is newer than itself, and what is newer than a
/// newer version is newer. So no two versions are each newer than the other.
pub proof fn newer_is_an_order(a: Seq<char>, b: Seq<char>, c: Seq<char>)
    ensures
        !newer(a, a),
        newer(a, b) && newer(b, c) ==> newer(a, c),
        !(newer(a, b) && newer(b, a)),
{
}

/// The `v` of a tag makes no difference.
pub proof fn the_tag_prefix_is_noise(latest: Seq<char>, current: Seq<char>)
    requires
        latest == trimmed(latest),
        "v"@ + latest == trimmed("v"@ + latest),
    ensures
        newer("v"@ + latest, current) == newer(latest, current),
{
    reveal_strlit("v");
    let tagged = "v"@ + latest;
    let p = is_char('v');
    lemma_span(latest, p);
    assert forall|k: int| 0 <= k < span(latest, p) + 1 implies p(#[trigger] tagged[k]) by {
        if k > 0 {
            assert(tagged[k] == latest[k - 1]);
        }
    }
    if span(latest, p) < latest.len() {
        assert(tagged[span(latest, p) as int + 1] == latest[span(latest, p) as int]);
    }
    lemma_span_is(tagged, p, span(latest, p) + 1);
    assert(trim_start_by(tagged, p) =~= trim_start_by(latest, p));
}

/// A tag of which no part can be read never looks like an upgrade.
pub proof fn an_unreadable_tag_is_no_upgrade(latest: Seq<char>, current: Seq<char>)
    requires
        forall|i: int|
            0 <= i < pieces(bare_version(latest)).len() ==> read_u64(
                #[trigger] pieces(bare_version(latest))[i],
            ) is None,
    ensures
        !newer(latest, current),
{
    let all = pieces(bare_version(latest));
    let b = version_parts(latest);
    assert forall|i: int| 0 <= i < b.len() implies (#[trigger] b[i]) == 0 by {
        assert(leading(all)[i] == all[i]);
    }
}

proof fn lemma_piece_holds_its_text(s: Seq<char>, i: int, k: int)
    requires
        0 <= i < pieces(s).len(),
        0 <= k < pieces(s)[i].len(),
    ensures
        s.contains(pieces(s)[i][k]),
    decreases s.len(),
{
    let n = span(s, version_ink());
    lemma_span(s, version_ink());
    if n < s.len() && i > 0 {
        let rest = s.skip(n as int + 1);
        assert(pieces(s)[i] == pieces(rest)[i - 1]);
        lemma_piece_holds_its_text(rest, i - 1, k);
        let j = choose|j: int| 0 <= j < rest.len() && rest[j] == pieces(s)[i][k];
        assert(s[j + n + 1] == rest[j]);
    } else {
        assert(pieces(s)[i][k] == s[k]);
    }
}

/// A tag without a digit, such as `latest` or `...`, never looks like an upgrade.
pub proof fn a_tag_without_digits_is_no_upgrade(latest: Seq<char>, current: Seq<char>)
    requires
        forall|i: int| 0 <= i < latest.len() ==> !is_digit(#[trigger] latest[i]),
    ensures
        !newer(latest, current),
{
    let bare = bare_version(latest);
    let all = pieces(bare);
    let start = trim_start_by(latest, space());
    let inner = trimmed(latest);
    lemma_span(latest, space());
    lemma_span_end(start, space());
    lemma_span(inner, is_char('v'));
    let skipped = span(latest, space()) + span(inner, is_char('v'));
    assert forall|k: int| 0 <= k < bare.len() implies !is_digit(#[trigger] bare[k]) by {
        assert(bare[k] == latest[k + skipped]);
    }
    assert forall|i: int| 0 <= i < all.len() implies read_u64(#[trigger] all[i]) is None by {
        if all[i].len() > 0 {
            lemma_piece_holds_its_text(bare, i, 0);
            let j = choose|j: int| 0 <= j < bare.len() && bare[j] == all[i][0];
            assert(!is_digit(bare[j]));
        }
    }
    an_unreadable_tag_is_no_upgrade(latest, current);
}

/// A separator parts the pieces before it from those after it.
proof fn lemma_pieces_parted(s: Seq<char>, t: Seq<char>)
    requires
        t.len() > 0,
        !version_ink()(t[0]),
    ensures
        pieces(s + t) == pieces(s) + pieces(t.skip(1)),
    decreases s.len(),
{
    let p = version_ink();
    let n = span(s, p);
    let all = s + t;
    lemma_span(s, p);
    assert forall|k: int| 0 <= k < n implies p(#[trigger] all[k]) by {
        assert(all[k] == s[k]);
    }
    if n >= s.len() {
        assert(all[n as int] == t[0]);
        lemma_span_is(all, p, n);
        assert(all.take(n as int) =~= s);
        assert(all.skip(n as int + 1) =~= t.skip(1));
    } else {
        assert(all[n as int] == s[n as int]);
        lemma_span_is(all, p, n);
        assert(all.take(n as int) =~= s.take(n as int));
        let rest = s.skip(n as int + 1);
        assert(all.skip(n as int + 1) =~= rest + t);
        lemma_pieces_parted(rest, t);
        assert(pieces(all) =~= seq![s.take(n as int)] + (pieces(rest) + pieces(t.skip(1))));
        assert(pieces(all) =~= pieces(s) + pieces(t.skip(1)));
    }
}

/// A pre-release of a version is no upgrade from that version, unless it puts a number where the
/// version has none.
pub proof fn a_pre_release_is_no_upgrade(current: Seq<char>, tail: Seq<char>)
    requires
        trimmed(current) == current,
        trimmed(current + "-"@ + tail) == current + "-"@ + tail,
        forall|i: int|
            0 <= i < pieces(tail).len() && pieces(bare_version(current)).len() + i < 3
                ==> piece_value(#[trigger] pieces(tail)[i]) == 0,
    ensures
        !newer(current + "-"@ + tail, current),
{
    reveal_strlit("-");
    let suffix = "-"@ + tail;
    let early = current + "-"@ + tail;
    assert(early =~= current + suffix);
    let v = is_char('v');
    let n = span(current, v);
    lemma_span(current, v);
    let bare = bare_version(current);
    assert forall|k: int| 0 <= k < n implies v(#[trigger] early[k]) by {
        assert(early[k] == current[k]);
    }
    if n < current.len() {
        assert(early[n as int] == current[n as int]);
    } else {
        assert(early[n as int] == '-');
    }
    lemma_span_is(early, v, n);
    assert(bare_version(early) =~= bare + suffix);
    lemma_pieces_parted(bare, suffix);
    assert(suffix.skip(1) =~= tail);
    let all = pieces(bare);
    let more = pieces(bare + suffix);
    assert forall|k: int| 0 <= k < 3 implies #[trigger] number_at(early, k) == number_at(
        current,
        k,
    ) by {
        if k < all.len() {
            assert(more[k] == all[k]);
            assert(leading(more)[k] == more[k]);
            assert(leading(all)[k] == all[k]);
        } else if k < more.len() {
            assert(more[k] == pieces(tail)[k - all.len()]);
            assert(leading(more)[k] == more[k]);
        }
    }
}

proof fn lemma_one_piece(s: Seq<char>)
    requires
        forall|k: int| 0 <= k < s.len() ==> is_digit(#[trigger] s[k]),
    ensures
        pieces(s) == seq![s],
{
    assert forall|k: int| 0 <= k < s.len() implies version_ink()(#[trigger] s[k]) by {
        assert(is_digit(s[k]));
    }
    lemma_span_is(s, version_ink(), s.len());
}

/// A version as three numbers are written: `MAJOR.MINOR.PATCH`.
pub open spec fn dotted(major: u64, minor: u64, patch: u64) -> Seq<char> {
    decimal(major as nat) + "."@ + decimal(minor as nat) + "."@ + decimal(patch as nat)
}

proof fn lemma_dotted(major: u64, minor: u64, patch: u64)
    ensures
        number_at(dotted(major, minor, patch), 0) == major,
        number_at(dotted(major, minor, patch), 1) == minor,
        number_at(dotted(major, minor, patch), 2) == patch,
{
    reveal_strlit(".");
    let a = decimal(major as nat);
    let b = decimal(minor as nat);
    let c = decimal(patch as nat);
    let s = dotted(major, minor, patch);
    numbers_read_as_they_are_written(major as nat);
    numbers_read_as_they_are_written(minor as nat);
    numbers_read_as_they_are_written(patch as nat);
    assert(s[0] == a[0]);
    assert(is_digit(a[0]));
    assert(s.last() == c.last());
    assert(is_digit(c[c.len() - 1]));
    lemma_span_is(s, space(), 0);
    assert(s.skip(0) =~= s);
    lemma_span_end_is(s, space(), 0);
    assert(s.take(s.len() as int) =~= s);
    lemma_span_is(s, is_char('v'), 0);
    assert(bare_version(s) =~= s);
    let behind = "."@ + c;
    let t = "."@ + b + "."@ + c;
    assert(s =~= a + t);
    lemma_pieces_parted(a, t);
    assert(t.skip(1) =~= b + behind);
    lemma_pieces_parted(b, behind);
    assert(behind.skip(1) =~= c);
    lemma_one_piece(a);
    lemma_one_piece(b);
    lemma_one_piece(c);
    let all = pieces(s);
    assert(all =~= seq![a, b, c]);
    assert(leading(all) == all);
    assert(version_parts(s)[0] == piece_value(all[0]));
    assert(version_parts(s)[1] == piece_value(all[1]));
    assert(version_parts(s)[2] == piece_value(all[2]));
}

/// A version is newer exactly where its first number is greater, or that is the same and the
/// second is greater, or both are the same and the third is greater; as numbers, not as text.
pub proof fn versions_are_compared_number_by_number(
    a: (u64, u64, u64),
    b: (u64, u64, u64),
)
    ensures
        newer(dotted(a.0, a.1, a.2), dotted(b.0, b.1, b.2)) <==> a.0 > b.0 || (a.0 == b.0 && (a.1
            > b.1 || (a.1 == b.1 && a.2 > b.2))),
        upgrade_to(dotted(a.0, a.1, a.2), dotted(b.0, b.1, b.2)) is Some <==> a.0 > b.0 || (a.0
            == b.0 && (a.1 > b.1 || (a.1 == b.1 && a.2 > b.2))),
{
    lemma_dotted(a.0, a.1, a.2);
    lemma_dotted(b.0, b.1, b.2);
}

/// The binary of a tarball is the first entry of its name, wherever it sits; every entry before
/// it has to be readable.
pub proof fn the_first_entry_of_the_name_is_the_binary(
    items: Seq<Result<ItemParts, Seq<char>>>,
    dest: Seq<char>,
    i: int,
    k: int,
)
    requires
        0 <= i <= k < items.len(),
        forall|j: int|
            i <= j < k ==> (#[trigger] items[j]) is Ok && (items[j]->Ok_0).1 is Ok && file_name_of(
                (items[j]->Ok_0).1->Ok_0,
            ) != Some("logscout"@) && file_name_of((items[j]->Ok_0).1->Ok_0) != Some(
                "logscout.exe"@,
            ),
        items[k] is Ok,
        (items[k]->Ok_0).1 is Ok,
        file_name_of((items[k]->Ok_0).1->Ok_0) == Some("logscout"@),
        (items[k]->Ok_0).2 is Ok,
    ensures
        tar_binary(items, dest, i) == Ok::<Seq<u8>, Seq<char>>((items[k]->Ok_0).2->Ok_0),
    decreases k - i,
{
    if i < k {
        assert(items[i] is Ok);
        the_first_entry_of_the_name_is_the_binary(items, dest, i + 1, k);
    }
}

/// The asset of a platform names its processor, and a zip is for Windows alone.
pub proof fn only_windows_gets_a_zip(os: Seq<char>, arch: Seq<char>)
    requires
        asset_for(os, arch) is Some,
    ensures
        ends_with(asset_for(os, arch)->0, ".zip"@) <==> os == "windows"@,
        arch == "x86_64"@ || (arch == "aarch64"@ && os == "macos"@),
{
    reveal_strlit(".zip");
    reveal_strlit("linux");
    reveal_strlit("macos");
    reveal_strlit("windows");
    reveal_strlit("log-scouter-x86_64-unknown-linux-musl.tar.gz");
    reveal_strlit("log-scouter-aarch64-apple-darwin.tar.gz");
    reveal_strlit("log-scouter-x86_64-apple-darwin.tar.gz");
    reveal_strlit("log-scouter-x86_64-pc-windows-msvc.zip");
    let asset = asset_for(os, arch)->0;
    let last = asset.skip(asset.len() - 4);
    assert("linux"@.len() == 5 && "macos"@.len() == 5 && "windows"@.len() == 7);
    assert("linux"@[0] == 'l' && "macos"@[0] == 'm');
    if os == "windows"@ {
        assert(last =~= ".zip"@);
    } else {
        assert(last[3] == asset[asset.len() - 1]);
        assert(asset[asset.len() - 1] == 'z');
        assert(".zip"@[3] == 'p');
    }
}

} // verus!
