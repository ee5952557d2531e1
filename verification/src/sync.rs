//! Fetching hubs: what to ask for, and what to make of the answer.

use crate::archive::{item_result, item_views, read_tarball, tarball_entries, ArchiveItem, ItemParts};
use crate::extractor::{capped, USER_SCHEMAS_SUBDIR};
use crate::hub::{
    add_refusal, has_hub, hub_index, lemma_hub_index, Hub, HubConfig, HubParts, SyncReport, OFFICIAL_HUB_NAME,
};
use crate::lists::{clone_option, count, lemma_keep_all};
use crate::packs::sanitized;
use crate::paths::{
    components, is_step, joined, path_components, USER_FILTERS_SUBDIR, USER_SEARCHES_SUBDIR,
};
use crate::repo::{is_official, parse_repo, parsed_repo, repo_is_official, Forge, Repo};
use crate::text::{
    a_separator_parts_a_text, blank, debug_quoted, debug_text, decimal, decimal_text, ends_with,
    find, is_blank, lowercase, lowercase_of, opt_str, opt_text, reads_at, same_text, split,
    starts_with, text_contains, text_ends_with, text_starts_with, texts, the_first_place_is_found,
};
use vstd::prelude::*;

verus! {

/// A tarball bigger than this is not a hub.
pub const MAX_TARBALL_BYTES: u64 = 33554432;

// ---------------------------------------------------------------------------
// Unpacking
// ---------------------------------------------------------------------------

/// Whether a folder is one that a hub can publish.
pub open spec fn is_hub_folder(folder: Seq<char>) -> bool {
    folder == USER_SCHEMAS_SUBDIR@ || folder == USER_FILTERS_SUBDIR@ || folder
        == USER_SEARCHES_SUBDIR@
}

/// Whether a file of a hub is taken: a plain visible JSON file.
pub open spec fn is_hub_file(file: Seq<char>) -> bool {
    &&& ends_with(lowercase_of(file), ".json"@)
    &&& !starts_with(file, "."@)
    &&& find(file, "/"@) is None
    &&& find(file, "\\"@) is None
    &&& find(file, ".."@) is None
}

/// Where an archive entry belongs in the cache: one known folder, and a plain file in it. The
/// one directory around everything is dropped.
pub open spec fn entry_target(path: Seq<char>) -> Option<(Seq<char>, Seq<char>)> {
    let parts = components(path);
    if parts.len() == 3 && is_hub_folder(parts[1]) && is_hub_file(parts[2]) {
        Some((parts[1], parts[2]))
    } else {
        None
    }
}

fn known_folder(folder: &str) -> (r: Option<&'static str>)
    ensures
        match r {
            Some(s) => s@ == folder@ && is_hub_folder(folder@),
            None => !is_hub_folder(folder@),
        },
{
    if same_text(folder, USER_SCHEMAS_SUBDIR) {
        Some(USER_SCHEMAS_SUBDIR)
    } else if same_text(folder, USER_FILTERS_SUBDIR) {
        Some(USER_FILTERS_SUBDIR)
    } else if same_text(folder, USER_SEARCHES_SUBDIR) {
        Some(USER_SEARCHES_SUBDIR)
    } else {
        None
    }
}

/// Where an archive entry belongs in the cache, or `None` to skip it.
///
/// What survives is exactly a known folder and a plain file name, which is also why an entry
/// with `..` in it cannot escape the cache: it never has that shape.
pub fn hub_entry_target(path: &str) -> (r: Option<(&'static str, String)>)
    ensures
        match r {
            Some((folder, file)) => entry_target(path@) == Some((folder@, file@)),
            None => entry_target(path@) is None,
        },
{
    let parts = path_components(path);
    let ghost all = texts(parts@);
    if parts.len() != 3 {
        return None;
    }
    assert(all[1] == parts@[1]@ && all[2] == parts@[2]@);
    let folder = match known_folder(parts[1].as_str()) {
        Some(folder) => folder,
        None => {
            return None;
        },
    };
    let file = parts[2].as_str();
    if !text_ends_with(lowercase(file).as_str(), ".json") || text_starts_with(file, ".") {
        return None;
    }
    if text_contains(file, "/") || text_contains(file, "\\") || text_contains(file, "..") {
        return None;
    }
    Some((folder, file.to_string()))
}

/// A file of a hub, with the folder it belongs in.
pub struct HubFile {
    pub folder: &'static str,
    pub name: String,
    pub body: Vec<u8>,
}

/// What a hub file is: folder, name, body.
pub type HubFileParts = (Seq<char>, Seq<char>, Seq<u8>);

impl View for HubFile {
    type V = HubFileParts;

    open spec fn view(&self) -> HubFileParts {
        (self.folder@, self.name@, self.body@)
    }
}

pub open spec fn hub_file_views(v: Seq<HubFile>) -> Seq<HubFileParts> {
    v.map_values(|f: HubFile| f@)
}

/// The hub files among the first `n` entries, or why they cannot be had.
pub open spec fn unpacked(items: Seq<Result<ItemParts, Seq<char>>>, n: int) -> Result<
    Seq<HubFileParts>,
    Seq<char>,
>
    decreases n,
{
    if n <= 0 {
        Ok(Seq::empty())
    } else {
        match unpacked(items, n - 1) {
            Err(e) => Err(e),
            Ok(files) => match items[n - 1] {
                Err(e) => Err("corrupt tarball: "@ + e),
                Ok(item) => if !item.0 {
                    Ok(files)
                } else {
                    match item.1 {
                        Err(e) => Err("corrupt tarball: "@ + e),
                        Ok(path) => match entry_target(path) {
                            None => Ok(files),
                            Some((folder, name)) => match item.2 {
                                Ok(body) => Ok(files.push((folder, name, body))),
                                Err(e) => Err(debug_quoted(path) + ": "@ + e),
                            },
                        },
                    }
                },
            },
        }
    }
}

pub open spec fn in_folder(folder: Seq<char>) -> spec_fn(HubFileParts) -> bool {
    |f: HubFileParts| f.0 == folder
}

/// The predicate "is neither a schema nor a filter".
pub open spec fn in_other_folder() -> spec_fn(HubFileParts) -> bool {
    |f: HubFileParts| f.0 != USER_SCHEMAS_SUBDIR@ && f.0 != USER_FILTERS_SUBDIR@
}

/// Whether a report counts these files.
pub open spec fn counts(report: SyncReport, files: Seq<HubFileParts>) -> bool {
    &&& report.schemas == count(files, in_folder(USER_SCHEMAS_SUBDIR@))
    &&& report.filters == count(files, in_folder(USER_FILTERS_SUBDIR@))
    &&& report.searches == count(files, in_other_folder())
}

proof fn lemma_folder_names()
    ensures
        USER_SCHEMAS_SUBDIR@ != USER_FILTERS_SUBDIR@,
        USER_SCHEMAS_SUBDIR@ != USER_SEARCHES_SUBDIR@,
        USER_FILTERS_SUBDIR@ != USER_SEARCHES_SUBDIR@,
{
    reveal_strlit("schemas");
    reveal_strlit("filters");
    reveal_strlit("searches");
    assert(USER_SCHEMAS_SUBDIR@[0] == 's' && USER_SCHEMAS_SUBDIR@[1] == 'c');
    assert(USER_FILTERS_SUBDIR@[0] == 'f');
    assert(USER_SEARCHES_SUBDIR@[0] == 's' && USER_SEARCHES_SUBDIR@[1] == 'e');
}

fn copy_bytes(v: &Vec<u8>) -> (r: Vec<u8>)
    ensures
        r@ == v@,
{
    let mut out: Vec<u8> = Vec::new();
    for i in 0..v.len()
        invariant
            out@ == v@.take(i as int),
    {
        out.push(v[i]);
    }
    assert(out@ == v@);
    out
}

/// The hub files of an archive, and how many of each kind there are.
pub fn hub_files(items: &Vec<Result<ArchiveItem, String>>) -> (r: Result<
    (Vec<HubFile>, SyncReport),
    String,
>)
    ensures
        match r {
            Ok((files, report)) => {
                &&& unpacked(item_views(items@), items@.len() as int) == Ok::<_, Seq<char>>(
                    hub_file_views(files@),
                )
                &&& counts(report, hub_file_views(files@))
            },
            Err(e) => unpacked(item_views(items@), items@.len() as int) == Err::<
                Seq<HubFileParts>,
                _,
            >(e@),
        },
{
    let ghost all = item_views(items@);
    let mut files: Vec<HubFile> = Vec::new();
    let mut report = SyncReport { schemas: 0, filters: 0, searches: 0 };
    assert(hub_file_views(files@) =~= Seq::<HubFileParts>::empty());
    for i in 0..items.len()
        invariant
            all == item_views(items@),
            unpacked(all, i as int) == Ok::<_, Seq<char>>(hub_file_views(files@)),
            counts(report, hub_file_views(files@)),
            report.schemas <= i,
            report.filters <= i,
            report.searches <= i,
    {
        assert(all[i as int] == item_result(items@[i as int]));
        match &items[i] {
            Err(error) => {
                let e = "corrupt tarball: ".to_string().concat(error.as_str());
                proof {
                    lemma_unpacked_error(all, i + 1, items@.len() as int);
                }
                return Err(e);
            },
            Ok(item) => {
                if item.is_file {
                    match &item.path {
                        Err(error) => {
                            let e = "corrupt tarball: ".to_string().concat(error.as_str());
                            proof {
                                lemma_unpacked_error(all, i + 1, items@.len() as int);
                            }
                            return Err(e);
                        },
                        Ok(path) => {
                            if let Some((folder, name)) = hub_entry_target(path.as_str()) {
                                match &item.body {
                                    Err(error) => {
                                        let e = debug_text(path.as_str()).concat(": ").concat(
                                            error.as_str(),
                                        );
                                        proof {
                                            lemma_unpacked_error(
                                                all,
                                                i + 1,
                                                items@.len() as int,
                                            );
                                        }
                                        return Err(e);
                                    },
                                    Ok(body) => {
                                        let ghost before = hub_file_views(files@);
                                        let file = HubFile { folder, name, body: copy_bytes(body) };
                                        let ghost added = file@;
                                        files.push(file);
                                        assert(hub_file_views(files@) =~= before.push(added));
                                        assert(before.push(added).drop_last() =~= before);
                                        proof {
                                            lemma_folder_names();
                                        }
                                        if same_text(folder, USER_SCHEMAS_SUBDIR) {
                                            report.schemas = report.schemas + 1;
                                        } else if same_text(folder, USER_FILTERS_SUBDIR) {
                                            report.filters = report.filters + 1;
                                        } else {
                                            report.searches = report.searches + 1;
                                        }
                                    },
                                }
                            }
                        },
                    }
                }
            },
        }
    }
    Ok((files, report))
}

proof fn lemma_unpacked_error(items: Seq<Result<ItemParts, Seq<char>>>, n: int, m: int)
    requires
        n <= m,
        unpacked(items, n) is Err,
    ensures
        unpacked(items, m) == unpacked(items, n),
    decreases m - n,
{
    if n < m {
        lemma_unpacked_error(items, n, m - 1);
    }
}

/// The hub files of a tarball, or why it is no hub.
pub open spec fn unpacked_hub(bytes: Seq<u8>) -> Result<Seq<HubFileParts>, Seq<char>> {
    match tarball_entries(bytes) {
        Err(e) => Err("not a gzipped tarball: "@ + e),
        Ok(items) => match unpacked(items, items.len() as int) {
            Err(e) => Err(e),
            Ok(files) => if files.len() == 0 {
                Err("no schemas/, filters/ or searches/ JSON in that repo -- is it a hub?"@)
            } else {
                Ok(files)
            },
        },
    }
}

proof fn lemma_counts_total(report: SyncReport, files: Seq<HubFileParts>)
    requires
        counts(report, files),
    ensures
        report.schemas + report.filters + report.searches == files.len(),
    decreases files.len(),
{
    lemma_count_split(files);
}

proof fn lemma_count_split(files: Seq<HubFileParts>)
    ensures
        count(files, in_folder(USER_SCHEMAS_SUBDIR@)) + count(
            files,
            in_folder(USER_FILTERS_SUBDIR@),
        ) + count(files, in_other_folder()) == files.len(),
    decreases files.len(),
{
    if files.len() > 0 {
        lemma_count_split(files.drop_last());
        lemma_folder_names();
    }
}

/// Unpack the `schemas/`, `filters/` and `searches/` JSON out of a repo tarball. A repo with
/// none of them is refused.
pub fn unpack_hub(tarball: &[u8]) -> (r: Result<(Vec<HubFile>, SyncReport), String>)
    ensures
        match r {
            Ok((files, report)) => {
                &&& unpacked_hub(tarball@) == Ok::<_, Seq<char>>(hub_file_views(files@))
                &&& counts(report, hub_file_views(files@))
            },
            Err(e) => unpacked_hub(tarball@) == Err::<Seq<HubFileParts>, _>(e@),
        },
{
    let items = match read_tarball(tarball) {
        Ok(items) => items,
        Err(error) => {
            return Err("not a gzipped tarball: ".to_string().concat(error.as_str()));
        },
    };
    assert(item_views(items@).len() == items@.len());
    let (files, report) = match hub_files(&items) {
        Ok(found) => found,
        Err(error) => {
            return Err(error);
        },
    };
    assert(hub_file_views(files@).len() == files@.len());
    proof {
        lemma_counts_total(report, hub_file_views(files@));
    }
    if report.total() == 0 {
        return Err(
            "no schemas/, filters/ or searches/ JSON in that repo -- is it a hub?".to_string(),
        );
    }
    Ok((files, report))
}

// ---------------------------------------------------------------------------
// Asking a host
// ---------------------------------------------------------------------------

/// The variable that holds a forge's own token.
pub open spec fn token_var(forge: Forge) -> Seq<char> {
    match forge {
        Forge::GitHub => "GITHUB_TOKEN"@,
        Forge::GitLab => "GITLAB_TOKEN"@,
        Forge::Gitea => "GITEA_TOKEN"@,
    }
}

pub fn token_variable(forge: Forge) -> (r: &'static str)
    ensures
        r@ == token_var(forge),
{
    match forge {
        Forge::GitHub => "GITHUB_TOKEN",
        Forge::GitLab => "GITLAB_TOKEN",
        Forge::Gitea => "GITEA_TOKEN",
    }
}

/// The header a token goes in, and what stands there: each forge takes its token its own way.
/// The forge's own variable comes first; the one set by hand for hubs stands in where the
/// other is not set at all.
pub open spec fn token_header(
    forge: Forge,
    own: Option<Seq<char>>,
    shared: Option<Seq<char>>,
) -> Option<(Seq<char>, Seq<char>)> {
    let value = if own is Some {
        own
    } else {
        shared
    };
    if value is None || is_blank(value->0) {
        None
    } else {
        match forge {
            Forge::GitHub => Some(("Authorization"@, "Bearer "@ + value->0)),
            Forge::GitLab => Some(("PRIVATE-TOKEN"@, value->0)),
            Forge::Gitea => Some(("Authorization"@, "token "@ + value->0)),
        }
    }
}

/// The token to send to `forge`, if one is set, and the header it belongs in. `own` is the
/// value of that forge's own variable, so no forge is sent another's credential.
pub fn token_for(forge: Forge, own: Option<&str>, shared: Option<&str>) -> (r: Option<
    (&'static str, String),
>)
    ensures
        match r {
            Some((header, value)) => token_header(forge, opt_str(own), opt_str(shared)) == Some(
                (header@, value@),
            ),
            None => token_header(forge, opt_str(own), opt_str(shared)) is None,
        },
{
    let set = match own {
        Some(v) => Some(v),
        None => shared,
    };
    match set {
        None => None,
        Some(value) => {
            if blank(value) {
                return None;
            }
            Some(
                match forge {
                    Forge::GitHub => ("Authorization", "Bearer ".to_string().concat(value)),
                    Forge::GitLab => ("PRIVATE-TOKEN", value.to_string()),
                    Forge::Gitea => ("Authorization", "token ".to_string().concat(value)),
                },
            )
        },
    }
}

/// Why an answer with this status is no tarball, if it is none.
pub open spec fn status_refusal(url: Seq<char>, status: u16, shown: Seq<char>) -> Option<
    Seq<char>,
> {
    if 200 <= status < 300 {
        None
    } else if status == 404 {
        Some(
            "not found: "@ + url
                + "\n(a private repo needs LOGSCOUT_HUB_TOKEN or GITHUB_TOKEN)"@,
        )
    } else if status == 401 || status == 403 {
        Some("access denied ("@ + shown + "): check LOGSCOUT_HUB_TOKEN"@)
    } else {
        Some("fetch failed: "@ + shown)
    }
}

/// What a status says against a fetch; `shown` is the status in words.
pub fn refused_status(url: &str, status: u16, shown: &str) -> (r: Option<String>)
    ensures
        opt_text(r) == status_refusal(url@, status, shown@),
{
    if status >= 200 && status < 300 {
        None
    } else if status == 404 {
        Some(
            "not found: ".to_string().concat(url).concat(
                "\n(a private repo needs LOGSCOUT_HUB_TOKEN or GITHUB_TOKEN)",
            ),
        )
    } else if status == 401 || status == 403 {
        Some("access denied (".to_string().concat(shown).concat("): check LOGSCOUT_HUB_TOKEN"))
    } else {
        Some("fetch failed: ".to_string().concat(shown))
    }
}

/// Why a tarball of this size is refused, if it is.
pub open spec fn size_refusal(length: u64) -> Option<Seq<char>> {
    if length > MAX_TARBALL_BYTES {
        Some("refusing a "@ + decimal(length as nat) + "-byte tarball: too big for a hub"@)
    } else {
        None
    }
}

pub fn refused_size(length: u64) -> (r: Option<String>)
    ensures
        opt_text(r) == size_refusal(length),
{
    if length > MAX_TARBALL_BYTES {
        Some(
            "refusing a ".to_string().concat(decimal_text(length).as_str()).concat(
                "-byte tarball: too big for a hub",
            ),
        )
    } else {
        None
    }
}

// ---------------------------------------------------------------------------
// One hub
// ---------------------------------------------------------------------------

/// One place to fetch a hub from.
pub struct Attempt {
    pub forge: Forge,
    pub url: String,
}

/// What came of an attempt.
pub enum Fetched {
    /// The hub was fetched and unpacked, at this time.
    Unpacked(SyncReport, String),
    /// Something was fetched, but could not be unpacked.
    Refused(String),
    /// Nothing could be fetched there.
    Failed(String),
}

/// The forges to try for a hub: the one it is known to be on, else those worth trying.
pub open spec fn hub_forges(hub: HubParts, repo: Repo) -> Seq<Forge> {
    match hub.forge {
        Some(forge) => seq![forge],
        None => repo.worth_trying(),
    }
}

/// The branch a hub tracks: its own, else the one its URL names.
pub open spec fn hub_branch(hub: HubParts, repo: Repo) -> Option<Seq<char>> {
    match hub.branch {
        Some(b) => Some(b),
        None => repo.branch,
    }
}

/// The places to fetch a hub from, in order.
pub open spec fn hub_attempts(hub: HubParts, repo: Repo) -> Seq<(Forge, Seq<char>)> {
    hub_forges(hub, repo).map_values(
        |f: Forge| (f, repo.tarball(f, hub_branch(hub, repo))),
    )
}

pub open spec fn attempt_views(v: Seq<Attempt>) -> Seq<(Forge, Seq<char>)> {
    v.map_values(|a: Attempt| (a.forge, a.url@))
}

/// The places to fetch a hub from, best first, or why there is none. A hub that has synced
/// before remembers its forge; a new one on a host that is not known gets asked.
pub fn sync_attempts(hub: &Hub) -> (r: Result<Vec<Attempt>, String>)
    ensures
        match r {
            Ok(v) => parsed_repo(hub@.url) is Ok && attempt_views(v@) == hub_attempts(
                hub@,
                parsed_repo(hub@.url)->Ok_0,
            ),
            Err(e) => parsed_repo(hub@.url) == Err::<Repo, _>(e@),
        },
{
    let repo = match parse_repo(hub.url.as_str()) {
        Ok(repo) => repo,
        Err(error) => {
            return Err(error);
        },
    };
    let branch: Option<&str> = match (&hub.branch, &repo.branch) {
        (Some(b), _) => Some(b.as_str()),
        (None, Some(b)) => Some(b.as_str()),
        (None, None) => None,
    };
    let forges = match hub.forge {
        Some(forge) => vec![forge],
        None => repo.candidates(),
    };
    let ghost want = hub_attempts(hub@, repo@);
    let mut out: Vec<Attempt> = Vec::new();
    assert(forges@ =~= hub_forges(hub@, repo@));
    for i in 0..forges.len()
        invariant
            forges@ == hub_forges(hub@, repo@),
            opt_str(branch) == hub_branch(hub@, repo@),
            want == hub_attempts(hub@, repo@),
            attempt_views(out@) == want.take(i as int),
    {
        let attempt = Attempt { forge: forges[i], url: repo.tarball_url(forges[i], branch) };
        let ghost before = attempt_views(out@);
        let ghost added = (attempt.forge, attempt.url@);
        out.push(attempt);
        assert(attempt_views(out@) =~= before.push(added));
        assert(want[i as int] == added);
    }
    assert(attempt_views(out@) =~= want);
    Ok(out)
}

/// The error of the first attempt, where it failed.
pub open spec fn first_error(outs: Seq<Fetched>) -> Seq<char> {
    if outs.len() > 0 && outs[0] is Failed {
        outs[0]->Failed_0@
    } else {
        Seq::empty()
    }
}

/// Whether these are the answers to the attempts up to the first that settles the matter.
pub open spec fn tried(outs: Seq<Fetched>, attempts: int) -> bool {
    &&& outs.len() <= attempts
    &&& forall|i: int| 0 <= i < outs.len() - 1 ==> (#[trigger] outs[i]) is Failed
    &&& outs.len() < attempts ==> outs.len() > 0 && outs.last() !is Failed
}

/// What a sync comes to, given the answers to its attempts.
pub open spec fn sync_result(outs: Seq<Fetched>) -> Result<SyncReport, Seq<char>> {
    if outs.len() > 0 && outs.last() is Unpacked {
        Ok(outs.last()->Unpacked_0)
    } else if outs.len() > 0 && outs.last() is Refused {
        Err(outs.last()->Refused_0@)
    } else {
        Err(first_error(outs))
    }
}

/// The hub after a sync: fetched, it remembers where and when.
pub open spec fn synced_hub(
    hub: HubParts,
    attempts: Seq<(Forge, Seq<char>)>,
    outs: Seq<Fetched>,
) -> HubParts {
    if outs.len() > 0 && outs.last() is Unpacked {
        HubParts {
            forge: Some(attempts[outs.len() - 1].0),
            last_synced: Some(outs.last()->Unpacked_1@),
            ..hub
        }
    } else {
        hub
    }
}

/// Whether `out` is an answer that `fetch` can give to an attempt at this place.
pub open spec fn answered<F: Fn(&Attempt) -> Fetched>(
    fetch: F,
    place: (Forge, Seq<char>),
    out: Fetched,
) -> bool {
    exists|a: &Attempt|
        (a.forge, a.url@) == place && #[trigger] call_ensures(fetch, (a,), out)
}

/// Whether `outs` are answers that `fetch` can give to these attempts.
pub open spec fn answers<F: Fn(&Attempt) -> Fetched>(
    fetch: F,
    attempts: Seq<(Forge, Seq<char>)>,
    outs: Seq<Fetched>,
) -> bool {
    forall|i: int| 0 <= i < outs.len() ==> answered(fetch, attempts[i], #[trigger] outs[i])
}

pub open spec fn report_result(r: Result<SyncReport, String>) -> Result<SyncReport, Seq<char>> {
    match r {
        Ok(report) => Ok(report),
        Err(e) => Err(e@),
    }
}

/// Whether a sync that was answered `outs` leaves the hub and the result that it should.
pub open spec fn sync_went<F: Fn(&Attempt) -> Fetched>(
    fetch: F,
    attempts: Seq<(Forge, Seq<char>)>,
    outs: Seq<Fetched>,
    before: HubParts,
    after: HubParts,
    r: Result<SyncReport, Seq<char>>,
) -> bool {
    &&& tried(outs, attempts.len() as int)
    &&& answers(fetch, attempts, outs)
    &&& after == synced_hub(before, attempts, outs)
    &&& r == sync_result(outs)
}

/// Fetch a hub and replace its cache with the result. `fetch` asks one place and unpacks what
/// comes back; `cached` says whether there is a place for the cache.
///
/// Of several attempts that all fail the first one's error is kept: it is the one the user most
/// likely meant, and a later candidate's is just "not that kind of host either".
pub fn sync_hub<F: Fn(&Attempt) -> Fetched>(hub: &mut Hub, cached: bool, fetch: F) -> (r: Result<
    SyncReport,
    String,
>)
    requires
        forall|a: &Attempt| #[trigger] call_requires(fetch, (a,)),
    ensures
        parsed_repo(old(hub)@.url) is Err ==> r is Err && r->Err_0@ == parsed_repo(
            old(hub)@.url,
        )->Err_0 && *final(hub) == *old(hub),
        parsed_repo(old(hub)@.url) is Ok && !cached ==> r is Err && r->Err_0@
            == "no home directory: cannot cache a hub"@ && *final(hub) == *old(hub),
        parsed_repo(old(hub)@.url) is Ok && cached ==> exists|outs: Seq<Fetched>| #[trigger]
            sync_went(
                fetch,
                hub_attempts(old(hub)@, parsed_repo(old(hub)@.url)->Ok_0),
                outs,
                old(hub)@,
                final(hub)@,
                report_result(r),
            ),
{
    let attempts = match sync_attempts(hub) {
        Ok(attempts) => attempts,
        Err(error) => {
            return Err(error);
        },
    };
    if !cached {
        return Err("no home directory: cannot cache a hub".to_string());
    }
    let ghost start = *hub;
    let ghost all = attempt_views(attempts@);
    let ghost mut outs: Seq<Fetched> = Seq::empty();
    let mut first = String::new();
    for i in 0..attempts.len()
        invariant
            *hub == start,
            start == *old(hub),
            parsed_repo(start@.url) is Ok,
            cached,
            all == attempt_views(attempts@),
            all == hub_attempts(start@, parsed_repo(start@.url)->Ok_0),
            forall|a: &Attempt| #[trigger] call_requires(fetch, (a,)),
            outs.len() == i,
            forall|k: int| 0 <= k < i ==> (#[trigger] outs[k]) is Failed,
            answers(fetch, all, outs),
            first@ == first_error(outs),
    {
        let attempt = &attempts[i];
        assert(all[i as int] == (attempt.forge, attempt.url@));
        let ghost before = outs;
        let out = fetch(attempt);
        proof {
            outs = before.push(out);
            assert(answers(fetch, all, outs)) by {
                assert forall|k: int| 0 <= k < outs.len() implies answered(
                    fetch,
                    all[k],
                    #[trigger] outs[k],
                ) by {
                    if k < i {
                        assert(outs[k] == before[k]);
                    } else {
                        assert(call_ensures(fetch, (attempt,), outs[k]));
                    }
                }
            }
        }
        match out {
            Fetched::Unpacked(report, when) => {
                hub.forge = Some(attempt.forge);
                hub.last_synced = Some(when);
                assert(outs.last() == Fetched::Unpacked(report, when));
                assert(hub@ =~= synced_hub(start@, all, outs));
                assert(sync_went(fetch, all, outs, start@, hub@, Ok(report)));
                return Ok(report);
            },
            Fetched::Refused(error) => {
                assert(outs.last() == Fetched::Refused(error));
                assert(sync_went(fetch, all, outs, start@, hub@, Err(error@)));
                return Err(error);
            },
            Fetched::Failed(error) => {
                if i == 0 {
                    first = error;
                }
            },
        }
    }
    assert(sync_went(fetch, all, outs, start@, hub@, Err(first@)));
    Err(first)
}

// ---------------------------------------------------------------------------
// The configured hubs
// ---------------------------------------------------------------------------

/// A finished sync: the hub as it now stands, and how it went.
pub struct SyncOutcome {
    pub hub: Hub,
    pub result: Result<SyncReport, String>,
}

/// What a multi-hub sync did.
#[derive(Debug, PartialEq, Eq)]
pub struct SyncSummary {
    pub synced: usize,
    pub items: usize,
    /// One `name: reason` per hub that failed.
    pub failures: Vec<String>,
}

/// The hub that a typed repo makes, by the name the user chose or the repo's own. The official
/// repo gets the official hub's behaviour however it is spelled.
pub open spec fn fresh_hub(url: Seq<char>, repo: Repo, name: Option<Seq<char>>) -> HubParts {
    HubParts {
        name: match name {
            Some(name) => name,
            None => if is_official(url) {
                OFFICIAL_HUB_NAME@
            } else {
                sanitized(repo.name())
            },
        },
        url,
        branch: repo.branch,
        enabled: true,
        last_synced: None,
        official: is_official(url),
        forge: repo.forge,
    }
}

/// The hub for a typed repo, not configured yet.
pub fn new_hub(repo: &str, name: Option<String>) -> (r: Result<Hub, String>)
    ensures
        match r {
            Ok(hub) => parsed_repo(repo@) is Ok && hub@ == fresh_hub(
                repo@,
                parsed_repo(repo@)->Ok_0,
                opt_text(name),
            ),
            Err(e) => parsed_repo(repo@) == Err::<Repo, _>(e@),
        },
{
    let parsed = match parse_repo(repo) {
        Ok(parsed) => parsed,
        Err(error) => {
            return Err(error);
        },
    };
    let official = repo_is_official(repo);
    let hub_name = match name {
        Some(name) => name,
        None => if official {
            OFFICIAL_HUB_NAME.to_string()
        } else {
            parsed.default_hub_name()
        },
    };
    let hub = Hub {
        name: hub_name,
        url: repo.to_string(),
        branch: clone_option(&parsed.branch),
        enabled: true,
        last_synced: None,
        official,
        forge: parsed.forge,
    };
    assert(hub@ =~= fresh_hub(repo@, parsed@, opt_text(name)));
    Ok(hub)
}

/// Why a typed repo is not even tried, if it is not.
pub open spec fn add_error(hubs: Seq<Hub>, url: Seq<char>, name: Option<Seq<char>>) -> Option<
    Seq<char>,
> {
    match parsed_repo(url) {
        Err(e) => Some(e),
        Ok(repo) => add_refusal(hubs, fresh_hub(url, repo, name).name),
    }
}

/// Whether adding a repo whose sync ended in `out` leaves what it should: fetched, the hub as
/// it came back is the last one configured; otherwise nothing has changed.
pub open spec fn add_went(
    before: HubConfig,
    after: HubConfig,
    fresh: HubParts,
    out: SyncOutcome,
    r: Result<(Hub, SyncReport), String>,
) -> bool {
    match out.result {
        Ok(report) => {
            &&& r == Ok::<(Hub, SyncReport), String>((out.hub, report))
            &&& after.hubs@ == before.hubs@.push(out.hub)
            &&& after.auto_sync == before.auto_sync
            &&& after.official_removed == (before.official_removed && !fresh.official)
        },
        Err(e) => {
            &&& r is Err
            &&& r->Err_0@ == "hub '"@ + fresh.name + "' not added: "@ + e@
            &&& after == before
        },
    }
}

/// Add `repo` to `config` and fetch it with `sync`, giving back the hub as configured and what
/// it holds. A hub that will not fetch is not added, and leaves the configuration as it was.
pub fn add_and_sync<F: FnOnce(Hub) -> SyncOutcome>(
    config: &mut HubConfig,
    repo: &str,
    name: Option<String>,
    sync: F,
) -> (r: Result<(Hub, SyncReport), String>)
    requires
        forall|h: Hub| #[trigger] call_requires(sync, (h,)),
    ensures
        r is Err ==> *final(config) == *old(config),
        match add_error(old(config).hubs@, repo@, opt_text(name)) {
            Some(e) => r is Err && r->Err_0@ == e && *final(config) == *old(config),
            None => exists|h: Hub, out: SyncOutcome|
                h@ == fresh_hub(repo@, parsed_repo(repo@)->Ok_0, opt_text(name))
                    && #[trigger] call_ensures(sync, (h,), out) && add_went(
                    *old(config),
                    *final(config),
                    h@,
                    out,
                    r,
                ),
        },
{
    let hub = match new_hub(repo, name) {
        Ok(hub) => hub,
        Err(error) => {
            return Err(error);
        },
    };
    let ghost before = *config;
    if let Some(error) = config.refusal(hub.name.as_str()) {
        return Err(error);
    }
    let fresh_name = hub.name.clone();
    let official: bool = hub.official;
    let ghost fresh = hub;
    let out = sync(hub);
    assert(call_ensures(sync, (fresh,), out));
    let ghost all = out;
    match out.result {
        Ok(report) => {
            let synced = out.hub;
            config.hubs.push(synced.clone());
            if official {
                config.official_removed = false;
            }
            assert(add_went(
                before,
                *config,
                fresh@,
                all,
                Ok::<(Hub, SyncReport), String>((synced, report)),
            ));
            Ok((synced, report))
        },
        Err(error) => {
            let message = "hub '".to_string().concat(fresh_name.as_str()).concat(
                "' not added: ",
            ).concat(error.as_str());
            assert(add_went(
                before,
                *config,
                fresh@,
                all,
                Err::<(Hub, SyncReport), String>(message),
            ));
            Err(message)
        },
    }
}

/// The state of a multi-hub sync.
#[verifier::ext_equal]
pub struct SyncProgress {
    pub hubs: Seq<Hub>,
    pub synced: int,
    pub items: int,
    pub failures: Seq<Seq<char>>,
}

impl SyncProgress {
    /// The state after the hub of this name was synced with this outcome; a name that no hub
    /// has is passed over.
    pub open spec fn step(self, target: Seq<char>, out: SyncOutcome) -> SyncProgress {
        if !has_hub(self.hubs, target) {
            self
        } else {
            match out.result {
                Ok(report) => SyncProgress {
                    hubs: self.hubs.update(hub_index(self.hubs, target, 0), out.hub),
                    synced: self.synced + 1,
                    items: capped(
                        self.items + capped(report.schemas + report.filters + report.searches),
                    ),
                    ..self
                },
                Err(e) => SyncProgress {
                    failures: self.failures.push(target + ": "@ + e@),
                    ..self
                },
            }
        }
    }

    pub open spec fn steps(
        self,
        targets: Seq<Seq<char>>,
        outs: Seq<SyncOutcome>,
        n: int,
    ) -> SyncProgress
        decreases n,
    {
        if n <= 0 {
            self
        } else {
            self.steps(targets, outs, n - 1).step(targets[n - 1], outs[n - 1])
        }
    }
}

/// The hubs to sync: the one named, or all of them in order.
pub open spec fn sync_targets(hubs: Seq<Hub>, name: Option<Seq<char>>) -> Seq<Seq<char>> {
    match name {
        Some(name) => seq![name],
        None => hubs.map_values(|h: Hub| h.name@),
    }
}

/// Why nothing is synced, if nothing is.
pub open spec fn sync_refusal(hubs: Seq<Hub>, name: Option<Seq<char>>) -> Option<Seq<char>> {
    match name {
        Some(name) => if has_hub(hubs, name) {
            None
        } else {
            Some("no hub '"@ + name + "'"@)
        },
        None => if hubs.len() == 0 {
            Some("no hubs configured — try: add acme/log-scouter-hub"@)
        } else {
            None
        },
    }
}

/// Whether `outs` are outcomes that `sync` can give for the targets in turn.
pub open spec fn outcomes<F: Fn(Hub) -> SyncOutcome>(
    sync: F,
    start: SyncProgress,
    targets: Seq<Seq<char>>,
    outs: Seq<SyncOutcome>,
) -> bool {
    &&& outs.len() == targets.len()
    &&& forall|i: int|
        #![trigger outs[i]]
        0 <= i < outs.len() && has_hub(start.steps(targets, outs, i).hubs, targets[i])
            ==> call_ensures(
            sync,
            (start.steps(targets, outs, i).hubs[hub_index(
                start.steps(targets, outs, i).hubs,
                targets[i],
                0,
            )],),
            outs[i],
        )
}

pub open spec fn sync_start(hubs: Seq<Hub>) -> SyncProgress {
    SyncProgress { hubs, synced: 0, items: 0, failures: Seq::empty() }
}

proof fn lemma_steps_prefix(
    start: SyncProgress,
    targets: Seq<Seq<char>>,
    outs: Seq<SyncOutcome>,
    out: SyncOutcome,
    n: int,
)
    requires
        0 <= n <= outs.len(),
    ensures
        start.steps(targets, outs.push(out), n) == start.steps(targets, outs, n),
    decreases n,
{
    if n > 0 {
        lemma_steps_prefix(start, targets, outs, out, n - 1);
    }
}

/// Sync one hub, or every configured hub when `name` is `None`, with `sync`. A hub that fails
/// is reported rather than fatal: one unreachable hub must not stop the others.
pub fn sync_named<F: Fn(Hub) -> SyncOutcome>(
    config: &mut HubConfig,
    name: Option<&str>,
    sync: F,
) -> (r: Result<SyncSummary, String>)
    requires
        forall|h: Hub| #[trigger] call_requires(sync, (h,)),
    ensures
        match sync_refusal(old(config).hubs@, opt_str(name)) {
            Some(e) => r is Err && r->Err_0@ == e && *final(config) == *old(config),
            None => r is Ok && exists|outs: Seq<SyncOutcome>| #[trigger]
                outcomes(
                    sync,
                    sync_start(old(config).hubs@),
                    sync_targets(old(config).hubs@, opt_str(name)),
                    outs,
                ) && ({
                    let done = sync_start(old(config).hubs@).steps(
                        sync_targets(old(config).hubs@, opt_str(name)),
                        outs,
                        outs.len() as int,
                    );
                    &&& final(config).hubs@ == done.hubs
                    &&& final(config).auto_sync == old(config).auto_sync
                    &&& final(config).official_removed == old(config).official_removed
                    &&& r->Ok_0.synced == done.synced
                    &&& r->Ok_0.items == done.items
                    &&& texts(r->Ok_0.failures@) == done.failures
                }),
        },
{
    let ghost hubs = config.hubs@;
    let ghost start = sync_start(hubs);
    let ghost targets = sync_targets(hubs, opt_str(name));
    let mut names: Vec<String> = Vec::new();
    match name {
        Some(name) => {
            if config.get(name).is_none() {
                return Err("no hub '".to_string().concat(name).concat("'"));
            }
            names.push(name.to_string());
        },
        None => {
            for i in 0..config.hubs.len()
                invariant
                    config.hubs@ == hubs,
                    texts(names@) == hubs.map_values(|h: Hub| h.name@).take(i as int),
            {
                let ghost before = texts(names@);
                names.push(config.hubs[i].name.clone());
                assert(texts(names@) =~= before.push(hubs[i as int].name@));
            }
            assert(hubs.map_values(|h: Hub| h.name@).take(hubs.len() as int) =~= hubs.map_values(
                |h: Hub| h.name@,
            ));
        },
    }
    assert(texts(names@) =~= targets);
    if names.len() == 0 {
        return Err("no hubs configured — try: add acme/log-scouter-hub".to_string());
    }
    let ghost mut outs: Seq<SyncOutcome> = Seq::empty();
    let mut synced: usize = 0;
    let mut items: usize = 0;
    let mut failures: Vec<String> = Vec::new();
    assert(texts(failures@) =~= Seq::<Seq<char>>::empty());
    let ghost spare: SyncOutcome = arbitrary();
    for i in 0..names.len()
        invariant
            texts(names@) == targets,
            start == sync_start(hubs),
            forall|h: Hub| #[trigger] call_requires(sync, (h,)),
            outs.len() == i,
            outcomes(sync, start, targets.take(i as int), outs),
            start.steps(targets, outs, i as int).hubs == config.hubs@,
            start.steps(targets, outs, i as int).synced == synced,
            start.steps(targets, outs, i as int).items == items,
            start.steps(targets, outs, i as int).failures == texts(failures@),
            synced <= i,
            config.auto_sync == old(config).auto_sync,
            config.official_removed == old(config).official_removed,
            forall|k: int|
                #![trigger outs[k]]
                0 <= k < i && has_hub(start.steps(targets, outs, k).hubs, targets[k])
                    ==> call_ensures(
                    sync,
                    (start.steps(targets, outs, k).hubs[hub_index(
                        start.steps(targets, outs, k).hubs,
                        targets[k],
                        0,
                    )],),
                    outs[k],
                ),
    {
        let target = names[i].as_str();
        assert(targets[i as int] == target@);
        let ghost before_outs = outs;
        let ghost before = start.steps(targets, outs, i as int);
        let ghost mut answer: SyncOutcome = spare;
        let held: Option<Hub> = match config.get(target) {
            Some(hub) => Some(hub.clone()),
            None => None,
        };
        if let Some(hub) = held {
            let ghost asked = hub;
            let out = sync(hub);
            proof {
                answer = out;
                assert(call_ensures(sync, (asked,), answer));
            }
            match out.result {
                Ok(report) => {
                    if let Some(slot) = config.get_mut(target) {
                        *slot = out.hub;
                    }
                    synced = synced + 1;
                    items = items.saturating_add(report.total());
                },
                Err(error) => {
                    let line = target.to_string().concat(": ").concat(error.as_str());
                    let ghost so_far = texts(failures@);
                    let ghost added = line@;
                    failures.push(line);
                    assert(texts(failures@) =~= so_far.push(added));
                },
            }
        }
        proof {
            outs = before_outs.push(answer);
            assert forall|k: int| 0 <= k <= i implies #[trigger] start.steps(targets, outs, k)
                == start.steps(targets, before_outs, k) by {
                lemma_steps_prefix(start, targets, before_outs, answer, k);
            }
            let after = start.steps(targets, outs, i + 1);
            assert(start.steps(targets, outs, i as int) == before);
            assert(after == before.step(targets[i as int], answer));
            assert forall|k: int|
                #![trigger outs[k]]
                0 <= k < i + 1 && has_hub(
                    start.steps(targets, outs, k).hubs,
                    targets[k],
                ) implies call_ensures(
                sync,
                (start.steps(targets, outs, k).hubs[hub_index(
                    start.steps(targets, outs, k).hubs,
                    targets[k],
                    0,
                )],),
                outs[k],
            ) by {
                if k < i {
                    assert(outs[k] == before_outs[k]);
                    assert(start.steps(targets, outs, k) == start.steps(targets, before_outs, k));
                }
            }
            assert(outcomes(sync, start, targets.take(i + 1), outs)) by {
                lemma_outcomes_of_prefix(sync, start, targets, outs);
            }
        }
    }
    proof {
        assert(targets.take(targets.len() as int) =~= targets);
    }
    Ok(SyncSummary { synced, items, failures })
}

proof fn lemma_outcomes_of_prefix<F: Fn(Hub) -> SyncOutcome>(
    sync: F,
    start: SyncProgress,
    targets: Seq<Seq<char>>,
    outs: Seq<SyncOutcome>,
)
    requires
        outs.len() <= targets.len(),
        forall|k: int|
            #![trigger outs[k]]
            0 <= k < outs.len() && has_hub(start.steps(targets, outs, k).hubs, targets[k])
                ==> call_ensures(
                sync,
                (start.steps(targets, outs, k).hubs[hub_index(
                    start.steps(targets, outs, k).hubs,
                    targets[k],
                    0,
                )],),
                outs[k],
            ),
    ensures
        outcomes(sync, start, targets.take(outs.len() as int), outs),
{
    let part = targets.take(outs.len() as int);
    assert forall|k: int| 0 <= k <= outs.len() implies #[trigger] start.steps(part, outs, k)
        == start.steps(targets, outs, k) by {
        lemma_steps_of_prefix(start, targets, outs, k);
    }
    assert forall|i: int|
        #![trigger outs[i]]
        0 <= i < outs.len() && has_hub(start.steps(part, outs, i).hubs, part[i]) implies call_ensures(
        sync,
        (start.steps(part, outs, i).hubs[hub_index(start.steps(part, outs, i).hubs, part[i], 0)],),
        outs[i],
    ) by {
        assert(start.steps(part, outs, i) == start.steps(targets, outs, i));
    }
}

proof fn lemma_steps_of_prefix(
    start: SyncProgress,
    targets: Seq<Seq<char>>,
    outs: Seq<SyncOutcome>,
    k: int,
)
    requires
        0 <= k <= outs.len() <= targets.len(),
    ensures
        start.steps(targets.take(outs.len() as int), outs, k) == start.steps(targets, outs, k),
    decreases k,
{
    if k > 0 {
        lemma_steps_of_prefix(start, targets, outs, k - 1);
    }
}

// ---------------------------------------------------------------------------
// Laws
// ---------------------------------------------------------------------------

/// What is unpacked lands in the cache: in a known folder of it, as a file whose name neither
/// separates directories nor climbs out of one.
pub proof fn entries_cannot_leave_the_cache(cache: Seq<char>, path: Seq<char>)
    requires
        cache.len() > 0,
        cache.last() != '/',
        entry_target(path) is Some,
    ensures
        ({
            let (folder, file) = entry_target(path)->0;
            &&& is_hub_folder(folder)
            &&& joined(joined(cache, folder), file) == cache + "/"@ + folder + "/"@ + file
            &&& !file.contains('/')
            &&& find(file, "\\"@) is None
            &&& find(file, ".."@) is None
        }),
{
    reveal_strlit("/");
    reveal_strlit("schemas");
    reveal_strlit("filters");
    reveal_strlit("searches");
    let (folder, file) = entry_target(path)->0;
    assert(folder.len() > 0 && folder[0] != '/' && folder.last() != '/');
    if file.contains('/') {
        let i = choose|i: int| 0 <= i < file.len() && file[i] == '/';
        lemma_found(file, i);
    }
    if file.len() > 0 {
        assert(file[0] != '/') by {
            if file[0] == '/' {
                assert(file.contains('/'));
            }
        }
    }
    assert(joined(cache, folder) =~= cache + "/"@ + folder);
    assert(joined(joined(cache, folder), file) =~= cache + "/"@ + folder + "/"@ + file);
}

proof fn lemma_found(file: Seq<char>, i: int)
    requires
        0 <= i < file.len(),
        file[i] == '/',
    ensures
        find(file, "/"@) is Some,
{
    lemma_found_from(file, i, 0);
}

proof fn lemma_found_from(file: Seq<char>, i: int, from: int)
    requires
        0 <= from <= i < file.len(),
        file[i] == '/',
    ensures
        crate::text::find_from(file, "/"@, from) is Some,
    decreases i - from,
{
    reveal_strlit("/");
    if file.subrange(from, from + 1) != "/"@ {
        if from == i {
            assert(file.subrange(from, from + 1) =~= "/"@);
        } else {
            lemma_found_from(file, i, from + 1);
        }
    }
}

/// A token goes to the forge it was issued for, or is the one set by hand for hubs; no two
/// forges read the same variable.
pub proof fn tokens_stay_with_their_forge(a: Forge, b: Forge)
    requires
        a != b,
    ensures
        token_var(a) != token_var(b),
{
    reveal_strlit("GITHUB_TOKEN");
    reveal_strlit("GITLAB_TOKEN");
    reveal_strlit("GITEA_TOKEN");
    assert("GITHUB_TOKEN"@[3] == 'H');
    assert("GITLAB_TOKEN"@[3] == 'L');
    assert("GITEA_TOKEN"@[3] == 'E');
}

proof fn lemma_three_parts(top: Seq<char>, folder: Seq<char>, file: Seq<char>)
    requires
        top.len() > 0 && folder.len() > 0 && file.len() > 0,
        !top.contains('/') && !folder.contains('/') && !file.contains('/'),
        top != "."@ && folder != "."@ && file != "."@,
    ensures
        components(top + "/"@ + folder + "/"@ + file) == seq![top, folder, file],
{
    reveal_strlit("/");
    assert("/"@ =~= seq!['/']);
    let path = top + "/"@ + folder + "/"@ + file;
    let rest = folder + seq!['/'] + file;
    assert(path =~= top + seq!['/'] + rest);
    a_separator_parts_a_text(top, '/', rest);
    a_separator_parts_a_text(folder, '/', file);
    a_separator_parts_a_text(file, '/', file);
    let parts = split(path, '/');
    assert(parts =~= seq![top, folder, file]);
    assert(path[0] == top[0]);
    assert(top.contains(top[0]));
    assert forall|i: int| 0 <= i < parts.len() implies is_step()(#[trigger] parts[i]) by {
        assert(i == 0 || i == 1 || i == 2);
    }
    lemma_keep_all(parts, is_step());
    assert(components(path) =~= parts);
}

/// Under the one directory around everything, a visible JSON file of `schemas`, `filters` or
/// `searches` is unpacked into the folder of that name; a file of any other folder is not.
pub proof fn a_published_file_lands_in_its_folder(
    top: Seq<char>,
    folder: Seq<char>,
    file: Seq<char>,
)
    requires
        top.len() > 0 && folder.len() > 0 && file.len() > 0,
        !top.contains('/') && !folder.contains('/') && !file.contains('/'),
        top != "."@ && folder != "."@ && file != "."@,
    ensures
        ({
            let target = entry_target(top + "/"@ + folder + "/"@ + file);
            &&& target is Some ==> target->0 == (folder, file)
            &&& target is Some <==> (folder == "schemas"@ || folder == "filters"@ || folder
                == "searches"@) && ends_with(lowercase_of(file), ".json"@) && file[0] != '.'
                && !file.contains('\\') && forall|i: int|
                0 <= i < file.len() - 1 ==> !(#[trigger] file[i] == '.' && file[i + 1] == '.')
        }),
{
    reveal_strlit("/");
    reveal_strlit(".");
    reveal_strlit("\\");
    reveal_strlit("..");
    assert("/"@ =~= seq!['/']);
    assert("\\"@ =~= seq!['\\']);
    lemma_three_parts(top, folder, file);
    a_separator_parts_a_text(file, '/', file);
    if starts_with(file, "."@) {
        assert(file.take(1)[0] == file[0]);
    }
    if file[0] == '.' {
        assert(file.take(1) =~= "."@);
    }
    if !file.contains('\\') {
        a_separator_parts_a_text(file, '\\', file);
    } else {
        let k = choose|k: int| 0 <= k < file.len() && file[k] == '\\';
        the_first_place_is_found(file, "\\"@);
        assert(reads_at(file, "\\"@, k)) by {
            assert forall|i: int| 0 <= i < "\\"@.len() implies file[k + i] == #[trigger] "\\"@[i]
                by {
                assert(i == 0);
            }
        }
    }
    the_first_place_is_found(file, ".."@);
    if let Some(k) = find(file, ".."@) {
        assert(file[k + 0] == ".."@[0] && file[k + 1] == ".."@[1]);
        assert(file[k] == '.' && file[k + 1] == '.');
    }
    if exists|i: int| 0 <= i < file.len() - 1 && #[trigger] file[i] == '.' && file[i + 1] == '.' {
        let k = choose|i: int|
            0 <= i < file.len() - 1 && #[trigger] file[i] == '.' && file[i + 1] == '.';
        assert(reads_at(file, ".."@, k)) by {
            assert forall|i: int| 0 <= i < ".."@.len() implies file[k + i] == #[trigger] ".."@[i]
                by {
                assert(i == 0 || i == 1);
            }
        }
    }
}

/// A report counts every file once.
pub proof fn every_file_is_counted_once(report: SyncReport, files: Seq<HubFileParts>)
    requires
        counts(report, files),
    ensures
        report.schemas + report.filters + report.searches == files.len(),
        report.schemas == files.filter(|f: HubFileParts| f.0 == "schemas"@).len(),
        report.filters == files.filter(|f: HubFileParts| f.0 == "filters"@).len(),
{
    lemma_counts_total(report, files);
    lemma_counted(files);
}

proof fn lemma_counted(files: Seq<HubFileParts>)
    ensures
        count(files, in_folder("schemas"@)) == files.filter(
            |f: HubFileParts| f.0 == "schemas"@,
        ).len(),
        count(files, in_folder("filters"@)) == files.filter(
            |f: HubFileParts| f.0 == "filters"@,
        ).len(),
    decreases files.len(),
{
    reveal(Seq::filter);
    if files.len() > 0 {
        lemma_counted(files.drop_last());
    }
}

/// A forge's own token is what counts where it is set at all, the shared one where it is not,
/// and a blank one is none; what is sent ends in the token.
pub proof fn a_forge_is_sent_its_own_token_first(
    forge: Forge,
    own: Seq<char>,
    shared: Option<Seq<char>>,
)
    ensures
        token_header(forge, Some(own), shared) == token_header(forge, None, Some(own)),
        token_header(forge, None, None) is None,
        token_header(forge, Some(own), shared) is None <==> is_blank(own),
        token_header(forge, Some(own), shared) is Some ==> ends_with(
            (token_header(forge, Some(own), shared)->0).1,
            own,
        ),
{
    if !is_blank(own) {
        let sent = (token_header(forge, Some(own), shared)->0).1;
        assert(sent.skip(sent.len() - own.len()) =~= own);
    }
}

/// An answer is taken for a tarball exactly where its status says success, and a tarball exactly
/// where it has no more than 32 mebibytes.
pub proof fn only_a_successful_answer_is_taken(
    url: Seq<char>,
    status: u16,
    shown: Seq<char>,
    length: u64,
)
    ensures
        status_refusal(url, status, shown) is None <==> 200 <= status <= 299,
        size_refusal(length) is None <==> length <= 32 * 1024 * 1024,
{
}

/// A hub that knows its forge is fetched from there and nowhere else, and its own branch wins
/// over the one its URL names.
pub proof fn a_hub_is_fetched_from_where_it_was(hub: HubParts, repo: Repo, forge: Forge)
    requires
        hub.forge == Some(forge),
    ensures
        hub_attempts(hub, repo).len() == 1,
        hub_attempts(hub, repo)[0].0 == forge,
        hub.branch is Some ==> hub_attempts(hub, repo)[0].1 == repo.tarball(forge, hub.branch),
        hub.branch is None ==> hub_attempts(hub, repo)[0].1 == repo.tarball(forge, repo.branch),
{
}

/// A sync that fetched something remembers where and when; one that did not leaves the hub as it
/// was, and of several failures reports the first.
pub proof fn a_failed_sync_changes_nothing(
    hub: HubParts,
    attempts: Seq<(Forge, Seq<char>)>,
    outs: Seq<Fetched>,
)
    requires
        0 < outs.len() <= attempts.len(),
    ensures
        sync_result(outs) is Ok <==> outs.last() is Unpacked,
        sync_result(outs) is Err ==> synced_hub(hub, attempts, outs) == hub,
        sync_result(outs) is Ok ==> synced_hub(hub, attempts, outs) == (HubParts {
            forge: Some(attempts[outs.len() - 1].0),
            last_synced: Some(outs.last()->Unpacked_1@),
            ..hub
        }),
        (forall|i: int| 0 <= i < outs.len() ==> (#[trigger] outs[i]) is Failed) ==> sync_result(
            outs,
        ) == Err::<SyncReport, Seq<char>>(outs[0]->Failed_0@),
{
}

proof fn lemma_step_keeps_names(p: SyncProgress, target: Seq<char>, out: SyncOutcome)
    requires
        has_hub(p.hubs, target),
        out.hub.name@ == target,
    ensures
        p.step(target, out).hubs.len() == p.hubs.len(),
        forall|i: int|
            0 <= i < p.hubs.len() ==> (#[trigger] p.step(target, out).hubs[i]).name@
                == p.hubs[i].name@,
{
    lemma_hub_index(p.hubs, target, 0);
}

proof fn lemma_same_names(a: Seq<Hub>, b: Seq<Hub>, name: Seq<char>, i: int)
    requires
        a.len() == b.len(),
        forall|k: int| 0 <= k < a.len() ==> (#[trigger] b[k]).name@ == a[k].name@,
        0 <= i <= a.len(),
    ensures
        hub_index(a, name, i) == hub_index(b, name, i),
    decreases a.len() - i,
{
    if i < a.len() {
        assert(b[i].name@ == a[i].name@);
        if a[i].name@ != name {
            lemma_same_names(a, b, name, i + 1);
        }
    }
}

/// Of the hubs that are to be synced each one either is or is among the failures, and none of
/// them is lost from the list or renamed on the way.
pub proof fn every_hub_is_synced_or_failed(
    start: SyncProgress,
    targets: Seq<Seq<char>>,
    outs: Seq<SyncOutcome>,
    n: int,
)
    requires
        0 <= n <= targets.len(),
        outs.len() == targets.len(),
        forall|i: int| 0 <= i < targets.len() ==> has_hub(start.hubs, #[trigger] targets[i]),
        forall|i: int| 0 <= i < targets.len() ==> (#[trigger] outs[i]).hub.name@ == targets[i],
    ensures
        ({
            let done = start.steps(targets, outs, n);
            &&& done.synced - start.synced + done.failures.len() - start.failures.len() == n
            &&& done.synced - start.synced == outs.take(n).filter(
                |o: SyncOutcome| o.result is Ok,
            ).len()
            &&& done.hubs.len() == start.hubs.len()
            &&& forall|i: int|
                0 <= i < start.hubs.len() ==> (#[trigger] done.hubs[i]).name@ == start.hubs[i].name@
        }),
    decreases n,
{
    reveal(Seq::filter);
    if n > 0 {
        every_hub_is_synced_or_failed(start, targets, outs, n - 1);
        let before = start.steps(targets, outs, n - 1);
        lemma_same_names(start.hubs, before.hubs, targets[n - 1], 0);
        assert(has_hub(start.hubs, targets[n - 1]));
        assert(outs[n - 1].hub.name@ == targets[n - 1]);
        lemma_step_keeps_names(before, targets[n - 1], outs[n - 1]);
        assert(outs.take(n).drop_last() =~= outs.take(n - 1));
        assert(outs.take(n).last() == outs[n - 1]);
    }
}

} // verus!
