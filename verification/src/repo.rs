//! Git repositories as users write them down.

use crate::filters::same_letter;
use crate::lists::{keep, lemma_keep_all};
use crate::packs::{is_full, sanitize_file_component, sanitized};
use crate::text::{
    a_separator_parts_a_text, a_text_is_cut_at_the_first_separator, chars_of, ends_with, find,
    is_char, is_space, join, join_strs, lemma_span_end_is, lemma_span_is, opt_str, opt_text,
    reads_at, same_text, space, split, split_once, starts_with, strip_suffix, strs, text_contains,
    text_ends_with, text_split, text_split_once, text_starts_with, text_strip_prefix,
    text_strip_suffix, the_first_place_is_found, trim, trim_end_by, trim_end_char, trim_start_by,
    trim_start_char, trimmed,
};
use vstd::prelude::*;

verus! {

/// The kind of git host a hub lives on. Each one serves repo tarballs from a different URL and
/// wants its token in a different header.
#[derive(Debug, Clone, Copy, PartialEq, Eq, Structural)]
pub enum Forge {
    GitHub,
    GitLab,
    Gitea,
}

pub open spec fn forge_label(forge: Forge) -> Seq<char> {
    match forge {
        Forge::GitHub => "github"@,
        Forge::GitLab => "gitlab"@,
        Forge::Gitea => "gitea"@,
    }
}

impl Forge {
    pub fn label(self) -> (r: &'static str)
        ensures
            r@ == forge_label(self),
    {
        match self {
            Forge::GitHub => "github",
            Forge::GitLab => "gitlab",
            Forge::Gitea => "gitea",
        }
    }
}

pub const GITHUB_HOST: &'static str = "github.com";

/// A repo on some git host, parsed out of whatever the user typed.
#[derive(Debug, PartialEq, Eq)]
pub struct RepoRef {
    /// `https` unless the user explicitly asked for `http`.
    pub scheme: String,
    pub host: String,
    /// Everything between the host and the branch, `.git` stripped.
    pub path: String,
    /// Only set when the URL itself named one.
    pub branch: Option<String>,
    /// The forge, when the URL settles it. `None` means "ask the host".
    pub forge: Option<Forge>,
}

/// What a repo reference is.
#[verifier::ext_equal]
pub struct Repo {
    pub scheme: Seq<char>,
    pub host: Seq<char>,
    pub path: Seq<char>,
    pub branch: Option<Seq<char>>,
    pub forge: Option<Forge>,
}

impl View for RepoRef {
    type V = Repo;

    open spec fn view(&self) -> Repo {
        Repo {
            scheme: self.scheme@,
            host: self.host@,
            path: self.path@,
            branch: opt_text(self.branch),
            forge: self.forge,
        }
    }
}

// ---------------------------------------------------------------------------
// Where a repo is
// ---------------------------------------------------------------------------

/// What stands behind the first `@`, or all of it.
pub open spec fn behind_at(s: Seq<char>) -> Seq<char> {
    match split_once(s, "@"@) {
        Some(parts) => parts.1,
        None => s,
    }
}

/// What stands before the first `c`, or all of it.
pub open spec fn before_text(s: Seq<char>, c: Seq<char>) -> Seq<char> {
    match split_once(s, c) {
        Some(parts) => parts.0,
        None => s,
    }
}

/// Scheme, host and remaining path.
pub type Location = (Seq<char>, Seq<char>, Seq<char>);

/// Whether a text is `host:path`, as SSH writes it, rather than a URL.
pub open spec fn is_scp_form(s: Seq<char>) -> bool {
    match split_once(s, ":"@) {
        Some(parts) => find(parts.0, "/"@) is None && !starts_with(parts.1, "//"@),
        None => false,
    }
}

/// The location behind `https://` or `http://`.
pub open spec fn url_location(scheme: Seq<char>, rest: Seq<char>) -> Location {
    match split_once(rest, "/"@) {
        Some(parts) => (scheme, behind_at(parts.0), parts.1),
        None => (scheme, behind_at(rest), Seq::empty()),
    }
}

/// Whether a text opens with a host name: a first part with a dot in it.
pub open spec fn opens_with_host(s: Seq<char>) -> bool {
    match split_once(s, "/"@) {
        Some(parts) => find(parts.0, "."@) is Some && !ends_with(parts.0, ".git"@),
        None => false,
    }
}

/// The scheme, host and path that a repo is written with; an SSH form is fetched over HTTPS,
/// and a bare `owner/repo` is on GitHub. None for an SSH URL without a path.
pub open spec fn location(s: Seq<char>) -> Option<Location> {
    if starts_with(s, "ssh://"@) {
        match split_once(behind_at(s.skip("ssh://"@.len() as int)), "/"@) {
            Some(parts) => Some(("https"@, before_text(parts.0, ":"@), parts.1)),
            None => None,
        }
    } else if is_scp_form(s) {
        let parts = split_once(s, ":"@)->0;
        Some(("https"@, behind_at(parts.0), parts.1))
    } else if starts_with(s, "https://"@) {
        Some(url_location("https"@, s.skip("https://"@.len() as int)))
    } else if starts_with(s, "http://"@) {
        Some(url_location("http"@, s.skip("http://"@.len() as int)))
    } else if opens_with_host(s) {
        let parts = split_once(s, "/"@)->0;
        Some(("https"@, parts.0, parts.1))
    } else {
        Some(("https"@, GITHUB_HOST@, s))
    }
}

/// The parts of a repo path: slashes around it and a `.git` behind it do not count.
pub open spec fn path_parts(rest: Seq<char>) -> Seq<Seq<char>> {
    let bare = trim_end_by(trim_start_by(rest, is_char('/')), is_char('/'));
    keep(split(without_git(bare), '/'), is_full())
}

pub open spec fn without_git(s: Seq<char>) -> Seq<char> {
    match strip_suffix(s, ".git"@) {
        Some(head) => head,
        None => s,
    }
}

/// The first part from `i` on that starts a browser's branch path; the length where none does.
pub open spec fn tree_index(parts: Seq<Seq<char>>, i: int) -> int
    decreases parts.len() - i,
{
    if i >= parts.len() || parts[i] == "-"@ || parts[i] == "tree"@ {
        i
    } else {
        tree_index(parts, i + 1)
    }
}

/// The part behind the first `tree` from `i` on.
pub open spec fn branch_from(parts: Seq<Seq<char>>, i: int) -> Option<Seq<char>>
    decreases parts.len() - i,
{
    if i >= parts.len() {
        None
    } else if parts[i] == "tree"@ {
        if i + 1 < parts.len() {
            Some(parts[i + 1])
        } else {
            None
        }
    } else {
        branch_from(parts, i + 1)
    }
}

pub open spec fn not_a_repo(text: Seq<char>) -> Seq<char> {
    "not a repo: '"@ + text + "' (expected owner/repo)"@
}

/// The repo that a text names, or why it names none.
pub open spec fn parsed_repo(input: Seq<char>) -> Result<Repo, Seq<char>> {
    let text = trimmed(input);
    if text.len() == 0 {
        Err("a hub needs a repo: owner/repo or a repo URL"@)
    } else {
        match location(text) {
            None => Err("not a repo: '"@ + text + "'"@),
            Some((scheme, host, rest)) => {
                let parts = path_parts(rest);
                let at = tree_index(parts, 0);
                let branch = branch_from(parts, at);
                if at < parts.len() && branch is None {
                    Err(not_a_repo(text))
                } else if at < 2 {
                    Err(not_a_repo(text))
                } else {
                    Ok(
                        Repo {
                            scheme,
                            host,
                            path: without_git(join(parts.take(at), "/"@)),
                            branch: if at < parts.len() {
                                branch
                            } else {
                                None
                            },
                            forge: if host == GITHUB_HOST@ {
                                Some(Forge::GitHub)
                            } else {
                                None
                            },
                        },
                    )
                }
            },
        }
    }
}

fn text_behind_at<'a>(s: &'a str) -> (r: &'a str)
    ensures
        r@ == behind_at(s@),
{
    match text_split_once(s, "@") {
        Some((_, rest)) => rest,
        None => s,
    }
}

fn text_before<'a>(s: &'a str, sep: &str) -> (r: &'a str)
    ensures
        r@ == before_text(s@, sep@),
{
    match text_split_once(s, sep) {
        Some((head, _)) => head,
        None => s,
    }
}

fn text_without_git<'a>(s: &'a str) -> (r: &'a str)
    ensures
        r@ == without_git(s@),
{
    match text_strip_suffix(s, ".git") {
        Some(head) => head,
        None => s,
    }
}

pub open spec fn location_view(r: Option<(&'static str, String, &str)>) -> Option<Location> {
    match r {
        Some((scheme, host, path)) => Some((scheme@, host@, path@)),
        None => None,
    }
}

fn url_place<'a>(scheme: &'static str, rest: &'a str) -> (r: (&'static str, String, &'a str))
    ensures
        (r.0@, r.1@, r.2@) == url_location(scheme@, rest@),
{
    match text_split_once(rest, "/") {
        Some((host, path)) => (scheme, text_behind_at(host).to_string(), path),
        None => {
            let none = rest.substring_char(0, 0);
            assert(none@ =~= Seq::<char>::empty());
            (scheme, text_behind_at(rest).to_string(), none)
        },
    }
}

/// Pull the scheme, host and remaining path out of the many ways a repo gets written down.
fn split_location<'a>(text: &'a str) -> (r: Option<(&'static str, String, &'a str)>)
    ensures
        location_view(r) == location(text@),
{
    if let Some(rest) = text_strip_prefix(text, "ssh://") {
        return match text_split_once(text_behind_at(rest), "/") {
            Some((authority, path)) => Some(
                ("https", text_before(authority, ":").to_string(), path),
            ),
            None => None,
        };
    }
    if let Some((authority, path)) = text_split_once(text, ":") {
        if !text_contains(authority, "/") && !text_starts_with(path, "//") {
            return Some(("https", text_behind_at(authority).to_string(), path));
        }
    }
    if let Some(rest) = text_strip_prefix(text, "https://") {
        return Some(url_place("https", rest));
    }
    if let Some(rest) = text_strip_prefix(text, "http://") {
        return Some(url_place("http", rest));
    }
    if let Some((host, path)) = text_split_once(text, "/") {
        if text_contains(host, ".") && !text_ends_with(host, ".git") {
            return Some(("https", host.to_string(), path));
        }
    }
    Some(("https", GITHUB_HOST.to_string(), text))
}

fn parts_of<'a>(rest: &'a str) -> (r: Vec<&'a str>)
    ensures
        strs(r@) == path_parts(rest@),
{
    let bare = trim_end_char(trim_start_char(rest, '/'), '/');
    let all = text_split(text_without_git(bare), '/');
    let ghost views = strs(all@);
    let mut out: Vec<&'a str> = Vec::new();
    assert(strs(out@) =~= keep(views.take(0), is_full()));
    for i in 0..all.len()
        invariant
            views == strs(all@),
            strs(out@) == keep(views.take(i as int), is_full()),
    {
        assert(views.take(i + 1).drop_last() == views.take(i as int));
        assert(views.take(i + 1).last() == all@[i as int]@);
        if !all[i].is_empty() {
            let ghost before = strs(out@);
            out.push(all[i]);
            assert(strs(out@) == before.push(all@[i as int]@));
        }
    }
    assert(views.take(views.len() as int) == views);
    out
}

fn find_tree(parts: &Vec<&str>) -> (r: usize)
    ensures
        r == tree_index(strs(parts@), 0),
        r <= parts@.len(),
{
    let ghost views = strs(parts@);
    for i in 0..parts.len()
        invariant
            views == strs(parts@),
            tree_index(views, 0) == tree_index(views, i as int),
    {
        assert(views[i as int] == parts@[i as int]@);
        if same_text(parts[i], "-") || same_text(parts[i], "tree") {
            return i;
        }
    }
    parts.len()
}

fn find_branch<'a>(parts: &Vec<&'a str>, from: usize) -> (r: Option<&'a str>)
    requires
        from <= parts@.len(),
    ensures
        opt_str(r) == branch_from(strs(parts@), from as int),
{
    let ghost views = strs(parts@);
    let total: usize = parts.len();
    let mut i: usize = from;
    while i < total
        invariant
            total == parts@.len(),
            views == strs(parts@),
            from <= i <= total,
            branch_from(views, from as int) == branch_from(views, i as int),
        decreases total - i,
    {
        assert(views[i as int] == parts@[i as int]@);
        if same_text(parts[i], "tree") {
            if total - i > 1 {
                assert(views[i + 1] == parts@[i + 1]@);
                return Some(parts[i + 1]);
            }
            return None;
        }
        i = i + 1;
    }
    None
}

pub open spec fn repo_result(r: Result<RepoRef, String>) -> Result<Repo, Seq<char>> {
    match r {
        Ok(repo) => Ok(repo@),
        Err(e) => Err(e@),
    }
}

fn repo_refusal(text: &str) -> (r: String)
    ensures
        r@ == not_a_repo(text@),
{
    "not a repo: '".to_string().concat(text).concat("' (expected owner/repo)")
}

/// Parse `owner/repo`, an HTTP(S) URL, or an SSH URL, on GitHub or any self-hosted GitLab or
/// Gitea.
///
/// A bare `owner/repo` means GitHub. Anything with a host in it keeps that host, and a host
/// other than GitHub's is left to be identified by asking it for a tarball.
pub fn parse_repo(input: &str) -> (r: Result<RepoRef, String>)
    ensures
        repo_result(r) == parsed_repo(input@),
{
    let text = trim(input);
    if text.is_empty() {
        return Err("a hub needs a repo: owner/repo or a repo URL".to_string());
    }
    let (scheme, host, rest) = match split_location(text) {
        Some(place) => place,
        None => {
            return Err("not a repo: '".to_string().concat(text).concat("'"));
        },
    };
    let parts = parts_of(rest);
    let ghost views = strs(parts@);
    let at: usize = find_tree(&parts);
    let mut branch: Option<String> = None;
    if at < parts.len() {
        match find_branch(&parts, at) {
            Some(name) => {
                branch = Some(name.to_string());
            },
            None => {
                return Err(repo_refusal(text));
            },
        }
    }
    if at < 2 {
        return Err(repo_refusal(text));
    }
    let mut head: Vec<&str> = Vec::new();
    for i in 0..at
        invariant
            at <= parts@.len(),
            head@ == parts@.take(i as int),
    {
        head.push(parts[i]);
    }
    assert(strs(head@) =~= views.take(at as int));
    let joined = join_strs(head.as_slice(), "/");
    let path = text_without_git(joined.as_str()).to_string();
    let forge = if same_text(host.as_str(), GITHUB_HOST) {
        Some(Forge::GitHub)
    } else {
        None
    };
    let r = RepoRef { scheme: scheme.to_string(), host, path, branch, forge };
    Ok(r)
}

// ---------------------------------------------------------------------------
// What a repo is fetched from
// ---------------------------------------------------------------------------

impl Repo {
    /// The repo's own name: the last part of its path.
    pub open spec fn name(self) -> Seq<char> {
        split(self.path, '/').last()
    }

    /// Where a forge serves this repo's tarball.
    pub open spec fn tarball(self, forge: Forge, branch: Option<Seq<char>>) -> Seq<char> {
        let reference = match branch {
            Some(b) => b,
            None => "HEAD"@,
        };
        let base = self.scheme + "://"@ + self.host + "/"@ + self.path;
        match forge {
            Forge::GitHub => "https://codeload.github.com/"@ + self.path + "/tar.gz/"@
                + match branch {
                Some(b) => "refs/heads/"@ + b,
                None => "HEAD"@,
            },
            Forge::GitLab => base + "/-/archive/"@ + reference + "/"@ + self.name() + "-"@
                + reference + ".tar.gz"@,
            Forge::Gitea => base + "/archive/"@ + reference + ".tar.gz"@,
        }
    }

    /// The forges worth trying, best first.
    pub open spec fn worth_trying(self) -> Seq<Forge> {
        match self.forge {
            Some(forge) => seq![forge],
            None => seq![Forge::GitLab, Forge::Gitea],
        }
    }
}

impl RepoRef {
    /// The repo's own name: the last path segment.
    pub fn repo(&self) -> (r: &str)
        ensures
            r@ == self@.name(),
    {
        let parts = text_split(self.path.as_str(), '/');
        let n: usize = parts.len();
        proof {
            lemma_split_some(self.path@);
            assert(strs(parts@).last() == parts@[n - 1]@);
        }
        parts[n - 1]
    }

    /// The name a hub gets when the user does not choose one.
    pub fn default_hub_name(&self) -> (r: String)
        ensures
            r@ == sanitized(self@.name()),
    {
        sanitize_file_component(self.repo())
    }

    /// Where `forge` serves this repo's tarball. With no branch every forge resolves `HEAD` to
    /// the default branch, so a repo that renames its branch keeps working.
    pub fn tarball_url(&self, forge: Forge, branch: Option<&str>) -> (r: String)
        ensures
            r@ == self@.tarball(forge, opt_str(branch)),
    {
        let reference: &str = match branch {
            Some(b) => b,
            None => "HEAD",
        };
        let mut base = self.scheme.clone();
        base.append("://");
        base.append(self.host.as_str());
        base.append("/");
        base.append(self.path.as_str());
        match forge {
            Forge::GitHub => {
                let mut out = "https://codeload.github.com/".to_string();
                out.append(self.path.as_str());
                out.append("/tar.gz/");
                let ghost head = out@;
                match branch {
                    Some(b) => {
                        out.append("refs/heads/");
                        out.append(b);
                        assert(out@ =~= head + ("refs/heads/"@ + b@));
                    },
                    None => {
                        out.append("HEAD");
                    },
                }
                out
            },
            Forge::GitLab => {
                base.append("/-/archive/");
                base.append(reference);
                base.append("/");
                base.append(self.repo());
                base.append("-");
                base.append(reference);
                base.append(".tar.gz");
                base
            },
            Forge::Gitea => {
                base.append("/archive/");
                base.append(reference);
                base.append(".tar.gz");
                base
            },
        }
    }

    /// The forges worth trying for this repo, best first. GitHub is recognised by its host name
    /// alone.
    pub fn candidates(&self) -> (r: Vec<Forge>)
        ensures
            r@ == self@.worth_trying(),
    {
        match self.forge {
            Some(forge) => vec![forge],
            None => vec![Forge::GitLab, Forge::Gitea],
        }
    }
}

proof fn lemma_split_some(s: Seq<char>)
    ensures
        split(s, '/').len() > 0,
{
}

// ---------------------------------------------------------------------------
// The official repo
// ---------------------------------------------------------------------------

pub const OFFICIAL_HUB_REPO: &'static str = "mangosteen-lab/log-scouter-hub";

/// Whether both texts are the same but for ASCII case.
pub open spec fn same_any_case(a: Seq<char>, b: Seq<char>) -> bool {
    a.len() == b.len() && forall|i: int|
        0 <= i < a.len() ==> same_letter(#[trigger] a[i], b[i])
}

pub fn text_same_any_case(a: &str, b: &str) -> (r: bool)
    ensures
        r == same_any_case(a@, b@),
{
    let x = chars_of(a);
    let y = chars_of(b);
    if x.len() != y.len() {
        return false;
    }
    for i in 0..x.len()
        invariant
            x@ == a@,
            y@ == b@,
            a@.len() == b@.len(),
            forall|j: int| 0 <= j < i ==> same_letter(#[trigger] a@[j], b@[j]),
    {
        if crate::filters::small_code(x[i]) != crate::filters::small_code(y[i]) {
            assert(!same_letter(a@[i as int], b@[i as int]));
            return false;
        }
    }
    true
}

/// Whether a text names the official repo, however it is spelled.
pub open spec fn is_official(url: Seq<char>) -> bool {
    match (parsed_repo(url), parsed_repo(OFFICIAL_HUB_REPO@)) {
        (Ok(a), Ok(b)) => same_any_case(a.host, b.host) && same_any_case(a.path, b.path),
        _ => false,
    }
}

/// Whether a URL names the official hub repo, however the user spelled it.
pub fn repo_is_official(url: &str) -> (r: bool)
    ensures
        r == is_official(url@),
{
    match (parse_repo(url), parse_repo(OFFICIAL_HUB_REPO)) {
        (Ok(a), Ok(b)) => text_same_any_case(a.host.as_str(), b.host.as_str())
            && text_same_any_case(a.path.as_str(), b.path.as_str()),
        _ => false,
    }
}

// ---------------------------------------------------------------------------
// Laws
// ---------------------------------------------------------------------------

/// A repo is fetched over HTTPS unless plain HTTP was asked for, GitHub is the forge exactly
/// where GitHub is the host, and any other host is asked what it is.
pub proof fn parsed_repos_settle_scheme_and_forge(input: Seq<char>)
    requires
        parsed_repo(input) is Ok,
    ensures
        parsed_repo(input)->Ok_0.scheme == "https"@ || (parsed_repo(input)->Ok_0.scheme
            == "http"@ && starts_with(trimmed(input), "http://"@)),
        parsed_repo(input)->Ok_0.forge is Some <==> parsed_repo(input)->Ok_0.host == GITHUB_HOST@,
        parsed_repo(input)->Ok_0.forge is Some ==> parsed_repo(input)->Ok_0.forge == Some(
            Forge::GitHub,
        ),
{
}

/// Whether a text is a host as URLs write it: no slash, colon or `@` in it.
pub open spec fn is_host(host: Seq<char>) -> bool {
    !host.contains('/') && !host.contains(':') && !host.contains('@')
}

proof fn lemma_marks()
    ensures
        "/"@ == seq!['/'],
        ":"@ == seq![':'],
        "@"@ == seq!['@'],
        "//"@ == seq!['/', '/'],
        "."@ == seq!['.'],
        ".git"@ == seq!['.', 'g', 'i', 't'],
        "ssh://"@ == seq!['s', 's', 'h', ':', '/', '/'],
        "git@"@ == seq!['g', 'i', 't', '@'],
        "http://"@ == seq!['h', 't', 't', 'p', ':', '/', '/'],
        "https://"@ == seq!['h', 't', 't', 'p', 's', ':', '/', '/'],
{
    reveal_strlit("/");
    reveal_strlit(":");
    reveal_strlit("@");
    reveal_strlit("//");
    reveal_strlit(".");
    reveal_strlit(".git");
    reveal_strlit("ssh://");
    reveal_strlit("git@");
    reveal_strlit("http://");
    reveal_strlit("https://");
    assert("/"@ =~= seq!['/']);
    assert(":"@ =~= seq![':']);
    assert("@"@ =~= seq!['@']);
    assert("//"@ =~= seq!['/', '/']);
    assert("."@ =~= seq!['.']);
    assert(".git"@ =~= seq!['.', 'g', 'i', 't']);
    assert("ssh://"@ =~= seq!['s', 's', 'h', ':', '/', '/']);
    assert("git@"@ =~= seq!['g', 'i', 't', '@']);
    assert("http://"@ =~= seq!['h', 't', 't', 'p', ':', '/', '/']);
    assert("https://"@ =~= seq!['h', 't', 't', 'p', 's', ':', '/', '/']);
}

proof fn lemma_prefix(s: Seq<char>, prefix: Seq<char>, k: int)
    requires
        0 <= k < prefix.len(),
        k < s.len(),
        s[k] != prefix[k],
    ensures
        !starts_with(s, prefix),
{
    if starts_with(s, prefix) {
        assert(s.take(prefix.len() as int)[k] == s[k]);
    }
}

proof fn lemma_scp_location(host: Seq<char>, path: Seq<char>)
    requires
        is_host(host),
        !starts_with(path, "//"@),
    ensures
        location("git@"@ + host + ":"@ + path) == Some(("https"@, host, path)),
{
    lemma_marks();
    let authority = "git@"@ + host;
    let s = "git@"@ + host + ":"@ + path;
    lemma_prefix(s, "ssh://"@, 0);
    assert(!authority.contains(':')) by {
        if authority.contains(':') {
            let i = choose|i: int| 0 <= i < authority.len() && authority[i] == ':';
            assert(host.contains(host[i - 4]));
        }
    }
    assert(!authority.contains('/')) by {
        if authority.contains('/') {
            let i = choose|i: int| 0 <= i < authority.len() && authority[i] == '/';
            assert(host.contains(host[i - 4]));
        }
    }
    assert(s =~= authority + seq![':'] + path);
    a_separator_parts_a_text(authority, ':', path);
    a_separator_parts_a_text(authority, '/', path);
    assert(is_scp_form(s));
    let user = seq!['g', 'i', 't'];
    assert(authority =~= user + seq!['@'] + host);
    a_separator_parts_a_text(user, '@', host);
}

proof fn lemma_url_location(scheme: Seq<char>, host: Seq<char>, path: Seq<char>)
    requires
        is_host(host),
    ensures
        url_location(scheme, host + "/"@ + path) == (scheme, host, path),
{
    lemma_marks();
    a_separator_parts_a_text(host, '/', path);
    a_separator_parts_a_text(host, '@', path);
}

proof fn lemma_not_scp(scheme: Seq<char>, rest: Seq<char>)
    requires
        !scheme.contains(':'),
    ensures
        !is_scp_form(scheme + "://"@ + rest),
{
    lemma_marks();
    reveal_strlit("://");
    let behind = "//"@ + rest;
    let s = scheme + "://"@ + rest;
    assert(s =~= scheme + seq![':'] + behind);
    a_separator_parts_a_text(scheme, ':', behind);
    assert(behind.take(2) =~= "//"@);
}

proof fn lemma_ssh_location(host: Seq<char>, path: Seq<char>)
    requires
        is_host(host),
    ensures
        location("ssh://git@"@ + host + "/"@ + path) == Some(("https"@, host, path)),
{
    lemma_marks();
    reveal_strlit("ssh://git@");
    let s = "ssh://git@"@ + host + "/"@ + path;
    let user = seq!['g', 'i', 't'];
    let place = host + "/"@ + path;
    assert(s.take(6) =~= "ssh://"@);
    assert(s.skip(6) =~= user + seq!['@'] + place);
    a_separator_parts_a_text(user, '@', place);
    a_separator_parts_a_text(host, '/', path);
    a_separator_parts_a_text(host, ':', path);
}

proof fn lemma_web_location(host: Seq<char>, path: Seq<char>)
    requires
        is_host(host),
    ensures
        location("https://"@ + host + "/"@ + path) == Some(("https"@, host, path)),
        location("http://"@ + host + "/"@ + path) == Some(("http"@, host, path)),
{
    lemma_marks();
    reveal_strlit("https");
    reveal_strlit("http");
    reveal_strlit("://");
    let place = host + "/"@ + path;
    lemma_url_location("https"@, host, path);
    lemma_url_location("http"@, host, path);
    let safe = "https://"@ + host + "/"@ + path;
    let plain = "http://"@ + host + "/"@ + path;
    assert(safe =~= "https"@ + "://"@ + place);
    assert(plain =~= "http"@ + "://"@ + place);
    assert(!"https"@.contains(':'));
    assert(!"http"@.contains(':'));
    lemma_not_scp("https"@, place);
    lemma_not_scp("http"@, place);
    lemma_prefix(safe, "ssh://"@, 0);
    lemma_prefix(plain, "ssh://"@, 0);
    assert(safe.take(8) =~= "https://"@);
    assert(safe.skip(8) =~= place);
    lemma_prefix(plain, "https://"@, 4);
    assert(plain.take(7) =~= "http://"@);
    assert(plain.skip(7) =~= place);
}

proof fn lemma_bare_location(host: Seq<char>, path: Seq<char>)
    requires
        is_host(host),
        host.len() > 0,
    ensures
        location(host + "/"@ + path) == if host.contains('.') && !ends_with(host, ".git"@) {
            Some(("https"@, host, path))
        } else {
            Some(("https"@, "github.com"@, host + "/"@ + path))
        },
{
    lemma_marks();
    let s = host + "/"@ + path;
    let n = host.len() as int;
    assert(s[n] == '/');
    assert forall|k: int| 0 <= k < n implies s[k] != ':' && s[k] != '/' by {
        assert(s[k] == host[k]);
        assert(host.contains(host[k]));
    }
    a_separator_parts_a_text(host, '/', path);
    assert(!starts_with(s, "ssh://"@)) by {
        if starts_with(s, "ssh://"@) {
            assert(s.take(6)[3] == s[3]);
            assert(s.take(6)[0] == s[0] && s.take(6)[1] == s[1] && s.take(6)[2] == s[2]);
        }
    }
    assert(!starts_with(s, "https://"@)) by {
        if starts_with(s, "https://"@) {
            assert(s.take(8)[5] == s[5] && s.take(8)[4] == s[4] && s.take(8)[3] == s[3]);
            assert(s.take(8)[0] == s[0] && s.take(8)[1] == s[1] && s.take(8)[2] == s[2]);
        }
    }
    assert(!starts_with(s, "http://"@)) by {
        if starts_with(s, "http://"@) {
            assert(s.take(7)[4] == s[4] && s.take(7)[3] == s[3]);
            assert(s.take(7)[0] == s[0] && s.take(7)[1] == s[1] && s.take(7)[2] == s[2]);
        }
    }
    assert(!is_scp_form(s)) by {
        a_text_is_cut_at_the_first_separator(s, ":"@);
        if let Some((before, after)) = split_once(s, ":"@) {
            assert(s == before + seq![':'] + after);
            assert((before + seq![':'] + after)[before.len() as int] == ':');
            assert(before.len() > n);
            assert(before[n] == s[n]);
            the_first_place_is_found(before, "/"@);
            assert(reads_at(before, "/"@, n)) by {
                assert forall|i: int| 0 <= i < "/"@.len() implies before[n + i] == #[trigger] "/"@[i]
                    by {
                    assert(i == 0);
                }
            }
        }
    }
    the_first_place_is_found(host, "."@);
    if host.contains('.') {
        let k = choose|k: int| 0 <= k < host.len() && host[k] == '.';
        assert(reads_at(host, "."@, k)) by {
            assert forall|i: int| 0 <= i < "."@.len() implies host[k + i] == #[trigger] "."@[i] by {
                assert(i == 0);
            }
        }
    } else if let Some(k) = find(host, "."@) {
        assert(host[k + 0] == "."@[0]);
        assert(host.contains(host[k]));
    }
}

/// However a repo is reached, it is the one at that host and path: a URL, an SSH URL and the
/// `host:path` of SSH say the same, and so does a host with a dot in it on its own; over HTTPS,
/// unless plain HTTP is asked for. Without a host the repo is on GitHub.
pub proof fn a_repo_is_where_it_is_however_it_is_reached(host: Seq<char>, path: Seq<char>)
    requires
        is_host(host),
        host.len() > 0,
        !starts_with(path, "//"@),
    ensures
        location("https://"@ + host + "/"@ + path) == Some(("https"@, host, path)),
        location("http://"@ + host + "/"@ + path) == Some(("http"@, host, path)),
        location("ssh://git@"@ + host + "/"@ + path) == Some(("https"@, host, path)),
        location("git@"@ + host + ":"@ + path) == Some(("https"@, host, path)),
        host.contains('.') && !ends_with(host, ".git"@) ==> location(host + "/"@ + path) == Some(
            ("https"@, host, path),
        ),
        !host.contains('.') ==> location(host + "/"@ + path) == Some(
            ("https"@, "github.com"@, host + "/"@ + path),
        ),
{
    lemma_scp_location(host, path);
    lemma_ssh_location(host, path);
    lemma_web_location(host, path);
    lemma_bare_location(host, path);
}

/// Whether a text is one part of a path.
pub open spec fn is_part(part: Seq<char>) -> bool {
    part.len() > 0 && !part.contains('/')
}

proof fn lemma_not_git(owner: Seq<char>, repo: Seq<char>)
    requires
        is_part(repo),
        !ends_with(repo, ".git"@),
    ensures
        !ends_with(owner + "/"@ + repo, ".git"@),
{
    lemma_marks();
    let s = owner + "/"@ + repo;
    if ends_with(s, ".git"@) {
        let last = s.skip(s.len() - 4);
        if repo.len() >= 4 {
            assert(repo.skip(repo.len() - 4) =~= last);
        } else {
            let k = 3 - repo.len();
            assert(s[owner.len() as int] == '/');
            assert(last[k] == s[s.len() - 4 + k]);
        }
    }
}

proof fn lemma_path(owner: Seq<char>, repo: Seq<char>)
    requires
        is_part(owner),
        is_part(repo),
        !ends_with(repo, ".git"@),
    ensures
        path_parts(owner + "/"@ + repo) == seq![owner, repo],
        path_parts(owner + "/"@ + repo + ".git"@) == seq![owner, repo],
        path_parts("/"@ + owner + "/"@ + repo + "/"@) == seq![owner, repo],
        without_git(join(seq![owner, repo], "/"@)) == owner + "/"@ + repo,
{
    lemma_marks();
    let slash = is_char('/');
    let s = owner + "/"@ + repo;
    let git = s + ".git"@;
    let slashed = "/"@ + owner + "/"@ + repo + "/"@;
    assert(owner.contains(owner[0]));
    assert(repo.contains(repo.last())) by {
        assert(repo[repo.len() - 1] == repo.last());
    }
    assert(s[0] == owner[0] && s.last() == repo.last());
    assert(git[0] == owner[0] && git.last() == 't');
    lemma_span_is(s, slash, 0);
    assert(s.skip(0) =~= s);
    lemma_span_end_is(s, slash, 0);
    assert(s.take(s.len() as int) =~= s);
    lemma_span_is(git, slash, 0);
    assert(git.skip(0) =~= git);
    lemma_span_end_is(git, slash, 0);
    assert(git.take(git.len() as int) =~= git);
    assert(slashed[0] == '/' && slashed[1] == owner[0]);
    assert(slashed[slashed.len() - 1] == '/' && slashed[slashed.len() - 2] == repo.last());
    lemma_span_is(slashed, slash, 1);
    let open = slashed.skip(1);
    assert(open[open.len() - 1] == '/' && open[open.len() - 2] == repo.last());
    lemma_span_end_is(open, slash, 1);
    assert(open.take(open.len() - 1) =~= s);
    lemma_not_git(owner, repo);
    assert(without_git(s) == s);
    assert(git.skip(git.len() - 4) =~= ".git"@);
    assert(git.take(git.len() - 4) =~= s);
    a_separator_parts_a_text(owner, '/', repo);
    a_separator_parts_a_text(repo, '/', repo);
    let all = split(s, '/');
    assert(all =~= seq![owner, repo]);
    assert forall|i: int| 0 <= i < all.len() implies is_full()(#[trigger] all[i]) by {
        assert(i == 0 || i == 1);
    }
    lemma_keep_all(all, is_full());
    let both = seq![owner, repo];
    assert(both.drop_last() =~= seq![owner]);
    assert(join(seq![owner], "/"@) == owner);
    assert(join(both, "/"@) =~= s);
}

/// `owner/repo` on a host is that repo, with or without `.git` behind it.
pub proof fn a_repo_is_its_owner_and_name(host: Seq<char>, owner: Seq<char>, repo: Seq<char>)
    requires
        is_host(host),
        host.len() > 0,
        !is_space(repo.last()),
        is_part(owner),
        is_part(repo),
        !ends_with(repo, ".git"@),
        owner != "-"@ && owner != "tree"@,
        repo != "-"@ && repo != "tree"@,
    ensures
        ({
            let here = Repo {
                scheme: "https"@,
                host,
                path: owner + "/"@ + repo,
                branch: None,
                forge: if host == "github.com"@ {
                    Some(Forge::GitHub)
                } else {
                    None
                },
            };
            let url = "https://"@ + host + "/"@ + (owner + "/"@ + repo);
            &&& parsed_repo(url) == Ok::<Repo, Seq<char>>(here)
            &&& parsed_repo("https://"@ + host + "/"@ + (owner + "/"@ + repo + ".git"@)) == Ok::<
                Repo,
                Seq<char>,
            >(here)
        }),
{
    lemma_marks();
    let s = owner + "/"@ + repo;
    let url = "https://"@ + host + "/"@ + s;
    let git = "https://"@ + host + "/"@ + (s + ".git"@);
    lemma_web_location(host, s);
    lemma_web_location(host, s + ".git"@);
    lemma_path(owner, repo);
    assert(url[0] == 'h' && git[0] == 'h');
    assert(url.last() == repo.last() && git.last() == 't');
    lemma_span_is(url, space(), 0);
    assert(url.skip(0) =~= url);
    lemma_span_end_is(url, space(), 0);
    assert(url.take(url.len() as int) =~= url);
    lemma_span_is(git, space(), 0);
    assert(git.skip(0) =~= git);
    lemma_span_end_is(git, space(), 0);
    assert(git.take(git.len() as int) =~= git);
    let parts = seq![owner, repo];
    assert(parts[0] == owner && parts[1] == repo);
    assert(tree_index(parts, 2) == 2);
    assert(tree_index(parts, 1) == 2);
    assert(tree_index(parts, 0) == 2);
    assert(parts.take(2) =~= parts);
}

proof fn lemma_branch_path(
    owner: Seq<char>,
    repo: Seq<char>,
    branch: Seq<char>,
)
    requires
        is_part(owner),
        is_part(repo),
        is_part(branch),
        !ends_with(branch, ".git"@),
    ensures
        path_parts(owner + "/"@ + repo + "/tree/"@ + branch) == seq![owner, repo, "tree"@, branch],
{
    lemma_marks();
    reveal_strlit("tree");
    reveal_strlit("/tree/");
    let slash = is_char('/');
    let s = owner + "/"@ + repo + "/tree/"@ + branch;
    let head = owner + "/"@ + repo + seq!['/', 't', 'r', 'e', 'e'];
    assert(s =~= head + "/"@ + branch);
    assert(owner.contains(owner[0]));
    assert(branch.contains(branch.last())) by {
        assert(branch[branch.len() - 1] == branch.last());
    }
    assert(s[0] == owner[0] && s.last() == branch.last());
    lemma_span_is(s, slash, 0);
    assert(s.skip(0) =~= s);
    lemma_span_end_is(s, slash, 0);
    assert(s.take(s.len() as int) =~= s);
    lemma_not_git(head, branch);
    let tree = "tree"@;
    let last = tree + seq!['/'] + branch;
    let rest = repo + seq!['/'] + last;
    assert(s =~= owner + seq!['/'] + rest);
    assert(!tree.contains('/'));
    a_separator_parts_a_text(owner, '/', rest);
    a_separator_parts_a_text(repo, '/', last);
    a_separator_parts_a_text(tree, '/', branch);
    a_separator_parts_a_text(branch, '/', branch);
    let all = split(s, '/');
    assert(all =~= seq![owner, repo, tree, branch]);
    assert forall|i: int| 0 <= i < all.len() implies is_full()(#[trigger] all[i]) by {
        assert(i == 0 || i == 1 || i == 2 || i == 3);
    }
    lemma_keep_all(all, is_full());
}

/// The `/tree/` of a browser's URL names a branch of the repo in front of it.
pub proof fn a_browsed_branch_is_that_branch(
    host: Seq<char>,
    owner: Seq<char>,
    repo: Seq<char>,
    branch: Seq<char>,
)
    requires
        is_host(host),
        host.len() > 0,
        is_part(owner),
        is_part(repo),
        is_part(branch),
        !is_space(branch.last()),
        !ends_with(branch, ".git"@),
        !ends_with(repo, ".git"@),
        owner != "-"@ && owner != "tree"@,
        repo != "-"@ && repo != "tree"@,
    ensures
        ({
            let there = parsed_repo(
                "https://"@ + host + "/"@ + (owner + "/"@ + repo + "/tree/"@ + branch),
            );
            &&& there is Ok
            &&& there->Ok_0.host == host
            &&& there->Ok_0.path == owner + "/"@ + repo
            &&& there->Ok_0.branch == Some(branch)
        }),
{
    lemma_marks();
    let s = owner + "/"@ + repo + "/tree/"@ + branch;
    let url = "https://"@ + host + "/"@ + s;
    lemma_web_location(host, s);
    lemma_branch_path(owner, repo, branch);
    lemma_path(owner, repo);
    assert(url[0] == 'h' && url.last() == branch.last());
    lemma_span_is(url, space(), 0);
    assert(url.skip(0) =~= url);
    lemma_span_end_is(url, space(), 0);
    assert(url.take(url.len() as int) =~= url);
    let parts = seq![owner, repo, "tree"@, branch];
    assert(parts[0] == owner && parts[1] == repo && parts[2] == "tree"@ && parts[3] == branch);
    assert(tree_index(parts, 2) == 2);
    assert(tree_index(parts, 1) == 2);
    assert(tree_index(parts, 0) == 2);
    assert(branch_from(parts, 2) == Some(branch));
    assert(parts.take(2) =~= seq![owner, repo]);
}

} // verus!
