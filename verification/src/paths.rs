//! Paths as text, with `/` between their parts.

use crate::lists::keep;
use crate::text::{
    a_separator_parts_a_text, is_space, lemma_span_end_is, lemma_span_is, opt_str, opt_text,
    same_text, space, split, strs, text_split, text_strip_prefix, texts,
    texts_split_apart_at_a_separator, trim, trimmed,
};
use vstd::prelude::*;

verus! {

/// User-level library, shared across every project.
pub const USER_DIR: &'static str = ".log-scouter";

pub const USER_FILTERS_SUBDIR: &'static str = "filters";

pub const USER_SEARCHES_SUBDIR: &'static str = "searches";

/// `tail` under `base`; an absolute `tail` stands for itself.
pub open spec fn joined(base: Seq<char>, tail: Seq<char>) -> Seq<char> {
    if tail.len() > 0 && tail[0] == '/' {
        tail
    } else if base.len() > 0 && base.last() != '/' {
        base.push('/') + tail
    } else {
        base + tail
    }
}

pub fn join_path(base: &str, tail: &str) -> (r: String)
    ensures
        r@ == joined(base@, tail@),
{
    let tail_len: usize = tail.unicode_len();
    if tail_len > 0 && tail.get_char(0) == '/' {
        return tail.to_string();
    }
    let mut out = base.to_string();
    let len: usize = base.unicode_len();
    if len > 0 && base.get_char(len - 1) != '/' {
        out.push('/');
    }
    out.append(tail);
    out
}

/// The last part of a path that names something, passing over empty parts and `.` from the
/// end; none where that is `..` or nothing is left.
pub open spec fn last_name(parts: Seq<Seq<char>>) -> Option<Seq<char>>
    decreases parts.len(),
{
    if parts.len() == 0 {
        None
    } else if parts.last().len() == 0 || parts.last() == "."@ {
        last_name(parts.drop_last())
    } else if parts.last() == ".."@ {
        None
    } else {
        Some(parts.last())
    }
}

/// The name of the file that a path leads to.
pub open spec fn file_name_of(path: Seq<char>) -> Option<Seq<char>> {
    last_name(split(path, '/'))
}

pub fn file_name<'a>(path: &'a str) -> (r: Option<&'a str>)
    ensures
        opt_str(r) == file_name_of(path@),
{
    let parts = text_split(path, '/');
    let ghost all = strs(parts@);
    let mut i: usize = parts.len();
    assert(all.take(all.len() as int) == all);
    while i > 0
        invariant
            all == strs(parts@),
            all == split(path@, '/'),
            i <= parts@.len(),
            last_name(all) == last_name(all.take(i as int)),
        decreases i,
    {
        let part = parts[i - 1];
        assert(all.take(i as int).last() == part@);
        assert(all.take(i as int).drop_last() == all.take(i - 1));
        if !(part.is_empty() || same_text(part, ".")) {
            if same_text(part, "..") {
                return None;
            }
            return Some(part);
        }
        i = i - 1;
    }
    None
}

/// A part of a path that names a step: not empty, not `.`.
pub open spec fn is_step() -> spec_fn(Seq<char>) -> bool {
    |p: Seq<char>| p.len() > 0 && p != "."@
}

/// The components of a path: the root or a leading `.`, then every step.
pub open spec fn components(path: Seq<char>) -> Seq<Seq<char>> {
    let parts = split(path, '/');
    let head = if path.len() > 0 && path[0] == '/' {
        seq!["/"@]
    } else if parts[0] == "."@ {
        seq!["."@]
    } else {
        Seq::empty()
    };
    head + keep(parts, is_step())
}

pub fn path_components(path: &str) -> (r: Vec<String>)
    ensures
        texts(r@) == components(path@),
{
    let parts = text_split(path, '/');
    let ghost all = strs(parts@);
    let mut out: Vec<String> = Vec::new();
    let n: usize = path.unicode_len();
    assert(all.len() > 0);
    assert(all[0] == parts@[0]@);
    if n > 0 && path.get_char(0) == '/' {
        out.push("/".to_string());
    } else if same_text(parts[0], ".") {
        out.push(".".to_string());
    }
    let ghost head = texts(out@);
    assert(head + keep(all.take(0), is_step()) =~= head);
    for i in 0..parts.len()
        invariant
            all == strs(parts@),
            texts(out@) == head + keep(all.take(i as int), is_step()),
    {
        assert(all.take(i + 1).drop_last() == all.take(i as int));
        assert(all.take(i + 1).last() == parts@[i as int]@);
        if !parts[i].is_empty() && !same_text(parts[i], ".") {
            let ghost before = texts(out@);
            out.push(parts[i].to_string());
            assert(texts(out@) =~= before.push(parts@[i as int]@));
        }
    }
    assert(all.take(all.len() as int) == all);
    out
}

/// What a path is shown as: its file name, or all of it.
pub open spec fn shown_name(path: Seq<char>) -> Seq<char> {
    match file_name_of(path) {
        Some(name) => name,
        None => path,
    }
}

pub fn display_name(path: &str) -> (r: String)
    ensures
        r@ == shown_name(path@),
{
    match file_name(path) {
        Some(name) => name.to_string(),
        None => path.to_string(),
    }
}

// ---------------------------------------------------------------------------
// The home directory
// ---------------------------------------------------------------------------

/// A value that is set and not empty.
pub open spec fn set_value(v: Option<Seq<char>>) -> Option<Seq<char>> {
    match v {
        Some(s) => if s.len() > 0 {
            Some(s)
        } else {
            None
        },
        None => None,
    }
}

/// The home directory: `HOME`, else `USERPROFILE`, else `HOMEDRIVE` and `HOMEPATH` together.
pub open spec fn home_of(
    home: Option<Seq<char>>,
    profile: Option<Seq<char>>,
    drive: Option<Seq<char>>,
    path: Option<Seq<char>>,
) -> Option<Seq<char>> {
    if set_value(home) is Some {
        home
    } else if set_value(profile) is Some {
        profile
    } else if set_value(drive) is Some && set_value(path) is Some {
        Some(drive->0 + path->0)
    } else {
        None
    }
}

fn non_empty(v: Option<&str>) -> (r: bool)
    ensures
        r == set_value(opt_str(v)) is Some,
{
    match v {
        Some(s) => !s.is_empty(),
        None => false,
    }
}

/// Resolve the user's home directory across platforms from what the environment holds.
pub fn resolve_home(
    home: Option<&str>,
    profile: Option<&str>,
    drive: Option<&str>,
    path: Option<&str>,
) -> (r: Option<String>)
    ensures
        opt_text(r) == home_of(opt_str(home), opt_str(profile), opt_str(drive), opt_str(path)),
{
    if non_empty(home) {
        return match home {
            Some(s) => Some(s.to_string()),
            None => None,
        };
    }
    if non_empty(profile) {
        return match profile {
            Some(s) => Some(s.to_string()),
            None => None,
        };
    }
    match (drive, path) {
        (Some(d), Some(p)) => if !d.is_empty() && !p.is_empty() {
            Some(d.to_string().concat(p))
        } else {
            None
        },
        _ => None,
    }
}

/// A place under the user's own directory, where there is a home to hold it.
pub open spec fn user_place(home: Option<Seq<char>>, name: Seq<char>) -> Option<Seq<char>> {
    match home {
        Some(home) => Some(joined(joined(home, USER_DIR@), name)),
        None => None,
    }
}

pub fn user_path(home: Option<&str>, name: &str) -> (r: Option<String>)
    ensures
        opt_text(r) == user_place(opt_str(home), name@),
{
    match home {
        Some(home) => Some(join_path(join_path(home, USER_DIR).as_str(), name)),
        None => None,
    }
}

/// `~/.log-scouter/filters`, or `None` when there is no home directory.
pub fn user_filter_dir(home: Option<&str>) -> (r: Option<String>)
    ensures
        opt_text(r) == user_place(opt_str(home), USER_FILTERS_SUBDIR@),
{
    user_path(home, USER_FILTERS_SUBDIR)
}

/// `~/.log-scouter/searches`, or `None` when there is no home directory.
pub fn user_search_dir(home: Option<&str>) -> (r: Option<String>)
    ensures
        opt_text(r) == user_place(opt_str(home), USER_SEARCHES_SUBDIR@),
{
    user_path(home, USER_SEARCHES_SUBDIR)
}

/// `~/.log-scouter/schemas`, or `None` when there is no home directory.
pub fn user_schema_dir(home: Option<&str>) -> (r: Option<String>)
    ensures
        opt_text(r) == user_place(opt_str(home), crate::extractor::USER_SCHEMAS_SUBDIR@),
{
    user_path(home, crate::extractor::USER_SCHEMAS_SUBDIR)
}

/// A typed path with a leading `~` written out, where there is a home directory.
pub open spec fn expanded(input: Seq<char>, home: Option<Seq<char>>) -> Seq<char> {
    let text = trimmed(input);
    match home {
        Some(home) => if text == "~"@ {
            home
        } else if crate::text::starts_with(text, "~/"@) {
            joined(home, text.skip("~/"@.len() as int))
        } else {
            text
        },
        None => text,
    }
}

/// Expand a leading `~` so typed paths like `~/.log-scouter/filters` resolve.
pub fn expand_tilde(input: &str, home: Option<&str>) -> (r: String)
    ensures
        r@ == expanded(input@, opt_str(home)),
{
    let text = trim(input);
    match home {
        Some(home) => {
            if same_text(text, "~") {
                return home.to_string();
            }
            match text_strip_prefix(text, "~/") {
                Some(rest) => join_path(home, rest),
                None => text.to_string(),
            }
        },
        None => text.to_string(),
    }
}

// ---------------------------------------------------------------------------
// Laws
// ---------------------------------------------------------------------------

/// A path goes under another with one slash between them, whether that one ends in a slash or
/// not; an absolute path stands for itself.
pub proof fn a_path_goes_under_another_with_one_slash(base: Seq<char>, tail: Seq<char>)
    requires
        base.len() > 0,
        base.last() != '/',
    ensures
        tail.len() == 0 || tail[0] != '/' ==> joined(base, tail) == base + seq!['/'] + tail,
        joined(base + seq!['/'], tail) == joined(base, tail),
        joined(base, seq!['/'] + tail) == seq!['/'] + tail,
        joined(Seq::empty(), tail) == tail,
{
    let slashed = base + seq!['/'];
    assert(slashed.last() == '/');
    assert(base.push('/') =~= slashed);
    assert((seq!['/'] + tail)[0] == '/');
    assert(Seq::<char>::empty() + tail =~= tail);
}

/// A path is shown by the name of what it leads to, with or without a slash behind it.
pub proof fn a_path_is_shown_by_its_last_name(folder: Seq<char>, name: Seq<char>)
    requires
        name.len() > 0,
        !name.contains('/'),
        name != "."@,
        name != ".."@,
    ensures
        file_name_of(name) == Some(name),
        file_name_of(folder + seq!['/'] + name) == Some(name),
        file_name_of(folder + seq!['/'] + name + seq!['/']) == Some(name),
        shown_name(folder + seq!['/'] + name) == name,
{
    a_separator_parts_a_text(name, '/', name);
    texts_split_apart_at_a_separator(folder, '/', name);
    let parts = split(folder, '/') + seq![name];
    assert(parts.last() == name);
    let none = Seq::<char>::empty();
    let path = folder + seq!['/'] + name;
    texts_split_apart_at_a_separator(path, '/', none);
    a_separator_parts_a_text(none, '/', none);
    assert(path + seq!['/'] + none =~= path + seq!['/']);
    let ended = split(path, '/') + seq![none];
    assert(ended.last() == none);
    assert(ended.drop_last() =~= split(path, '/'));
}

/// A `~` in front of a typed path is the home directory; without one in front, or without a home
/// directory, the path is as it was typed.
pub proof fn a_tilde_is_the_home_directory(rest: Seq<char>, home: Seq<char>)
    requires
        rest.len() > 0,
        !is_space(rest.last()),
    ensures
        expanded("~"@, Some(home)) == home,
        expanded("~/"@ + rest, Some(home)) == joined(home, rest),
        expanded("~/"@ + rest, None) == "~/"@ + rest,
        rest[0] != '~' && !is_space(rest[0]) ==> expanded(rest, Some(home)) == rest,
{
    reveal_strlit("~");
    reveal_strlit("~/");
    let tilde = "~"@;
    let path = "~/"@ + rest;
    lemma_span_is(tilde, space(), 0);
    assert(tilde.skip(0) =~= tilde);
    lemma_span_end_is(tilde, space(), 0);
    assert(trimmed(tilde) =~= tilde);
    assert(path[0] == '~' && path.last() == rest.last());
    lemma_span_is(path, space(), 0);
    assert(path.skip(0) =~= path);
    lemma_span_end_is(path, space(), 0);
    assert(trimmed(path) =~= path);
    assert(path != tilde) by {
        assert(path.len() > 1 && tilde.len() == 1);
    }
    assert(path.take(2) =~= "~/"@);
    assert(path.skip(2) =~= rest);
    if rest[0] != '~' && !is_space(rest[0]) {
        lemma_span_is(rest, space(), 0);
        assert(rest.skip(0) =~= rest);
        lemma_span_end_is(rest, space(), 0);
        assert(trimmed(rest) =~= rest);
        assert(rest != tilde) by {
            assert(tilde[0] == '~');
        }
        if crate::text::starts_with(rest, "~/"@) {
            assert(rest.take(2)[0] == rest[0]);
        }
    }
}

/// The home directory is the first that is set: `HOME` before `USERPROFILE`, and that before the
/// drive with its path; one that is empty is not set.
pub proof fn the_first_home_that_is_set_counts(
    home: Seq<char>,
    profile: Option<Seq<char>>,
    drive: Option<Seq<char>>,
    path: Option<Seq<char>>,
)
    requires
        home.len() > 0,
    ensures
        home_of(Some(home), profile, drive, path) == Some(home),
        home_of(None, Some(home), drive, path) == Some(home),
        home_of(Some(Seq::empty()), profile, drive, path) == home_of(None, profile, drive, path),
        home_of(None, Some(Seq::empty()), drive, path) == home_of(None, None, drive, path),
        path is Some && path->0.len() > 0 ==> home_of(None, None, Some(home), path) == Some(
            home + path->0,
        ),
        home_of(None, None, drive, None) is None,
        home_of(None, None, None, path) is None,
{
}

} // verus!
