//! User-authored skills: markdown files in `~/.log-scouter/skills/`.
//!
//! A skill is a plain `.md` file the user writes: a reusable set of instructions for the
//! assistant.

use crate::lists::keep;
use crate::packs::{extension, has_extension, with_extension};
use crate::paths::{user_path, user_place};
use crate::sorting::{lemma_text_order, sort_texts, sorted_texts, text_leq};
use crate::text::{
    is_char, lemma_span_end, lines, not_char, opt_str, opt_text, same_text, starts_with, strs,
    text_less, text_lines, text_starts_with, texts, trim, trim_start_by, trim_start_char, trimmed,
};
use vstd::relations::sorted_by;
use vstd::prelude::*;

verus! {

/// One skill: its name (the file's stem), a one-line description, and the full body handed to
/// the model.
#[derive(Debug, PartialEq, Eq)]
pub struct Skill {
    pub name: String,
    pub description: String,
    pub body: String,
}

/// What a skill says.
#[verifier::ext_equal]
pub struct SkillParts {
    pub name: Seq<char>,
    pub description: Seq<char>,
    pub body: Seq<char>,
}

impl View for Skill {
    type V = SkillParts;

    open spec fn view(&self) -> SkillParts {
        SkillParts { name: self.name@, description: self.description@, body: self.body@ }
    }
}

pub open spec fn skill_views(v: Seq<Skill>) -> Seq<SkillParts> {
    v.map_values(|s: Skill| s@)
}

/// `~/.log-scouter/skills/`, or nothing without a home directory.
pub fn skills_dir(home: Option<&str>) -> (r: Option<String>)
    ensures
        opt_text(r) == user_place(opt_str(home), "skills"@),
{
    user_path(home, "skills")
}

/// The first line that is not blank, without the blanks around it.
pub open spec fn first_line(all: Seq<Seq<char>>) -> Option<Seq<char>>
    decreases all.len(),
{
    if all.len() == 0 {
        None
    } else if trimmed(all[0]).len() > 0 {
        Some(trimmed(all[0]))
    } else {
        first_line(all.skip(1))
    }
}

/// The first heading, without the blanks around it.
pub open spec fn first_heading(all: Seq<Seq<char>>) -> Option<Seq<char>>
    decreases all.len(),
{
    if all.len() == 0 {
        None
    } else if starts_with(trimmed(all[0]), "#"@) {
        Some(trimmed(all[0]))
    } else {
        first_heading(all.skip(1))
    }
}

/// The line that describes a skill: its first heading, or where it has none the first line that
/// is not blank.
pub open spec fn telling_line(all: Seq<Seq<char>>) -> Option<Seq<char>> {
    if first_heading(all) is Some {
        first_heading(all)
    } else {
        first_line(all)
    }
}

/// The skill of a name and a markdown body. Its description is without leading `#`s.
pub open spec fn skill_of(name: Seq<char>, body: Seq<char>) -> SkillParts {
    SkillParts {
        name,
        description: match telling_line(lines(body)) {
            Some(line) => trimmed(trim_start_by(line, is_char('#'))),
            None => Seq::empty(),
        },
        body,
    }
}

fn find_heading<'a>(all: &Vec<&'a str>) -> (r: Option<&'a str>)
    ensures
        opt_str(r) == first_heading(strs(all@)),
{
    let ghost view = strs(all@);
    assert(view.skip(0) =~= view);
    for i in 0..all.len()
        invariant
            view == strs(all@),
            first_heading(view.skip(i as int)) == first_heading(view),
    {
        let line = trim(all[i]);
        assert(view.skip(i as int)[0] == all@[i as int]@);
        assert(view.skip(i as int).skip(1) =~= view.skip(i + 1));
        if text_starts_with(line, "#") {
            return Some(line);
        }
    }
    None
}

fn find_line<'a>(all: &Vec<&'a str>) -> (r: Option<&'a str>)
    ensures
        opt_str(r) == first_line(strs(all@)),
{
    let ghost view = strs(all@);
    assert(view.skip(0) =~= view);
    for i in 0..all.len()
        invariant
            view == strs(all@),
            first_line(view.skip(i as int)) == first_line(view),
    {
        let line = trim(all[i]);
        assert(view.skip(i as int)[0] == all@[i as int]@);
        assert(view.skip(i as int).skip(1) =~= view.skip(i + 1));
        if line.unicode_len() > 0 {
            return Some(line);
        }
    }
    None
}

/// Build a skill from its name and markdown body. The description is the first heading, or the
/// first line that is not blank where there is no heading.
pub fn parse_skill(name: &str, body: &str) -> (r: Skill)
    ensures
        r@ == skill_of(name@, body@),
{
    let all = text_lines(body);
    let line = match find_heading(&all) {
        Some(line) => Some(line),
        None => find_line(&all),
    };
    let description = match line {
        Some(line) => trim(trim_start_char(line, '#')).to_string(),
        None => String::new(),
    };
    Skill { name: name.to_string(), description, body: body.to_string() }
}

/// A file of the skills folder: its name, and its text where it could be read.
pub struct SkillFile {
    pub name: String,
    pub body: Option<String>,
}

/// What the files of a folder hold.
pub open spec fn file_views(v: Seq<SkillFile>) -> Seq<(Seq<char>, Option<Seq<char>>)> {
    v.map_values(|f: SkillFile| (f.name@, opt_text(f.body)))
}

/// The text of the first file with this name, where it could be read.
pub open spec fn body_of(files: Seq<(Seq<char>, Option<Seq<char>>)>, name: Seq<char>) -> Option<
    Seq<char>,
>
    decreases files.len(),
{
    if files.len() == 0 {
        None
    } else if files[0].0 == name {
        files[0].1
    } else {
        body_of(files.skip(1), name)
    }
}

/// The names of the skills of a folder: those of its `.md` files, without the `.md`.
pub open spec fn stems(names: Seq<Seq<char>>) -> Seq<Seq<char>> {
    keep(names, with_extension("md"@)).map_values(|n: Seq<char>| n.take(n.len() - 3))
}

/// The skills with these names, in this order; what cannot be read is passed over.
pub open spec fn skills_in(
    names: Seq<Seq<char>>,
    files: Seq<(Seq<char>, Option<Seq<char>>)>,
) -> Seq<SkillParts>
    decreases names.len(),
{
    if names.len() == 0 {
        Seq::empty()
    } else {
        let before = skills_in(names.drop_last(), files);
        match body_of(files, names.last() + ".md"@) {
            Some(body) => before.push(skill_of(names.last(), body)),
            None => before,
        }
    }
}

/// The skills of a folder: its `.md` files, in order of the skills' names.
pub open spec fn folder_skills(files: Seq<(Seq<char>, Option<Seq<char>>)>) -> Seq<SkillParts> {
    let names = files.map_values(|f: (Seq<char>, Option<Seq<char>>)| f.0);
    skills_in(sorted_texts(stems(names)), files)
}

fn find_body<'a>(files: &'a Vec<SkillFile>, name: &str) -> (r: Option<&'a str>)
    ensures
        opt_str(r) == body_of(file_views(files@), name@),
{
    let ghost all = file_views(files@);
    assert(all.skip(0) =~= all);
    for i in 0..files.len()
        invariant
            all == file_views(files@),
            body_of(all.skip(i as int), name@) == body_of(all, name@),
    {
        assert(all.skip(i as int)[0] == (files@[i as int].name@, opt_text(files@[i as int].body)));
        assert(all.skip(i as int).skip(1) =~= all.skip(i + 1));
        if same_text(files[i].name.as_str(), name) {
            return match &files[i].body {
                Some(body) => Some(body.as_str()),
                None => None,
            };
        }
    }
    None
}

fn skill_names(files: &Vec<SkillFile>) -> (r: Vec<String>)
    ensures
        texts(r@) == stems(file_views(files@).map_values(
            |f: (Seq<char>, Option<Seq<char>>)| f.0,
        )),
{
    let ghost names = file_views(files@).map_values(|f: (Seq<char>, Option<Seq<char>>)| f.0);
    let ghost p = with_extension("md"@);
    let mut out: Vec<String> = Vec::new();
    assert(texts(out@) =~= stems(names.take(0)));
    for i in 0..files.len()
        invariant
            names == file_views(files@).map_values(|f: (Seq<char>, Option<Seq<char>>)| f.0),
            p == with_extension("md"@),
            texts(out@) == stems(names.take(i as int)),
    {
        let name = files[i].name.as_str();
        assert(names.take(i + 1).drop_last() =~= names.take(i as int));
        assert(names.take(i + 1).last() == name@);
        if has_extension(name, "md") {
            proof {
                lemma_md_name(name@);
            }
            let total: usize = name.unicode_len();
            let ghost before = texts(out@);
            let short = name.substring_char(0, total - 3);
            assert(short@ =~= name@.take(name@.len() - 3));
            out.push(short.to_string());
            assert(texts(out@) =~= before.push(short@));
            assert(stems(names.take(i + 1)) =~= before.push(short@));
        } else {
            assert(stems(names.take(i + 1)) =~= stems(names.take(i as int)));
        }
    }
    assert(names.take(names.len() as int) =~= names);
    out
}

/// A file with the extension `md` is named by its stem and `.md`.
proof fn lemma_md_name(name: Seq<char>)
    requires
        extension(name) == Some("md"@),
    ensures
        name.len() >= 3,
        name.take(name.len() - 3) + ".md"@ == name,
{
    reveal_strlit("md");
    reveal_strlit(".md");
    lemma_span_end(name, not_char('.'));
    let tail = extension(name)->0;
    assert(tail.len() == 2);
    let dot = name.len() - 3;
    assert(name[dot] == '.');
    assert(name[dot + 1] == tail[0] && name[dot + 2] == tail[1]);
    assert(name.take(dot) + ".md"@ =~= name);
}

/// Every `.md` skill among the files of a folder, sorted by name.
pub fn list_in(files: &Vec<SkillFile>) -> (r: Vec<Skill>)
    ensures
        skill_views(r@) == folder_skills(file_views(files@)),
{
    let ghost all = file_views(files@);
    let sorted = sort_texts(skill_names(files));
    let ghost order = texts(sorted@);
    let mut out: Vec<Skill> = Vec::new();
    assert(skill_views(out@) =~= skills_in(order.take(0), all));
    for i in 0..sorted.len()
        invariant
            order == texts(sorted@),
            all == file_views(files@),
            skill_views(out@) == skills_in(order.take(i as int), all),
    {
        let name = sorted[i].as_str();
        assert(order[i as int] == name@);
        assert(order.take(i + 1).drop_last() =~= order.take(i as int));
        assert(order.take(i + 1).last() == name@);
        let file = name.to_string().concat(".md");
        if let Some(body) = find_body(files, file.as_str()) {
            let ghost before = skill_views(out@);
            out.push(parse_skill(name, body));
            assert(skill_views(out@) =~= before.push(skill_of(name@, body@)));
        }
    }
    assert(order.take(order.len() as int) =~= order);
    out
}

/// Every skill of the user's folder; none where there is no folder.
pub fn list(files: Option<&Vec<SkillFile>>) -> (r: Vec<Skill>)
    ensures
        skill_views(r@) == match files {
            Some(v) => folder_skills(file_views(v@)),
            None => Seq::empty(),
        },
{
    match files {
        Some(v) => list_in(v),
        None => {
            let r: Vec<Skill> = Vec::new();
            assert(skill_views(r@) =~= Seq::empty());
            r
        },
    }
}

/// The first skill with this name.
pub open spec fn skill_named(skills: Seq<SkillParts>, name: Seq<char>) -> Option<SkillParts>
    decreases skills.len(),
{
    if skills.len() == 0 {
        None
    } else if skills[0].name == name {
        Some(skills[0])
    } else {
        skill_named(skills.skip(1), name)
    }
}

/// The skill with this name, if it exists.
pub fn load(name: &str, files: Option<&Vec<SkillFile>>) -> (r: Option<Skill>)
    ensures
        ({
            let skills = match files {
                Some(v) => folder_skills(file_views(v@)),
                None => Seq::empty(),
            };
            match r {
                Some(s) => skill_named(skills, name@) == Some(s@),
                None => skill_named(skills, name@) is None,
            }
        }),
{
    let skills = list(files);
    let ghost all = skill_views(skills@);
    assert(all.skip(0) =~= all);
    for i in 0..skills.len()
        invariant
            all == skill_views(skills@),
            all == match files {
                Some(v) => folder_skills(file_views(v@)),
                None => Seq::empty(),
            },
            skill_named(all.skip(i as int), name@) == skill_named(all, name@),
    {
        assert(all.skip(i as int)[0] == skills@[i as int]@);
        assert(all.skip(i as int).skip(1) =~= all.skip(i + 1));
        if same_text(skills[i].name.as_str(), name) {
            return Some(
                Skill {
                    name: skills[i].name.clone(),
                    description: skills[i].description.clone(),
                    body: skills[i].body.clone(),
                },
            );
        }
    }
    None
}

// ---------------------------------------------------------------------------
// Laws
// ---------------------------------------------------------------------------

proof fn lemma_skills_in(names: Seq<Seq<char>>, files: Seq<(Seq<char>, Option<Seq<char>>)>)
    requires
        sorted_by(names, text_leq()),
    ensures
        ({
            let skills = skills_in(names, files);
            &&& forall|i: int| 0 <= i < skills.len() ==> names.contains((#[trigger] skills[i]).name)
            &&& forall|i: int|
                0 <= i < skills.len() ==> body_of(files, (#[trigger] skills[i]).name + ".md"@)
                    == Some(skills[i].body)
            &&& forall|i: int, j: int|
                0 <= i <= j < skills.len() ==> !text_less(
                    (#[trigger] skills[j]).name,
                    (#[trigger] skills[i]).name,
                )
            &&& forall|k: int|
                0 <= k < names.len() && body_of(files, #[trigger] names[k] + ".md"@) is Some
                    ==> exists|i: int| 0 <= i < skills.len() && (#[trigger] skills[i]).name
                    == names[k]
        }),
    decreases names.len(),
{
    if names.len() > 0 {
        let init = names.drop_last();
        let last = names.last();
        assert(names[names.len() - 1] == last);
        lemma_skills_in(init, files);
        let before = skills_in(init, files);
        let skills = skills_in(names, files);
        assert forall|i: int| 0 <= i < before.len() implies names.contains(
            (#[trigger] before[i]).name,
        ) && text_leq()(before[i].name, last) by {
            assert(init.contains(before[i].name));
            let k = choose|k: int| 0 <= k < init.len() && init[k] == before[i].name;
            assert(names[k] == before[i].name);
            assert(text_leq()(names[k], names[names.len() - 1]));
        }
        crate::text::lemma_text_less_irreflexive(last);
        assert forall|i: int| 0 <= i < skills.len() implies names.contains(
            (#[trigger] skills[i]).name,
        ) by {
            if i < before.len() {
                assert(skills[i] == before[i]);
            }
        }
        assert forall|i: int, j: int| 0 <= i <= j < skills.len() implies !text_less(
            (#[trigger] skills[j]).name,
            (#[trigger] skills[i]).name,
        ) by {
            if j < before.len() {
                assert(skills[i] == before[i] && skills[j] == before[j]);
            } else if i < before.len() {
                assert(skills[i] == before[i]);
            }
        }
        assert forall|k: int|
            0 <= k < names.len() && body_of(files, #[trigger] names[k] + ".md"@) is Some implies exists|
            i: int,
        | 0 <= i < skills.len() && (#[trigger] skills[i]).name == names[k] by {
            if k < init.len() {
                assert(init[k] == names[k]);
                let i = choose|i: int|
                    0 <= i < before.len() && (#[trigger] before[i]).name == init[k];
                assert(skills[i] == before[i]);
            } else {
                assert(skills[before.len() as int].name == names[k]);
            }
        }
    }
}

/// The skills of a folder are those of its `.md` files that can be read, in order of their names.
pub proof fn skills_are_listed_by_name(files: Seq<(Seq<char>, Option<Seq<char>>)>)
    ensures
        ({
            let skills = folder_skills(files);
            let names = files.map_values(|f: (Seq<char>, Option<Seq<char>>)| f.0);
            &&& forall|i: int, j: int|
                0 <= i <= j < skills.len() ==> !text_less(
                    (#[trigger] skills[j]).name,
                    (#[trigger] skills[i]).name,
                )
            &&& forall|i: int|
                0 <= i < skills.len() ==> stems(names).contains((#[trigger] skills[i]).name)
                    && body_of(files, skills[i].name + ".md"@) == Some(skills[i].body)
            &&& forall|k: int|
                0 <= k < stems(names).len() && body_of(files, #[trigger] stems(names)[k] + ".md"@)
                    is Some ==> exists|i: int|
                    0 <= i < skills.len() && (#[trigger] skills[i]).name == stems(names)[k]
        }),
{
    let names = files.map_values(|f: (Seq<char>, Option<Seq<char>>)| f.0);
    let all = stems(names);
    let sorted = sorted_texts(all);
    lemma_text_order();
    all.lemma_sort_by_ensures(text_leq());
    lemma_skills_in(sorted, files);
    all.to_multiset_ensures();
    sorted.to_multiset_ensures();
    let skills = folder_skills(files);
    assert forall|i: int| 0 <= i < skills.len() implies all.contains((#[trigger] skills[i]).name) by {
        assert(sorted.contains(skills[i].name));
        assert(all.to_multiset().count(skills[i].name) > 0);
    }
    assert forall|k: int|
        0 <= k < all.len() && body_of(files, #[trigger] all[k] + ".md"@) is Some implies exists|
        i: int,
    | 0 <= i < skills.len() && (#[trigger] skills[i]).name == all[k] by {
        assert(all.contains(all[k]));
        assert(sorted.to_multiset().count(all[k]) > 0);
        assert(sorted.contains(all[k]));
        let m = choose|m: int| 0 <= m < sorted.len() && sorted[m] == all[k];
        assert(body_of(files, sorted[m] + ".md"@) is Some);
    }
}

} // verus!
