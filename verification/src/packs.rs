//! Library packs: one JSON file per item in a folder.

use crate::extractor::{truncate, truncated, Extractor};
use crate::filters::{FilterFile, FilterRule, FilterSet, Rule};
use crate::lists::keep;
use crate::sorting::{sort_texts, sorted_texts};
use crate::text::{
    blank, char_is_alphanumeric, char_is_space, chars_of, decimal, decimal_text, digit_char,
    is_alphanumeric,
    is_blank, is_space, join, join_strs, list_has, not_char, run_before, same_text, span,
    span_end, split, strs, text_split, texts,
};
use vstd::prelude::*;

verus! {

// ---------------------------------------------------------------------------
// File names
// ---------------------------------------------------------------------------

/// A character that a file name may hold.
pub open spec fn is_safe(c: char) -> bool {
    is_alphanumeric(c) || c == '-' || c == '_' || c == '.'
}

/// A character that a dash stands for in a file name.
pub open spec fn is_dashed(c: char) -> bool {
    is_space(c) || c == ':' || c == '/' || c == '\\' || c == '|' || c == '\'' || c == '"'
}

/// `s` with separators turned into dashes and every other unsafe character left out.
pub open spec fn dashed(s: Seq<char>) -> Seq<char>
    decreases s.len(),
{
    if s.len() == 0 {
        Seq::empty()
    } else if is_safe(s.last()) {
        dashed(s.drop_last()).push(s.last())
    } else if is_dashed(s.last()) {
        dashed(s.drop_last()).push('-')
    } else {
        dashed(s.drop_last())
    }
}

pub open spec fn is_full() -> spec_fn(Seq<char>) -> bool {
    |p: Seq<char>| p.len() > 0
}

/// `s` as a part of a file name: safe characters only, single dashes between its parts.
pub open spec fn sanitized(s: Seq<char>) -> Seq<char> {
    let compact = join(keep(split(dashed(s), '-'), is_full()), "-"@);
    if compact.len() == 0 {
        "filter"@
    } else {
        compact
    }
}

/// A name as a part of a file name.
pub fn sanitize_file_component(name: &str) -> (r: String)
    ensures
        r@ == sanitized(name@),
{
    let chars = chars_of(name);
    let mut out = String::new();
    assert(out@ =~= dashed(name@.take(0)));
    for i in 0..chars.len()
        invariant
            chars@ == name@,
            out@ == dashed(name@.take(i as int)),
    {
        assert(name@.take(i + 1).drop_last() == name@.take(i as int));
        let c = chars[i];
        if char_is_alphanumeric(c) || c == '-' || c == '_' || c == '.' {
            out.push(c);
        } else if char_is_space(c) || c == ':' || c == '/' || c == '\\' || c == '|' || c == '\''
            || c == '"' {
            out.push('-');
        }
    }
    assert(name@.take(name@.len() as int) == name@);
    let parts = text_split(out.as_str(), '-');
    let ghost all = strs(parts@);
    let mut full: Vec<&str> = Vec::new();
    assert(strs(full@) =~= keep(all.take(0), is_full()));
    for i in 0..parts.len()
        invariant
            all == strs(parts@),
            strs(full@) == keep(all.take(i as int), is_full()),
    {
        assert(all.take(i + 1).drop_last() == all.take(i as int));
        assert(all.take(i + 1).last() == parts@[i as int]@);
        if !parts[i].is_empty() {
            let ghost before = strs(full@);
            full.push(parts[i]);
            assert(strs(full@) == before.push(parts@[i as int]@));
        }
    }
    assert(all.take(all.len() as int) == all);
    let compact = join_strs(full.as_slice(), "-");
    if compact.as_str().is_empty() {
        "filter".to_string()
    } else {
        compact
    }
}

/// `n` in decimal, with zeros in front up to `width` digits.
pub open spec fn padded(n: nat, width: int) -> Seq<char> {
    crate::timestamp::zeros(width - decimal(n).len()) + decimal(n)
}

/// `n` in at least three digits.
pub fn padded3(n: usize) -> (r: String)
    ensures
        r@ == padded(n as nat, 3),
{
    let digits = decimal_text(n as u64);
    let len: usize = digits.as_str().unicode_len();
    let mut out = String::new();
    let mut i: usize = len;
    while i < 3
        invariant
            len <= i,
            i <= 3 || i == len,
            out@ == crate::timestamp::zeros(i - len),
        decreases 3 - i,
    {
        out.push('0');
        assert(out@ =~= crate::timestamp::zeros(i + 1 - len));
        i = i + 1;
    }
    out.append(digits.as_str());
    out
}

/// The name of the file that holds item `index` of a pack.
pub open spec fn pack_name(index: nat, name: Seq<char>) -> Seq<char> {
    padded(index, 3) + "-"@ + sanitized(name) + ".json"@
}

pub fn pack_file_name(index: usize, name: &str) -> (r: String)
    ensures
        r@ == pack_name(index as nat, name@),
{
    let mut out = padded3(index);
    out.append("-");
    out.append(sanitize_file_component(name).as_str());
    out.append(".json");
    out
}

/// The name tried `k`th for an item: plain, then with a number behind it.
pub open spec fn stepped_name(stem: Seq<char>, k: nat) -> Seq<char> {
    if k <= 1 {
        stem + ".json"@
    } else {
        stem + "-"@ + decimal(k) + ".json"@
    }
}

/// Whether `name` is the first of the names tried for an item that is not taken.
pub open spec fn is_first_free(stem: Seq<char>, taken: Seq<Seq<char>>, name: Seq<char>) -> bool {
    exists|k: nat|
        k >= 1 && name == #[trigger] stepped_name(stem, k) && !taken.contains(name) && (forall|
            m: nat,
        | 1 <= m < k ==> taken.contains(#[trigger] stepped_name(stem, m)))
}

/// An item without a name is called `item`.
pub open spec fn stem_or_item(stem: Seq<char>) -> Seq<char> {
    if stem.len() == 0 {
        "item"@
    } else {
        stem
    }
}

fn stepped(stem: &str, k: u64) -> (r: String)
    ensures
        r@ == stepped_name(stem@, k as nat),
{
    let mut out = stem.to_string();
    if k > 1 {
        out.append("-");
        out.append(decimal_text(k).as_str());
    }
    out.append(".json");
    out
}

/// The file to write an item to, stepping the name aside if it is taken: two different items
/// can reasonably go by the same name, and replacing the older one would lose it.
pub fn library_file_name(stem: &str, taken: &[String]) -> (r: String)
    requires
        taken@.len() < usize::MAX,
    ensures
        !texts(taken@).contains(r@),
        is_first_free(stem_or_item(stem@), texts(taken@), r@),
{
    let base = if stem.is_empty() {
        "item"
    } else {
        stem
    };
    let ghost all = texts(taken@);
    let mut k: u64 = 1;
    loop
        invariant
            1 <= k <= taken@.len() + 1,
            taken@.len() < usize::MAX,
            all == texts(taken@),
            base@ == stem_or_item(stem@),
            forall|m: nat| 1 <= m < k ==> all.contains(#[trigger] stepped_name(base@, m)),
        decreases taken@.len() + 1 - k,
    {
        let name = stepped(base, k);
        if !list_has(taken, name.as_str()) {
            assert(name@ == stepped_name(base@, k as nat));
            return name;
        }
        proof {
            assert(all.contains(stepped_name(base@, k as nat)));
            lemma_tried_names_fit(base@, all, k as nat);
        }
        k = k + 1;
    }
}

// ---------------------------------------------------------------------------
// Folders
// ---------------------------------------------------------------------------

/// What stands behind the last dot of a file name, unless the name starts with it.
pub open spec fn extension(name: Seq<char>) -> Option<Seq<char>> {
    let behind = span_end(name, not_char('.')) as int;
    if behind + 1 >= name.len() {
        None
    } else {
        Some(name.skip(name.len() - behind))
    }
}

pub open spec fn with_extension(ext: Seq<char>) -> spec_fn(Seq<char>) -> bool {
    |name: Seq<char>| extension(name) == Some(ext)
}

pub fn has_extension(name: &str, ext: &str) -> (r: bool)
    ensures
        r == (extension(name@) == Some(ext@)),
{
    let chars = chars_of(name);
    let total: usize = chars.len();
    let f = |c: char| -> (b: bool)
        ensures
            b == (c != '.'),
        { c != '.' };
    let behind: usize = run_before(chars.as_slice(), total, f, Ghost(not_char('.')));
    assert(name@.take(total as int) == name@);
    if behind >= total || behind + 1 >= total {
        return false;
    }
    let tail = name.substring_char(total - behind, total);
    assert(tail@ == name@.skip(total - behind));
    same_text(tail, ext)
}

/// The files of a folder that belong to a pack, in the order they are read.
pub open spec fn pack_files(names: Seq<Seq<char>>, ext: Seq<char>) -> Seq<Seq<char>> {
    sorted_texts(keep(names, with_extension(ext)))
}

/// The files with this extension, in order of their names.
pub fn pack_file_names(names: &Vec<String>, ext: &str) -> (r: Vec<String>)
    ensures
        texts(r@) == pack_files(texts(names@), ext@),
{
    let ghost all = texts(names@);
    let mut out: Vec<String> = Vec::new();
    assert(texts(out@) =~= keep(all.take(0), with_extension(ext@)));
    for i in 0..names.len()
        invariant
            all == texts(names@),
            texts(out@) == keep(all.take(i as int), with_extension(ext@)),
    {
        assert(all.take(i + 1).drop_last() == all.take(i as int));
        assert(all.take(i + 1).last() == names@[i as int]@);
        if has_extension(names[i].as_str(), ext) {
            let ghost before = texts(out@);
            out.push(names[i].clone());
            assert(texts(out@) == before.push(names@[i as int]@));
        }
    }
    assert(all.take(all.len() as int) == all);
    sort_texts(out)
}

// ---------------------------------------------------------------------------
// Filters
// ---------------------------------------------------------------------------

/// The name of rule `index` of an exported set.
pub open spec fn filter_name(index: nat, rule: Rule) -> Seq<char> {
    let schema = match rule.log_schema {
        Some(s) => if is_blank(s) {
            Seq::empty()
        } else {
            "schema-"@ + s + "-"@
        },
        None => Seq::empty(),
    };
    "filter-"@ + padded(index, 3) + "-"@ + schema + rule.action + "-"@ + rule.field + "-"@
        + rule.op + "-"@ + truncated(rule.value, 48)
}

pub fn filter_file_name(index: usize, rule: &FilterRule) -> (r: String)
    ensures
        r@ == filter_name(index as nat, rule@),
{
    let mut out = "filter-".to_string();
    out.append(padded3(index).as_str());
    out.append("-");
    let ghost head = out@;
    assert(head + Seq::<char>::empty() =~= head);
    if let Some(schema) = &rule.log_schema {
        if !blank(schema.as_str()) {
            out.append("schema-");
            out.append(schema.as_str());
            out.append("-");
            assert(out@ =~= head + ("schema-"@ + schema@ + "-"@));
        }
    }
    out.append(rule.action.as_str());
    out.append("-");
    out.append(rule.field.as_str());
    out.append("-");
    out.append(rule.op.as_str());
    out.append("-");
    out.append(truncate(rule.value.as_str(), 48).as_str());
    out
}

/// A bare rule as a library file: named and described after itself.
pub fn filter_file(index: usize, rule: &FilterRule) -> (r: FilterFile)
    ensures
        r.name@ == filter_name(index as nat, rule@),
        r.description@ == rule@.described(),
        r.filter == *rule,
{
    FilterFile {
        name: filter_file_name(index, rule),
        description: rule.describe(),
        filter: rule.clone(),
    }
}

/// What an export of rule `i` writes, and where.
pub open spec fn exports_rule(r: (String, FilterFile), rule: FilterRule, i: int) -> bool {
    &&& r.0@ == pack_name((i + 1) as nat, filter_name((i + 1) as nat, rule@))
    &&& r.1.name@ == filter_name((i + 1) as nat, rule@)
    &&& r.1.description@ == rule@.described()
    &&& r.1.filter == rule
}

/// The files that an export of a set of rules writes.
pub fn filter_export(set: &FilterSet) -> (r: Vec<(String, FilterFile)>)
    ensures
        r@.len() == set.rules@.len(),
        forall|i: int| 0 <= i < r@.len() ==> exports_rule(#[trigger] r@[i], set.rules@[i], i),
{
    let mut out: Vec<(String, FilterFile)> = Vec::new();
    let total: usize = set.rules.len();
    for i in 0..set.rules.len()
        invariant
            total == set.rules@.len(),
            out@.len() == i,
            forall|j: int| 0 <= j < i ==> exports_rule(#[trigger] out@[j], set.rules@[j], j),
    {
        let file = filter_file(i + 1, &set.rules[i]);
        let name = pack_file_name(i + 1, file.name.as_str());
        out.push((name, file));
    }
    out
}

// ---------------------------------------------------------------------------
// Schemas
// ---------------------------------------------------------------------------

/// A schema as a library file holds it.
#[derive(Debug)]
pub struct SchemaFile {
    pub name: String,
    pub description: String,
    pub schema: Extractor,
}

/// A bare schema as a library file: named and described as it is itself.
pub fn schema_file(schema: &Extractor) -> (r: SchemaFile)
    ensures
        r.name@ == schema@.name,
        r.description@ == schema@.description,
        r.schema@ == schema@,
{
    SchemaFile {
        name: schema.name.clone(),
        description: schema.description.clone(),
        schema: schema.clone(),
    }
}

/// What an export of schema `i` writes, and where.
pub open spec fn exports_schema(r: (String, SchemaFile), schema: Extractor, i: int) -> bool {
    &&& r.0@ == pack_name((i + 1) as nat, schema@.name)
    &&& r.1.name@ == schema@.name
    &&& r.1.description@ == schema@.description
    &&& r.1.schema@ == schema@
}

/// The files that an export of schemas writes.
pub fn schema_export(schemas: &[Extractor]) -> (r: Vec<(String, SchemaFile)>)
    ensures
        r@.len() == schemas@.len(),
        forall|i: int| 0 <= i < r@.len() ==> exports_schema(#[trigger] r@[i], schemas@[i], i),
{
    let mut out: Vec<(String, SchemaFile)> = Vec::new();
    let total: usize = schemas.len();
    for i in 0..schemas.len()
        invariant
            total == schemas@.len(),
            out@.len() == i,
            forall|j: int| 0 <= j < i ==> exports_schema(#[trigger] out@[j], schemas@[j], j),
    {
        let file = schema_file(&schemas[i]);
        let name = pack_file_name(i + 1, file.name.as_str());
        out.push((name, file));
    }
    out
}

// ---------------------------------------------------------------------------
// Laws
// ---------------------------------------------------------------------------

pub open spec fn all_safe(s: Seq<char>) -> bool {
    forall|i: int| 0 <= i < s.len() ==> is_safe(#[trigger] s[i])
}

pub open spec fn no_dash(s: Seq<char>) -> bool {
    forall|i: int| 0 <= i < s.len() ==> #[trigger] s[i] != '-'
}

proof fn lemma_dashed_safe(s: Seq<char>)
    ensures
        all_safe(dashed(s)),
    decreases s.len(),
{
    if s.len() > 0 {
        lemma_dashed_safe(s.drop_last());
    }
}

proof fn lemma_dashed_of_safe(s: Seq<char>)
    requires
        all_safe(s),
    ensures
        dashed(s) == s,
    decreases s.len(),
{
    if s.len() > 0 {
        assert(all_safe(s.drop_last()));
        lemma_dashed_of_safe(s.drop_last());
        assert(is_safe(s[s.len() - 1]));
        assert(s.drop_last().push(s.last()) == s);
    } else {
        assert(dashed(s) =~= s);
    }
}

proof fn lemma_split_parts(s: Seq<char>)
    requires
        all_safe(s),
    ensures
        forall|k: int|
            0 <= k < split(s, '-').len() ==> all_safe(#[trigger] split(s, '-')[k]) && no_dash(
                split(s, '-')[k],
            ),
        split(s, '-').len() > 0,
    decreases s.len(),
{
    let n = span(s, not_char('-')) as int;
    crate::text::lemma_span(s, not_char('-'));
    if n < s.len() {
        let rest = s.skip(n + 1);
        assert forall|i: int| 0 <= i < rest.len() implies is_safe(#[trigger] rest[i]) by {
            assert(rest[i] == s[n + 1 + i]);
        }
        lemma_split_parts(rest);
        let head = s.take(n);
        assert forall|i: int| 0 <= i < head.len() implies is_safe(#[trigger] head[i]) && head[i]
            != '-' by {
            assert(head[i] == s[i]);
            assert(not_char('-')(s[i]));
        }
        assert(split(s, '-') == seq![head] + split(rest, '-'));
    } else {
        assert forall|i: int| 0 <= i < s.len() implies #[trigger] s[i] != '-' by {
            assert(not_char('-')(s[i]));
        }
        assert(split(s, '-') == seq![s]);
    }
}

proof fn lemma_join_front(parts: Seq<Seq<char>>, sep: Seq<char>)
    requires
        parts.len() > 1,
    ensures
        join(parts, sep) == parts[0] + sep + join(parts.skip(1), sep),
    decreases parts.len(),
{
    let init = parts.drop_last();
    if parts.len() == 2 {
        assert(init.len() == 1 && init[0] == parts[0]);
        assert(parts.skip(1).len() == 1 && parts.skip(1)[0] == parts.last());
        assert(join(init, sep) == parts[0]);
        assert(join(parts.skip(1), sep) == parts.last());
    } else {
        lemma_join_front(init, sep);
        assert(init.skip(1) == parts.skip(1).drop_last());
        assert(parts.skip(1).last() == parts.last());
        let mid = join(init.skip(1), sep);
        assert(join(parts.skip(1), sep) == mid + sep + parts.last());
        assert(join(parts, sep) == join(init, sep) + sep + parts.last());
        assert(parts[0] + sep + mid + sep + parts.last() =~= parts[0] + sep + (mid + sep
            + parts.last()));
    }
}

proof fn lemma_split_of_join(parts: Seq<Seq<char>>)
    requires
        parts.len() > 0,
        forall|k: int| 0 <= k < parts.len() ==> no_dash(#[trigger] parts[k]),
    ensures
        split(join(parts, "-"@), '-') == parts,
    decreases parts.len(),
{
    reveal_strlit("-");
    let s = join(parts, "-"@);
    let first = parts[0];
    assert(no_dash(first));
    if parts.len() == 1 {
        assert forall|i: int| 0 <= i < s.len() implies not_char('-')(#[trigger] s[i]) by {}
        crate::text::lemma_span_is(s, not_char('-'), s.len());
        assert(split(s, '-') =~= parts);
    } else {
        lemma_join_front(parts, "-"@);
        let rest = parts.skip(1);
        assert forall|k: int| 0 <= k < rest.len() implies no_dash(#[trigger] rest[k]) by {
            assert(rest[k] == parts[k + 1]);
        }
        lemma_split_of_join(rest);
        assert forall|i: int| 0 <= i < first.len() implies not_char('-')(#[trigger] s[i]) by {
            assert(s[i] == first[i]);
        }
        assert(s[first.len() as int] == '-');
        crate::text::lemma_span_is(s, not_char('-'), first.len());
        assert(s.take(first.len() as int) =~= first);
        assert(s.skip(first.len() as int + 1) =~= join(rest, "-"@));
        assert(seq![first] + rest =~= parts);
    }
}

proof fn lemma_join_safe(parts: Seq<Seq<char>>)
    requires
        forall|k: int| 0 <= k < parts.len() ==> all_safe(#[trigger] parts[k]),
    ensures
        all_safe(join(parts, "-"@)),
    decreases parts.len(),
{
    reveal_strlit("-");
    if parts.len() > 1 {
        let init = parts.drop_last();
        assert forall|k: int| 0 <= k < init.len() implies all_safe(#[trigger] init[k]) by {
            assert(init[k] == parts[k]);
        }
        lemma_join_safe(init);
        assert(all_safe(parts[parts.len() - 1]));
    } else if parts.len() == 1 {
        assert(all_safe(parts[0]));
    }
}

/// A sanitized name is never empty, holds only characters that are safe in a file name and so
/// separates no directories, and sanitizing it again changes nothing.
pub proof fn sanitized_names_are_safe(s: Seq<char>)
    ensures
        sanitized(s).len() > 0,
        all_safe(sanitized(s)),
        !sanitized(s).contains('/'),
        sanitized(sanitized(s)) == sanitized(s),
{
    reveal_strlit("filter");
    let d = dashed(s);
    let parts = keep(split(d, '-'), is_full());
    lemma_dashed_safe(s);
    lemma_split_parts(d);
    crate::lists::lemma_keep(split(d, '-'), is_full());
    assert forall|k: int| 0 <= k < parts.len() implies all_safe(#[trigger] parts[k]) && no_dash(
        parts[k],
    ) && parts[k].len() > 0 by {
        assert(is_full()(parts[k]));
        assert(split(d, '-').contains(parts[k]));
        let m = choose|m: int| 0 <= m < split(d, '-').len() && split(d, '-')[m] == parts[k];
        assert(all_safe(split(d, '-')[m]));
    }
    lemma_join_safe(parts);
    let compact = join(parts, "-"@);
    let name = sanitized(s);
    if compact.len() == 0 {
        assert(all_safe(name));
        lemma_dashed_of_safe(name);
        assert forall|i: int| 0 <= i < name.len() implies #[trigger] name[i] != '-' by {}
        let alone = seq![name];
        assert(no_dash(alone[0]));
        lemma_split_of_join(alone);
        assert(join(alone, "-"@) == name);
        assert(is_full()(alone[0]));
        crate::lists::lemma_keep_all(alone, is_full());
    } else {
        assert(parts.len() > 0);
        lemma_dashed_of_safe(compact);
        lemma_split_of_join(parts);
        assert forall|k: int| 0 <= k < parts.len() implies is_full()(#[trigger] parts[k]) by {
            assert(all_safe(parts[k]));
        }
        crate::lists::lemma_keep_all(parts, is_full());
    }
    assert(all_safe(name));
    if name.contains('/') {
        let i = choose|i: int| 0 <= i < name.len() && name[i] == '/';
        assert(is_safe(name[i]));
    }
}

proof fn lemma_decimal_distinct(a: nat, b: nat)
    requires
        decimal(a) == decimal(b),
    ensures
        a == b,
    decreases a,
{
    let x = decimal(a);
    let y = decimal(b);
    if a >= 10 && b >= 10 {
        assert(x.drop_last() =~= decimal(a / 10));
        assert(y.drop_last() =~= decimal(b / 10));
        lemma_decimal_distinct(a / 10, b / 10);
        assert(x.last() == digit_char((a % 10) as int));
        assert(y.last() == digit_char((b % 10) as int));
        assert(a % 10 == b % 10);
    } else if a >= 10 {
        lemma_decimal_filled(a / 10);
        assert(x.len() > 1 && y.len() == 1);
    } else if b >= 10 {
        lemma_decimal_filled(b / 10);
        assert(y.len() > 1 && x.len() == 1);
    } else {
        assert(x[0] == y[0]);
    }
}

proof fn lemma_decimal_filled(n: nat)
    ensures
        decimal(n).len() > 0,
{
}

/// The names tried for an item differ.
proof fn lemma_steps_differ(stem: Seq<char>, i: nat, j: nat)
    requires
        1 <= i < j,
    ensures
        stepped_name(stem, i) != stepped_name(stem, j),
{
    reveal_strlit("-");
    reveal_strlit(".json");
    let a = stepped_name(stem, i);
    let b = stepped_name(stem, j);
    if a == b {
        let n = stem.len() as int;
        assert(b[n] == '-');
        if i <= 1 {
            assert(a[n] == '.');
        } else {
            assert(a.subrange(n + 1, a.len() - 5) =~= decimal(i));
            assert(b.subrange(n + 1, b.len() - 5) =~= decimal(j));
            lemma_decimal_distinct(i, j);
        }
    }
}

/// No more names can be taken than there are taken ones.
proof fn lemma_tried_names_fit(stem: Seq<char>, taken: Seq<Seq<char>>, n: nat)
    requires
        forall|m: nat| 1 <= m <= n ==> taken.contains(#[trigger] stepped_name(stem, m)),
    ensures
        n <= taken.len(),
{
    let tried = Seq::new(n, |i: int| stepped_name(stem, (i + 1) as nat));
    assert forall|i: int, j: int| 0 <= i < j < tried.len() implies tried[i] != tried[j] by {
        lemma_steps_differ(stem, (i + 1) as nat, (j + 1) as nat);
    }
    assert(tried.no_duplicates());
    tried.unique_seq_to_set();
    taken.lemma_cardinality_of_set();
    assert forall|name: Seq<char>| #[trigger] tried.to_set().contains(name) implies taken.to_set().contains(
        name,
    ) by {
        let i = choose|i: int| 0 <= i < tried.len() && tried[i] == name;
        assert(taken.contains(stepped_name(stem, (i + 1) as nat)));
    }
    vstd::set_lib::lemma_len_subset(tried.to_set(), taken.to_set());
}

/// A saved item replaces none: there is always a name to step aside to that is not taken, and
/// the first such is one name only.
pub proof fn saving_steps_aside(stem: Seq<char>, taken: Seq<Seq<char>>)
    ensures
        exists|name: Seq<char>| is_first_free(stem, taken, name),
        forall|a: Seq<char>, b: Seq<char>| #[trigger]
            is_first_free(stem, taken, a) && #[trigger] is_first_free(stem, taken, b) ==> a == b,
        forall|a: Seq<char>| #[trigger] is_first_free(stem, taken, a) ==> !taken.contains(a),
{
    lemma_some_free(stem, taken, 1);
    assert forall|a: Seq<char>, b: Seq<char>| #[trigger]
        is_first_free(stem, taken, a) && #[trigger] is_first_free(stem, taken, b) implies a == b by {
        let i = choose|i: nat|
            i >= 1 && a == #[trigger] stepped_name(stem, i) && !taken.contains(a) && (forall|m: nat|
                1 <= m < i ==> taken.contains(#[trigger] stepped_name(stem, m)));
        let j = choose|j: nat|
            j >= 1 && b == #[trigger] stepped_name(stem, j) && !taken.contains(b) && (forall|m: nat|
                1 <= m < j ==> taken.contains(#[trigger] stepped_name(stem, m)));
        if i < j {
            assert(taken.contains(stepped_name(stem, i)));
        } else if j < i {
            assert(taken.contains(stepped_name(stem, j)));
        }
    }
}

proof fn lemma_some_free(stem: Seq<char>, taken: Seq<Seq<char>>, k: nat)
    requires
        1 <= k <= taken.len() + 1,
        forall|m: nat| 1 <= m < k ==> taken.contains(#[trigger] stepped_name(stem, m)),
    ensures
        exists|name: Seq<char>| is_first_free(stem, taken, name),
    decreases taken.len() + 1 - k,
{
    if taken.contains(stepped_name(stem, k)) {
        lemma_tried_names_fit(stem, taken, k);
        lemma_some_free(stem, taken, k + 1);
    } else {
        assert(is_first_free(stem, taken, stepped_name(stem, k)));
    }
}

/// An index is written in three digits or more: what is put in front of the number is zeros, and
/// they stop where three are reached.
pub proof fn an_index_is_three_digits(n: nat)
    ensures
        padded(n, 3).len() == if decimal(n).len() < 3 {
            3
        } else {
            decimal(n).len()
        },
        crate::text::digits_value(padded(n, 3)) == n,
{
    let k = 3 - decimal(n).len();
    crate::text::numbers_read_as_they_are_written(n);
    if k > 0 {
        lemma_leading_zeros(k as nat, decimal(n));
    } else {
        assert(padded(n, 3) =~= decimal(n));
    }
}

proof fn lemma_leading_zeros(k: nat, digits: Seq<char>)
    ensures
        crate::text::digits_value(crate::timestamp::zeros(k as int) + digits)
            == crate::text::digits_value(digits),
    decreases digits.len(), k,
{
    let zeros = crate::timestamp::zeros(k as int);
    let all = zeros + digits;
    if digits.len() > 0 {
        lemma_leading_zeros(k, digits.drop_last());
        assert(all.drop_last() =~= zeros + digits.drop_last());
        assert(all.last() == digits.last());
    } else if k > 0 {
        let fewer = (k - 1) as nat;
        lemma_leading_zeros(fewer, digits);
        assert(all.drop_last() =~= crate::timestamp::zeros(fewer as int) + digits);
        assert(all.last() == '0');
    } else {
        assert(all =~= digits);
    }
}

/// The extension of a file is what stands behind its last dot; a name without a dot, or with
/// none but at its start, has none.
pub proof fn an_extension_stands_behind_the_last_dot(stem: Seq<char>, ext: Seq<char>)
    requires
        !ext.contains('.'),
    ensures
        stem.len() > 0 ==> extension(stem + seq!['.'] + ext) == Some(ext),
        extension(seq!['.'] + ext) is None,
        extension(ext) is None,
{
    let p = not_char('.');
    let named = stem + seq!['.'] + ext;
    let hidden = seq!['.'] + ext;
    assert forall|i: int| 0 <= i < ext.len() implies p(#[trigger] ext[i]) by {
        assert(ext.contains(ext[i]));
    }
    assert forall|i: int| named.len() - ext.len() <= i < named.len() implies p(
        #[trigger] named[i],
    ) by {
        assert(named[i] == ext[i - stem.len() - 1]);
    }
    assert(named[named.len() - ext.len() - 1] == '.');
    crate::text::lemma_span_end_is(named, p, ext.len());
    assert(named.skip(named.len() - ext.len()) =~= ext);
    assert forall|i: int| hidden.len() - ext.len() <= i < hidden.len() implies p(
        #[trigger] hidden[i],
    ) by {
        assert(hidden[i] == ext[i - 1]);
    }
    assert(hidden[hidden.len() - ext.len() - 1] == '.');
    crate::text::lemma_span_end_is(hidden, p, ext.len());
    crate::text::lemma_span_end_is(ext, p, ext.len());
}

} // verus!
