//! Filter rules, and the set a view applies.

use crate::library::{opt_tier, Origin, Tier};
use crate::lists::{clone_option, count, keep, lemma_keep, lemma_keep_all};
use crate::models::{EntryParts, FileParts, LogEntry, LogFileModel};
use crate::pattern::{matches_pattern, pattern_matches};
use crate::shell::{quote, quoted};
use crate::text::{
    a_text_is_cut_at_the_first_separator, blank, find, is_ascii, is_blank, is_text_less,
    lemma_text_less_irreflexive, lemma_text_less_total, lemma_text_less_transitive, lowercase,
    lowercase_of, opt_text, reads_at, same_option, same_text, small_letter, split_once,
    text_contains, text_less, text_split_once, the_first_place_is_found, trim, trimmed,
};
use crate::timestamp::{
    instant, is_instant, parse_datetime, stamp_less, times_are_ordered_as_instants, typed_time,
    Parts,
};
use vstd::prelude::*;

verus! {

/// How a rule compares a field with its value.
pub const OPS: [&'static str; 4] = ["equals", "contains", "regex", "range"];

/// What a rule does with the entries it matches.
pub const ACTIONS: [&'static str; 2] = ["include", "exclude"];

/// One filter: which field, how it is compared with what, and whether a match shows or hides.
#[derive(Debug, PartialEq, Eq)]
pub struct FilterRule {
    pub log_schema: Option<String>,
    pub field: String,
    pub op: String,
    pub value: String,
    pub action: String,
    pub enabled: bool,
    /// Which library this rule was picked from; none for one typed by hand. Provenance, not
    /// identity: `same_rule` ignores it.
    pub origin: Option<Origin>,
}

/// What a rule is.
#[verifier::ext_equal]
pub struct Rule {
    pub log_schema: Option<Seq<char>>,
    pub field: Seq<char>,
    pub op: Seq<char>,
    pub value: Seq<char>,
    pub action: Seq<char>,
    pub enabled: bool,
    pub origin: Option<Tier>,
}

impl View for FilterRule {
    type V = Rule;

    open spec fn view(&self) -> Rule {
        Rule {
            log_schema: opt_text(self.log_schema),
            field: self.field@,
            op: self.op@,
            value: self.value@,
            action: self.action@,
            enabled: self.enabled,
            origin: opt_tier(self.origin),
        }
    }
}

impl Clone for FilterRule {
    fn clone(&self) -> (r: Self)
        ensures
            r == *self,
    {
        FilterRule {
            log_schema: clone_option(&self.log_schema),
            field: self.field.clone(),
            op: self.op.clone(),
            value: self.value.clone(),
            action: self.action.clone(),
            enabled: self.enabled,
            origin: match &self.origin {
                Some(o) => Some(o.clone()),
                None => None,
            },
        }
    }
}

/// The rules of a view.
#[derive(Debug, PartialEq, Eq)]
pub struct FilterSet {
    pub rules: Vec<FilterRule>,
}

pub open spec fn rule_views(v: Seq<FilterRule>) -> Seq<Rule> {
    v.map_values(|r: FilterRule| r@)
}

impl View for FilterSet {
    type V = Seq<Rule>;

    open spec fn view(&self) -> Seq<Rule> {
        rule_views(self.rules@)
    }
}

impl Clone for FilterSet {
    fn clone(&self) -> (r: Self)
        ensures
            r@ == self@,
            r.rules@ == self.rules@,
    {
        let mut rules: Vec<FilterRule> = Vec::new();
        for i in 0..self.rules.len()
            invariant
                rules@ == self.rules@.take(i as int),
        {
            rules.push(self.rules[i].clone());
        }
        assert(rules@ == self.rules@);
        FilterSet { rules }
    }
}

impl Default for FilterSet {
    fn default() -> (r: Self)
        ensures
            r@ == Seq::<Rule>::empty(),
            r.rules@ == Seq::<FilterRule>::empty(),
    {
        let r = FilterSet { rules: Vec::new() };
        assert(r@ =~= Seq::<Rule>::empty());
        r
    }
}

/// A rule as a library file holds it.
#[derive(Debug, PartialEq, Eq)]
pub struct FilterFile {
    pub name: String,
    pub description: String,
    pub filter: FilterRule,
}

pub open spec fn is_time_name(field: Seq<char>) -> bool {
    field == "timestamp"@ || field == "time"@ || field == "ts"@
}

/// The two ends of a range; one without dots is only a start.
pub open spec fn range_ends(value: Seq<char>) -> (Seq<char>, Seq<char>) {
    match split_once(value, ".."@) {
        Some(ends) => ends,
        None => (value, Seq::empty()),
    }
}

/// The time that one end of a range names; an open end, or one that names no time, bounds
/// nothing.
pub open spec fn range_bound(end: Seq<char>) -> Option<Parts> {
    if is_blank(end) {
        None
    } else {
        typed_time(end)
    }
}

/// Whether a time lies in the range `lo..hi`, ends and all.
pub open spec fn in_time_range(t: Parts, lo: Option<Parts>, hi: Option<Parts>) -> bool {
    !(lo is Some && stamp_less(t, lo->0)) && !(hi is Some && stamp_less(hi->0, t))
}

impl Rule {
    /// Whether both filter the same way, wherever they came from.
    pub open spec fn same_as(self, other: Rule) -> bool {
        self == (Rule { origin: self.origin, ..other })
    }

    /// A range over the timestamp: the "when" filter.
    pub open spec fn is_time_range(self) -> bool {
        self.op == "range"@ && is_time_name(self.field)
    }

    /// Whether the rule concerns an entry at all: one without a schema concerns every entry.
    pub open spec fn applies(self, file: FileParts, entry: EntryParts) -> bool {
        match self.log_schema {
            Some(schema) => is_blank(schema) || file.schema_name(entry) == trimmed(schema),
            None => true,
        }
    }

    /// Whether an entry lies in the rule's range: of times, or of texts in dictionary order.
    pub open spec fn range_holds(self, file: FileParts, entry: EntryParts) -> bool {
        let (start, end) = range_ends(self.value);
        if is_time_name(self.field) {
            match file.time(entry) {
                Some(t) => in_time_range(t, range_bound(start), range_bound(end)),
                None => false,
            }
        } else {
            let value = file.field(entry, self.field);
            !(start.len() > 0 && text_less(value, start)) && !(end.len() > 0 && text_less(
                end,
                value,
            ))
        }
    }

    /// Whether an entry meets the rule's comparison.
    pub open spec fn holds(self, file: FileParts, entry: EntryParts) -> bool {
        let value = file.field(entry, self.field);
        if self.op == "range"@ {
            self.range_holds(file, entry)
        } else if self.op == "equals"@ {
            value == self.value
        } else if self.op == "contains"@ {
            contains_any_case(value, self.value)
        } else if self.op == "regex"@ {
            pattern_matches(self.value, value)
        } else {
            false
        }
    }

    /// Whether an entry is one the rule is about and meets it.
    pub open spec fn matches(self, file: FileParts, entry: EntryParts) -> bool {
        self.applies(file, entry) && self.holds(file, entry)
    }

    /// The rule in words.
    pub open spec fn described(self) -> Seq<char> {
        let schema = match self.log_schema {
            Some(s) => if is_blank(s) {
                Seq::empty()
            } else {
                " on schema '"@ + s + "'"@
            },
            None => Seq::empty(),
        };
        let state = if self.enabled {
            Seq::empty()
        } else {
            " (off)"@
        };
        self.action + " "@ + self.field + " "@ + self.op + " '"@ + self.value + "'"@ + schema
            + state
    }

    /// The rule as the editor's own syntax writes it.
    pub open spec fn as_input(self) -> Seq<char> {
        let schema = match self.log_schema {
            Some(s) => if is_blank(s) {
                Seq::empty()
            } else {
                quoted("schema="@ + trimmed(s)) + " "@
            },
            None => Seq::empty(),
        };
        schema + (self.field + " "@ + self.op + " "@ + self.action + " "@ + quoted(self.value))
    }
}

// ---------------------------------------------------------------------------
// Containment without regard to case
// ---------------------------------------------------------------------------

/// Whether both letters are the same but for ASCII case.
pub open spec fn same_letter(a: char, b: char) -> bool {
    small_letter(a) == small_letter(b)
}

/// Whether `needle` stands at `at`, but for ASCII case.
pub open spec fn stands_any_case(s: Seq<char>, needle: Seq<char>, at: int) -> bool {
    forall|i: int|
        0 <= i < needle.len() ==> same_letter(s[at + i], #[trigger] needle[i])
}

/// Whether `needle` occurs in `s` without regard to case: an ASCII needle by ASCII letters,
/// any other by the lower-case forms of both.
pub open spec fn contains_any_case(s: Seq<char>, needle: Seq<char>) -> bool {
    if needle.len() == 0 {
        true
    } else if !is_ascii(needle) {
        find(lowercase_of(s), lowercase_of(needle)) is Some
    } else {
        exists|at: int|
            0 <= at <= s.len() - needle.len() && #[trigger] stands_any_case(s, needle, at)
    }
}

pub(crate) fn small_code(c: char) -> (r: u32)
    ensures
        r == small_letter(c) as u32,
{
    let n: u32 = c as u32;
    if 'A' <= c && c <= 'Z' {
        n + 32
    } else {
        n
    }
}

/// Case-insensitive substring test.
pub fn contains_ignore_case(haystack: &str, needle: &str) -> (r: bool)
    ensures
        r == contains_any_case(haystack@, needle@),
{
    if needle.is_empty() {
        return true;
    }
    let sought = crate::text::chars_of(needle);
    for i in 0..sought.len()
        invariant
            sought@ == needle@,
            needle@.len() > 0,
            forall|j: int| 0 <= j < i ==> (#[trigger] needle@[j] as u32) < 128,
    {
        if sought[i] as u32 >= 128 {
            assert(!is_ascii(needle@));
            return text_contains(lowercase(haystack).as_str(), lowercase(needle).as_str());
        }
    }
    let chars = crate::text::chars_of(haystack);
    let total: usize = chars.len();
    if sought.len() > total {
        return false;
    }
    let last: usize = total - sought.len();
    let mut at: usize = 0;
    loop
        invariant
            sought@ == needle@,
            chars@ == haystack@,
            total == haystack@.len(),
            needle@.len() > 0,
            is_ascii(needle@),
            last == haystack@.len() - needle@.len(),
            at <= last,
            forall|k: int| 0 <= k < at ==> !#[trigger] stands_any_case(haystack@, needle@, k),
        decreases last - at,
    {
        let mut same = true;
        let mut i: usize = 0;
        while i < sought.len() && same
            invariant
                sought@ == needle@,
                chars@ == haystack@,
                total == haystack@.len(),
                at + needle@.len() <= haystack@.len(),
                i <= needle@.len(),
                same ==> forall|j: int|
                    0 <= j < i ==> same_letter(haystack@[at + j], #[trigger] needle@[j]),
                !same ==> !stands_any_case(haystack@, needle@, at as int),
            decreases needle@.len() - i,
        {
            let a: u32 = small_code(chars[at + i]);
            let b: u32 = small_code(sought[i]);
            if a != b {
                assert(!same_letter(haystack@[at + i], needle@[i as int]));
                same = false;
            } else {
                assert(same_letter(haystack@[at + i], needle@[i as int]));
            }
            i = i + 1;
        }
        if same {
            assert(stands_any_case(haystack@, needle@, at as int));
            return true;
        }
        if at == last {
            return false;
        }
        at = at + 1;
    }
}

// ---------------------------------------------------------------------------
// Rules
// ---------------------------------------------------------------------------

impl FilterRule {
    pub fn new(field: &str, op: &str, value: &str, action: &str) -> (r: Self)
        ensures
            r@ == (Rule {
                log_schema: None,
                field: field@,
                op: op@,
                value: value@,
                action: action@,
                enabled: true,
                origin: None,
            }),
    {
        FilterRule {
            log_schema: None,
            field: field.to_string(),
            op: op.to_string(),
            value: value.to_string(),
            action: action.to_string(),
            enabled: true,
            origin: None,
        }
    }

    /// Tag this rule with the library it came from.
    pub fn from_library(self, origin: Origin) -> (r: Self)
        ensures
            r == (FilterRule { origin: Some(origin), ..self }),
    {
        FilterRule { origin: Some(origin), ..self }
    }

    /// Whether two rules filter the same way. Ignores `origin`: the same rule picked from two
    /// different tiers is one rule.
    pub fn same_rule(&self, other: &Self) -> (r: bool)
        ensures
            r == self@.same_as(other@),
    {
        same_option(&self.log_schema, &other.log_schema) && same_text(
            self.field.as_str(),
            other.field.as_str(),
        ) && same_text(self.op.as_str(), other.op.as_str()) && same_text(
            self.value.as_str(),
            other.value.as_str(),
        ) && same_text(self.action.as_str(), other.action.as_str()) && self.enabled
            == other.enabled
    }

    /// Restrict this rule to one schema; a blank name lifts the restriction.
    pub fn for_log_schema(self, log_schema: &str) -> (r: Self)
        ensures
            r@ == (Rule {
                log_schema: if is_blank(log_schema@) {
                    None
                } else {
                    Some(log_schema@)
                },
                ..self@
            }),
    {
        let scope = if blank(log_schema) {
            None
        } else {
            Some(log_schema.to_string())
        };
        FilterRule { log_schema: scope, ..self }
    }

    /// A range over the timestamp: the "when" filter, of which a project wants only one.
    pub fn is_time_range(&self) -> (r: bool)
        ensures
            r == self@.is_time_range(),
    {
        same_text(self.op.as_str(), "range") && names_time(self.field.as_str())
    }

    /// The two ends of a time range, either of which may be open.
    pub fn time_bounds(&self) -> (r: (&str, &str))
        ensures
            r.0@ == trimmed(range_ends(self@.value).0),
            r.1@ == trimmed(range_ends(self@.value).1),
    {
        let (start, end) = ends_of(self.value.as_str());
        (trim(start), trim(end))
    }

    pub fn applies_to_log_schema(&self, file: &LogFileModel, entry: &LogEntry) -> (r: bool)
        ensures
            r == self@.applies(file@, entry@),
    {
        match &self.log_schema {
            Some(schema) => blank(schema.as_str()) || same_text(
                file.log_schema_name_for(entry),
                trim(schema.as_str()),
            ),
            None => true,
        }
    }

    pub fn matches(&self, file: &LogFileModel, entry: &LogEntry) -> (r: bool)
        ensures
            r == self@.matches(file@, entry@),
    {
        self.applies_to_log_schema(file, entry) && self.matches_with(file, entry)
    }

    fn matches_with(&self, file: &LogFileModel, entry: &LogEntry) -> (r: bool)
        ensures
            r == self@.holds(file@, entry@),
    {
        let op = self.op.as_str();
        if same_text(op, "range") {
            return self.range_match(file, entry);
        }
        let value = file.get_field(entry, self.field.as_str());
        if same_text(op, "equals") {
            same_text(value.as_str(), self.value.as_str())
        } else if same_text(op, "contains") {
            contains_ignore_case(value.as_str(), self.value.as_str())
        } else if same_text(op, "regex") {
            matches_pattern(self.value.as_str(), value.as_str())
        } else {
            false
        }
    }

    fn range_match(&self, file: &LogFileModel, entry: &LogEntry) -> (r: bool)
        ensures
            r == self@.range_holds(file@, entry@),
    {
        let (start, end) = ends_of(self.value.as_str());
        if names_time(self.field.as_str()) {
            let t = match file.timestamp(entry) {
                Some(t) => t,
                None => {
                    return false;
                },
            };
            if !blank(start) {
                if let Some(lo) = parse_datetime(start) {
                    if t.before(&lo) {
                        return false;
                    }
                }
            }
            if !blank(end) {
                if let Some(hi) = parse_datetime(end) {
                    if hi.before(&t) {
                        return false;
                    }
                }
            }
            return true;
        }
        let value = file.get_field(entry, self.field.as_str());
        if !start.is_empty() && is_text_less(value.as_str(), start) {
            return false;
        }
        if !end.is_empty() && is_text_less(end, value.as_str()) {
            return false;
        }
        true
    }

    /// The rule written in the editor's own syntax.
    pub fn to_input(&self) -> (r: String)
        ensures
            r@ == self@.as_input(),
    {
        let mut out = String::new();
        if let Some(schema) = &self.log_schema {
            if !blank(schema.as_str()) {
                let name = "schema=".to_string().concat(trim(schema.as_str()));
                out.append(quote(name.as_str()).as_str());
                out.append(" ");
                assert(out@ =~= quoted("schema="@ + trimmed(schema@)) + " "@);
            }
        }
        let ghost head = out@;
        let mut body = self.field.clone();
        body.append(" ");
        body.append(self.op.as_str());
        body.append(" ");
        body.append(self.action.as_str());
        body.append(" ");
        body.append(quote(self.value.as_str()).as_str());
        out.append(body.as_str());
        out
    }

    pub fn describe(&self) -> (r: String)
        ensures
            r@ == self@.described(),
    {
        let mut out = self.action.clone();
        out.append(" ");
        out.append(self.field.as_str());
        out.append(" ");
        out.append(self.op.as_str());
        out.append(" '");
        out.append(self.value.as_str());
        out.append("'");
        let ghost base = out@;
        assert(base + Seq::<char>::empty() =~= base);
        if let Some(schema) = &self.log_schema {
            if !blank(schema.as_str()) {
                out.append(" on schema '");
                out.append(schema.as_str());
                out.append("'");
                assert(out@ =~= base + (" on schema '"@ + schema@ + "'"@));
            }
        }
        let ghost scoped = out@;
        assert(scoped + Seq::<char>::empty() =~= scoped);
        if !self.enabled {
            out.append(" (off)");
        }
        out
    }
}

fn names_time(field: &str) -> (r: bool)
    ensures
        r == is_time_name(field@),
{
    same_text(field, "timestamp") || same_text(field, "time") || same_text(field, "ts")
}

fn ends_of<'a>(value: &'a str) -> (r: (&'a str, &'a str))
    ensures
        (r.0@, r.1@) == range_ends(value@),
{
    match text_split_once(value, "..") {
        Some((start, end)) => (start, end),
        None => {
            proof {
                reveal_strlit("");
            }
            assert(""@ =~= Seq::<char>::empty());
            (value, "")
        },
    }
}

// ---------------------------------------------------------------------------
// What a set of rules shows
// ---------------------------------------------------------------------------

/// An enabled rule with this action.
pub open spec fn in_force(rule: Rule, action: Seq<char>) -> bool {
    rule.enabled && rule.action == action
}

/// Whether some rule in force with this action is about the entry.
pub open spec fn some_applies(
    rules: Seq<Rule>,
    action: Seq<char>,
    file: FileParts,
    entry: EntryParts,
) -> bool {
    exists|i: int|
        0 <= i < rules.len() && in_force(#[trigger] rules[i], action) && rules[i].applies(
            file,
            entry,
        )
}

/// Whether some rule in force with this action is about the entry and holds of it.
pub open spec fn some_matches(
    rules: Seq<Rule>,
    action: Seq<char>,
    file: FileParts,
    entry: EntryParts,
) -> bool {
    exists|i: int|
        0 <= i < rules.len() && in_force(#[trigger] rules[i], action) && rules[i].matches(
            file,
            entry,
        )
}

/// Whether an entry is shown: where any include rule is about it, one must match; and no
/// exclude rule may.
pub open spec fn is_visible(rules: Seq<Rule>, file: FileParts, entry: EntryParts) -> bool {
    &&& some_applies(rules, "include"@, file, entry) ==> some_matches(
        rules,
        "include"@,
        file,
        entry,
    )
    &&& !some_matches(rules, "exclude"@, file, entry)
}

/// The rules of a set that are in force, split by action. Build once, then ask for every
/// entry.
pub struct PreparedFilters<'a> {
    pub includes: Vec<&'a FilterRule>,
    pub excludes: Vec<&'a FilterRule>,
}

pub open spec fn ref_views(v: Seq<&FilterRule>) -> Seq<Rule> {
    v.map_values(|r: &FilterRule| r@)
}

pub open spec fn with_action(action: Seq<char>) -> spec_fn(Rule) -> bool {
    |r: Rule| in_force(r, action)
}

impl<'a> PreparedFilters<'a> {
    /// Whether these are the rules in force of `rules`.
    pub open spec fn prepared_from(self, rules: Seq<Rule>) -> bool {
        &&& ref_views(self.includes@) == keep(rules, with_action("include"@))
        &&& ref_views(self.excludes@) == keep(rules, with_action("exclude"@))
    }

    pub fn visible(&self, file: &LogFileModel, entry: &LogEntry) -> (r: bool)
        ensures
            r == ((any_applies(ref_views(self.includes@), file@, entry@) ==> any_matches(
                ref_views(self.includes@),
                file@,
                entry@,
            )) && !any_matches(ref_views(self.excludes@), file@, entry@)),
            forall|rules: Seq<Rule>| #[trigger]
                self.prepared_from(rules) ==> r == is_visible(rules, file@, entry@),
    {
        let (applies, matched) = any_of(&self.includes, file, entry);
        let (_, hidden) = any_of(&self.excludes, file, entry);
        let r = (!applies || matched) && !hidden;
        assert forall|rules: Seq<Rule>| #[trigger] self.prepared_from(rules) implies r
            == is_visible(rules, file@, entry@) by {
            lemma_kept_rules(rules, "include"@, file@, entry@);
            lemma_kept_rules(rules, "exclude"@, file@, entry@);
        }
        r
    }
}

/// Whether any of these rules is about the entry, and whether any also holds of it.
pub open spec fn any_applies(rules: Seq<Rule>, file: FileParts, entry: EntryParts) -> bool {
    exists|i: int| 0 <= i < rules.len() && (#[trigger] rules[i]).applies(file, entry)
}

pub open spec fn any_matches(rules: Seq<Rule>, file: FileParts, entry: EntryParts) -> bool {
    exists|i: int| 0 <= i < rules.len() && (#[trigger] rules[i]).matches(file, entry)
}

fn any_of(rules: &Vec<&FilterRule>, file: &LogFileModel, entry: &LogEntry) -> (r: (bool, bool))
    ensures
        r.0 == any_applies(ref_views(rules@), file@, entry@),
        r.1 == any_matches(ref_views(rules@), file@, entry@),
{
    let ghost all = ref_views(rules@);
    let mut applies = false;
    for i in 0..rules.len()
        invariant
            all == ref_views(rules@),
            applies == (exists|j: int| 0 <= j < i && (#[trigger] all[j]).applies(file@, entry@)),
            forall|j: int| 0 <= j < i ==> !(#[trigger] all[j]).matches(file@, entry@),
    {
        assert(all[i as int] == rules@[i as int]@);
        let ghost before = applies;
        if rules[i].applies_to_log_schema(file, entry) {
            applies = true;
            if rules[i].matches_with(file, entry) {
                assert(all[i as int].matches(file@, entry@));
                return (true, true);
            }
        }
        assert(applies == (exists|j: int|
            0 <= j < i + 1 && (#[trigger] all[j]).applies(file@, entry@))) by {
            if before {
                let j = choose|j: int| 0 <= j < i && (#[trigger] all[j]).applies(file@, entry@);
                assert(0 <= j < i + 1 && all[j].applies(file@, entry@));
            }
        }
    }
    (applies, false)
}

proof fn lemma_kept_rules(
    rules: Seq<Rule>,
    action: Seq<char>,
    file: FileParts,
    entry: EntryParts,
)
    ensures
        any_applies(keep(rules, with_action(action)), file, entry) == some_applies(
            rules,
            action,
            file,
            entry,
        ),
        any_matches(keep(rules, with_action(action)), file, entry) == some_matches(
            rules,
            action,
            file,
            entry,
        ),
{
    let p = with_action(action);
    let kept = keep(rules, p);
    lemma_keep(rules, p);
    assert forall|i: int| 0 <= i < kept.len() implies rules.contains(#[trigger] kept[i]) && in_force(
        kept[i],
        action,
    ) by {
        assert(p(kept[i]));
    }
    assert forall|i: int| 0 <= i < rules.len() && in_force(#[trigger] rules[i], action) implies
        kept.contains(rules[i]) by {
        assert(p(rules[i]));
    }
    if any_applies(kept, file, entry) {
        let k = choose|k: int| 0 <= k < kept.len() && (#[trigger] kept[k]).applies(file, entry);
        let i = choose|i: int| 0 <= i < rules.len() && rules[i] == kept[k];
        assert(in_force(rules[i], action) && rules[i].applies(file, entry));
    }
    if some_applies(rules, action, file, entry) {
        let i = choose|i: int|
            0 <= i < rules.len() && in_force(#[trigger] rules[i], action) && rules[i].applies(
                file,
                entry,
            );
        let k = choose|k: int| 0 <= k < kept.len() && kept[k] == rules[i];
        assert(kept[k].applies(file, entry));
    }
    if any_matches(kept, file, entry) {
        let k = choose|k: int| 0 <= k < kept.len() && (#[trigger] kept[k]).matches(file, entry);
        let i = choose|i: int| 0 <= i < rules.len() && rules[i] == kept[k];
        assert(in_force(rules[i], action) && rules[i].matches(file, entry));
    }
    if some_matches(rules, action, file, entry) {
        let i = choose|i: int|
            0 <= i < rules.len() && in_force(#[trigger] rules[i], action) && rules[i].matches(
                file,
                entry,
            );
        let k = choose|k: int| 0 <= k < kept.len() && kept[k] == rules[i];
        assert(kept[k].matches(file, entry));
    }
}

/// The predicate "is not the time range".
pub open spec fn is_text_rule() -> spec_fn(FilterRule) -> bool {
    |r: FilterRule| !r@.is_time_range()
}

/// The first time range at or after `i`; the length where there is none.
pub open spec fn first_time(rules: Seq<FilterRule>, i: int) -> int
    decreases rules.len() - i,
{
    if i >= rules.len() || rules[i]@.is_time_range() {
        i
    } else {
        first_time(rules, i + 1)
    }
}

/// The last time range before `n`; -1 where there is none.
pub open spec fn last_time(rules: Seq<FilterRule>, n: int) -> int
    decreases n,
{
    if n <= 0 {
        -1
    } else if rules[n - 1]@.is_time_range() {
        n - 1
    } else {
        last_time(rules, n - 1)
    }
}

/// The rules without any time range.
pub open spec fn without_time(rules: Seq<FilterRule>) -> Seq<FilterRule> {
    keep(rules, is_text_rule())
}

/// The rules with `rule` as their one time range, where the first one was, else at the end.
pub open spec fn with_time(rules: Seq<FilterRule>, rule: FilterRule) -> Seq<FilterRule> {
    let rest = without_time(rules);
    let at = first_time(rules, 0);
    rest.insert(
        if at < rest.len() {
            at
        } else {
            rest.len() as int
        },
        rule,
    )
}

/// Of the first `n` rules those that are not a time range, and the one at `kept`.
pub open spec fn deduped(rules: Seq<FilterRule>, kept: int, n: int) -> Seq<FilterRule>
    decreases n,
{
    if n <= 0 {
        Seq::empty()
    } else if !rules[n - 1]@.is_time_range() || n - 1 == kept {
        deduped(rules, kept, n - 1).push(rules[n - 1])
    } else {
        deduped(rules, kept, n - 1)
    }
}

/// The rules with every time range but the last taken out.
pub open spec fn one_time(rules: Seq<FilterRule>) -> Seq<FilterRule> {
    deduped(rules, last_time(rules, rules.len() as int), rules.len() as int)
}

/// Of the first `n` rules those that are not the time range, with their places.
pub open spec fn plain_rules(rules: Seq<FilterRule>, n: int) -> Seq<(usize, FilterRule)>
    decreases n,
{
    if n <= 0 {
        Seq::empty()
    } else if !rules[n - 1]@.is_time_range() {
        plain_rules(rules, n - 1).push(((n - 1) as usize, rules[n - 1]))
    } else {
        plain_rules(rules, n - 1)
    }
}

/// A list of rules with their places.
pub open spec fn placed(v: Seq<(usize, &FilterRule)>) -> Seq<(usize, FilterRule)> {
    v.map_values(|p: (usize, &FilterRule)| (p.0, *p.1))
}

impl FilterSet {
    pub fn prepare(&self) -> (r: PreparedFilters<'_>)
        ensures
            r.prepared_from(self@),
    {
        PreparedFilters { includes: self.with("include"), excludes: self.with("exclude") }
    }

    /// The rules in force with this action.
    fn with(&self, action: &str) -> (r: Vec<&FilterRule>)
        ensures
            ref_views(r@) == keep(self@, with_action(action@)),
    {
        let ghost all = self@;
        let mut out: Vec<&FilterRule> = Vec::new();
        assert(ref_views(out@) =~= keep(all.take(0), with_action(action@)));
        for i in 0..self.rules.len()
            invariant
                all == rule_views(self.rules@),
                ref_views(out@) == keep(all.take(i as int), with_action(action@)),
        {
            assert(all.take(i + 1).drop_last() == all.take(i as int));
            assert(all.take(i + 1).last() == self.rules@[i as int]@);
            let rule = &self.rules[i];
            if rule.enabled && same_text(rule.action.as_str(), action) {
                let ghost before = ref_views(out@);
                out.push(rule);
                assert(ref_views(out@) == before.push(rule@));
            }
        }
        assert(all.take(all.len() as int) == all);
        out
    }

    pub fn visible(&self, file: &LogFileModel, entry: &LogEntry) -> (r: bool)
        ensures
            r == is_visible(self@, file@, entry@),
    {
        self.prepare().visible(file, entry)
    }

    /// Add a rule, except that a time range replaces every one already there: two ranges over
    /// the same field can only ever intersect, and the second one is what was just asked for.
    pub fn add(&mut self, rule: FilterRule)
        ensures
            final(self).rules@ == if rule@.is_time_range() {
                with_time(old(self).rules@, rule)
            } else {
                old(self).rules@.push(rule)
            },
    {
        if rule.is_time_range() {
            self.set_time(rule);
        } else {
            self.rules.push(rule);
        }
    }

    pub fn clear(&mut self)
        ensures
            final(self).rules@ == Seq::<FilterRule>::empty(),
    {
        self.rules.clear();
    }

    /// Where the single time range lives, if there is one.
    pub fn time_index(&self) -> (r: Option<usize>)
        ensures
            match r {
                Some(i) => i == first_time(self.rules@, 0) && i < self.rules@.len(),
                None => first_time(self.rules@, 0) == self.rules@.len(),
            },
    {
        for i in 0..self.rules.len()
            invariant
                first_time(self.rules@, 0) == first_time(self.rules@, i as int),
        {
            if self.rules[i].is_time_range() {
                return Some(i);
            }
        }
        None
    }

    pub fn time_rule(&self) -> (r: Option<&FilterRule>)
        ensures
            match r {
                Some(rule) => first_time(self.rules@, 0) < self.rules@.len() && *rule
                    == self.rules@[first_time(self.rules@, 0)],
                None => first_time(self.rules@, 0) == self.rules@.len(),
            },
    {
        match self.time_index() {
            Some(i) => Some(&self.rules[i]),
            None => None,
        }
    }

    /// Install the one time range, in place of every earlier one.
    pub fn set_time(&mut self, rule: FilterRule)
        ensures
            final(self).rules@ == with_time(old(self).rules@, rule),
    {
        let at: usize = match self.time_index() {
            Some(i) => i,
            None => self.rules.len(),
        };
        self.clear_time();
        let len: usize = self.rules.len();
        self.rules.insert(
            if at < len {
                at
            } else {
                len
            },
            rule,
        );
    }

    pub fn clear_time(&mut self)
        ensures
            final(self).rules@ == without_time(old(self).rules@),
    {
        let mut out: Vec<FilterRule> = Vec::new();
        let ghost all = self.rules@;
        assert(out@ =~= keep(all.take(0), is_text_rule()));
        for i in 0..self.rules.len()
            invariant
                all == self.rules@,
                out@ == keep(all.take(i as int), is_text_rule()),
        {
            assert(all.take(i + 1).drop_last() == all.take(i as int));
            assert(all.take(i + 1).last() == all[i as int]);
            if !self.rules[i].is_time_range() {
                out.push(self.rules[i].clone());
            }
        }
        assert(all.take(all.len() as int) == all);
        self.rules = out;
    }

    /// Collapse any accumulation of time ranges to the last one, the latest intent.
    pub fn dedupe_time_range(&mut self)
        ensures
            final(self).rules@ == one_time(old(self).rules@),
    {
        let ghost all = self.rules@;
        let len: usize = self.rules.len();
        let mut last: usize = len;
        let mut n: usize = len;
        while n > 0 && last == len
            invariant
                len == self.rules@.len(),
                all == self.rules@,
                n <= len,
                last == len ==> last_time(all, len as int) == last_time(all, n as int),
                last != len ==> last_time(all, len as int) == last,
                last <= len,
            decreases n,
        {
            if self.rules[n - 1].is_time_range() {
                last = n - 1;
            }
            n = n - 1;
        }
        let mut out: Vec<FilterRule> = Vec::new();
        for i in 0..self.rules.len()
            invariant
                len == self.rules@.len(),
                all == self.rules@,
                last == len ==> last_time(all, len as int) == -1,
                last != len ==> last_time(all, len as int) == last,
                out@ == deduped(all, last_time(all, len as int), i as int),
        {
            if !self.rules[i].is_time_range() || i == last {
                out.push(self.rules[i].clone());
            }
        }
        self.rules = out;
    }

    /// Every rule that is not the time range, with its index into `rules`.
    pub fn text_rules(&self) -> (r: Vec<(usize, &FilterRule)>)
        ensures
            placed(r@) == plain_rules(self.rules@, self.rules@.len() as int),
    {
        let mut out: Vec<(usize, &FilterRule)> = Vec::new();
        for i in 0..self.rules.len()
            invariant
                placed(out@) == plain_rules(self.rules@, i as int),
        {
            if !self.rules[i].is_time_range() {
                let ghost before = placed(out@);
                out.push((i, &self.rules[i]));
                assert(placed(out@) == before.push((i, self.rules@[i as int])));
            }
        }
        out
    }

    pub fn has_enabled_rules(&self) -> (r: bool)
        ensures
            r == exists|i: int| 0 <= i < self@.len() && (#[trigger] self@[i]).enabled,
    {
        for i in 0..self.rules.len()
            invariant
                forall|j: int| 0 <= j < i ==> !(#[trigger] self@[j]).enabled,
        {
            assert(self@[i as int] == self.rules@[i as int]@);
            if self.rules[i].enabled {
                return true;
            }
        }
        false
    }

    /// Whether both sets hold the same rules, origins and all, in the same order.
    pub fn same_set(&self, other: &FilterSet) -> (r: bool)
        ensures
            r == (self@ == other@),
    {
        if self.rules.len() != other.rules.len() {
            assert(self@.len() != other@.len());
            return false;
        }
        for i in 0..self.rules.len()
            invariant
                self.rules@.len() == other.rules@.len(),
                forall|j: int| 0 <= j < i ==> self@[j] == other@[j],
        {
            assert(self@[i as int] == self.rules@[i as int]@);
            assert(other@[i as int] == other.rules@[i as int]@);
            let same_origin = match (&self.rules[i].origin, &other.rules[i].origin) {
                (Some(a), Some(b)) => a.same(b),
                (None, None) => true,
                _ => false,
            };
            if !same_origin || !self.rules[i].same_rule(&other.rules[i]) {
                assert(self@[i as int] != other@[i as int]);
                return false;
            }
            assert(self@[i as int] =~= other@[i as int]);
        }
        assert(self@ =~= other@);
        true
    }
}

/// A rule that hides, or shows, the lines like this one in a dimension: a keyword of the
/// message, or the value of a field.
pub fn hide_like(
    file: &LogFileModel,
    entry: &LogEntry,
    dimension: &str,
    keyword: &str,
    exclude: bool,
) -> (r: FilterRule)
    ensures
        r@.log_schema is None,
        r@.enabled,
        r@.origin is None,
        r@.action == if exclude {
            "exclude"@
        } else {
            "include"@
        },
        dimension@ == "keyword"@ ==> r@.field == "message"@ && r@.op == "contains"@ && r@.value
            == keyword@,
        dimension@ != "keyword"@ ==> r@.field == dimension@ && r@.op == "equals"@ && r@.value
            == file@.field(entry@, dimension@),
        dimension@ != "keyword"@ ==> r@.matches(file@, entry@),
{
    proof {
        lemma_ops_differ();
    }
    let action = if exclude {
        "exclude"
    } else {
        "include"
    };
    if same_text(dimension, "keyword") {
        return FilterRule::new("message", "contains", keyword, action);
    }
    let value = file.get_field(entry, dimension);
    FilterRule::new(dimension, "equals", value.as_str(), action)
}

// ---------------------------------------------------------------------------
// Laws
// ---------------------------------------------------------------------------

pub open spec fn is_time_rule() -> spec_fn(FilterRule) -> bool {
    |r: FilterRule| r@.is_time_range()
}

/// How many of the rules are time ranges.
pub open spec fn time_ranges(rules: Seq<FilterRule>) -> nat {
    count(rules, is_time_rule())
}

proof fn lemma_without_time(rules: Seq<FilterRule>)
    ensures
        time_ranges(without_time(rules)) == 0,
        without_time(without_time(rules)) == without_time(rules),
        without_time(rules).len() + time_ranges(rules) == rules.len(),
    decreases rules.len(),
{
    if rules.len() > 0 {
        let init = rules.drop_last();
        lemma_without_time(init);
        if !rules.last()@.is_time_range() {
            let k = without_time(init);
            assert(k.push(rules.last()).drop_last() == k);
        }
    }
}

proof fn lemma_first_time(rules: Seq<FilterRule>, i: int)
    requires
        0 <= i <= rules.len(),
    ensures
        i <= first_time(rules, i) <= rules.len(),
        forall|k: int| i <= k < first_time(rules, i) ==> !(#[trigger] rules[k])@.is_time_range(),
        first_time(rules, i) < rules.len() ==> rules[first_time(rules, i)]@.is_time_range(),
    decreases rules.len() - i,
{
    if i < rules.len() && !rules[i]@.is_time_range() {
        lemma_first_time(rules, i + 1);
    }
}

proof fn lemma_insert_keep(rules: Seq<FilterRule>, at: int, rule: FilterRule)
    requires
        0 <= at <= rules.len(),
        rule@.is_time_range(),
        time_ranges(rules) == 0,
    ensures
        time_ranges(rules.insert(at, rule)) == 1,
        without_time(rules.insert(at, rule)) == rules,
        first_time(rules.insert(at, rule), 0) == at,
    decreases rules.len() - at,
{
    let all = rules.insert(at, rule);
    if at == rules.len() {
        assert(all.drop_last() == rules);
        lemma_none_are_time(rules);
        lemma_keep_all(rules, is_text_rule());
    } else {
        let init = rules.drop_last();
        assert(all.drop_last() =~= init.insert(at, rule));
        assert(all.last() == rules.last());
        lemma_insert_keep(init, at, rule);
        assert(init.push(rules.last()) =~= rules);
    }
    lemma_none_are_time(rules);
    lemma_first_time(all, 0);
    let f = first_time(all, 0);
    if f < at {
        assert(all[f] == rules[f]);
    }
    if at < f {
        assert(!all[at]@.is_time_range());
    }
}

proof fn lemma_none_are_time(rules: Seq<FilterRule>)
    requires
        time_ranges(rules) == 0,
    ensures
        forall|i: int| 0 <= i < rules.len() ==> !(#[trigger] rules[i])@.is_time_range(),
        forall|i: int| 0 <= i < rules.len() ==> is_text_rule()(#[trigger] rules[i]),
    decreases rules.len(),
{
    if rules.len() > 0 {
        lemma_none_are_time(rules.drop_last());
        assert forall|i: int| 0 <= i < rules.len() implies !(#[trigger] rules[i])@.is_time_range() by {
            if i < rules.len() - 1 {
                assert(rules.drop_last()[i] == rules[i]);
            }
        }
    }
}

/// Setting the time range leaves exactly one, the one that was set, and every other rule in
/// its order. Setting it again replaces it.
pub proof fn setting_the_time_range_leaves_one(
    rules: Seq<FilterRule>,
    rule: FilterRule,
    again: FilterRule,
)
    requires
        rule@.is_time_range(),
        again@.is_time_range(),
    ensures
        time_ranges(with_time(rules, rule)) == 1,
        without_time(with_time(rules, rule)) == without_time(rules),
        with_time(rules, rule)[first_time(with_time(rules, rule), 0)] == rule,
        with_time(with_time(rules, rule), again) == with_time(rules, again),
{
    lemma_without_time(rules);
    lemma_first_time(rules, 0);
    let rest = without_time(rules);
    let f = first_time(rules, 0);
    let at = if f < rest.len() {
        f
    } else {
        rest.len() as int
    };
    lemma_insert_keep(rest, at, rule);
}

/// Adding a rule never leaves more than one time range where there was at most one.
pub proof fn adding_keeps_one_time_range(rules: Seq<FilterRule>, rule: FilterRule)
    requires
        time_ranges(rules) <= 1,
    ensures
        time_ranges(
            if rule@.is_time_range() {
                with_time(rules, rule)
            } else {
                rules.push(rule)
            },
        ) <= 1,
{
    if rule@.is_time_range() {
        setting_the_time_range_leaves_one(rules, rule, rule);
    } else {
        assert(rules.push(rule).drop_last() == rules);
    }
}

/// Clearing the time range leaves none, keeps the other rules, and twice is once.
pub proof fn clearing_the_time_range_is_idempotent(rules: Seq<FilterRule>)
    ensures
        time_ranges(without_time(rules)) == 0,
        without_time(without_time(rules)) == without_time(rules),
{
    lemma_without_time(rules);
}

proof fn lemma_last_time(rules: Seq<FilterRule>, n: int)
    requires
        0 <= n <= rules.len(),
    ensures
        -1 <= last_time(rules, n) < n || last_time(rules, n) == -1,
        forall|k: int| last_time(rules, n) < k < n ==> !(#[trigger] rules[k])@.is_time_range(),
        last_time(rules, n) >= 0 ==> rules[last_time(rules, n)]@.is_time_range(),
    decreases n,
{
    if n > 0 && !rules[n - 1]@.is_time_range() {
        lemma_last_time(rules, n - 1);
    }
}

proof fn lemma_deduped(rules: Seq<FilterRule>, kept: int, n: int)
    requires
        0 <= n <= rules.len(),
        kept >= 0 ==> kept < rules.len() && rules[kept]@.is_time_range(),
    ensures
        time_ranges(deduped(rules, kept, n)) == if 0 <= kept < n {
            1nat
        } else {
            0nat
        },
        without_time(deduped(rules, kept, n)) == without_time(rules.take(n)),
        0 <= kept < n ==> deduped(rules, kept, n).contains(rules[kept]),
    decreases n,
{
    if n > 0 {
        lemma_deduped(rules, kept, n - 1);
        let before = deduped(rules, kept, n - 1);
        let x = rules[n - 1];
        assert(rules.take(n).drop_last() == rules.take(n - 1));
        assert(rules.take(n).last() == x);
        if !x@.is_time_range() || n - 1 == kept {
            assert(before.push(x).drop_last() == before);
            if n - 1 == kept {
                assert(before.push(x)[before.len() as int] == x);
            } else if 0 <= kept < n {
                let j = choose|j: int| 0 <= j < before.len() && before[j] == rules[kept];
                assert(before.push(x)[j] == rules[kept]);
            }
        }
    } else {
        assert(rules.take(0) =~= Seq::<FilterRule>::empty());
    }
}

/// Where at most one rule is a time range, nothing is taken out.
proof fn lemma_deduped_of_one(rules: Seq<FilterRule>, n: int)
    requires
        time_ranges(rules) <= 1,
        0 <= n <= rules.len(),
    ensures
        deduped(rules, last_time(rules, rules.len() as int), n) == rules.take(n),
    decreases n,
{
    let kept = last_time(rules, rules.len() as int);
    if n > 0 {
        lemma_deduped_of_one(rules, n - 1);
        lemma_last_time(rules, rules.len() as int);
        if rules[n - 1]@.is_time_range() && n - 1 != kept {
            lemma_two_time_ranges(rules, n - 1, kept);
        }
        assert(rules.take(n) =~= rules.take(n - 1).push(rules[n - 1]));
    } else {
        assert(rules.take(0) =~= Seq::<FilterRule>::empty());
    }
}

proof fn lemma_two_time_ranges(rules: Seq<FilterRule>, i: int, j: int)
    requires
        0 <= i < j < rules.len(),
        rules[i]@.is_time_range(),
        rules[j]@.is_time_range(),
    ensures
        time_ranges(rules) >= 2,
    decreases rules.len(),
{
    let init = rules.drop_last();
    if j < init.len() {
        lemma_two_time_ranges(init, i, j);
    } else {
        lemma_one_time_range(init, i);
    }
}

proof fn lemma_one_time_range(rules: Seq<FilterRule>, i: int)
    requires
        0 <= i < rules.len(),
        rules[i]@.is_time_range(),
    ensures
        time_ranges(rules) >= 1,
    decreases rules.len(),
{
    if i < rules.len() - 1 {
        lemma_one_time_range(rules.drop_last(), i);
    }
}

/// Collapsing keeps the last time range and every other rule, leaves at most one, and does
/// nothing where there is at most one.
pub proof fn collapsing_time_ranges_keeps_the_last(rules: Seq<FilterRule>)
    ensures
        time_ranges(one_time(rules)) <= 1,
        without_time(one_time(rules)) == without_time(rules),
        time_ranges(rules) <= 1 ==> one_time(rules) == rules,
        one_time(one_time(rules)) == one_time(rules),
        ({
            let last = last_time(rules, rules.len() as int);
            last >= 0 ==> first_time(one_time(rules), 0) < one_time(rules).len() && one_time(
                rules,
            )[first_time(one_time(rules), 0)] == rules[last]
        }),
{
    lemma_last_time(rules, rules.len() as int);
    let kept = last_time(rules, rules.len() as int);
    lemma_deduped(rules, kept, rules.len() as int);
    assert(rules.take(rules.len() as int) == rules);
    if time_ranges(rules) <= 1 {
        lemma_deduped_of_one(rules, rules.len() as int);
    }
    let once = one_time(rules);
    lemma_deduped_of_one(once, once.len() as int);
    assert(once.take(once.len() as int) == once);
    lemma_first_time(once, 0);
    if kept >= 0 {
        let j = choose|j: int| 0 <= j < once.len() && once[j] == rules[kept];
        let f = first_time(once, 0);
        assert(once[j]@.is_time_range());
        if f < j {
            lemma_two_time_ranges(once, f, j);
        }
    }
}

/// The same rule from two different libraries is one rule.
pub proof fn same_rule_ignores_origin(rule: Rule, a: Option<Tier>, b: Option<Tier>)
    ensures
        (Rule { origin: a, ..rule }).same_as(Rule { origin: b, ..rule }),
{
}

/// A rule scoped to a schema has no say over entries of another.
pub proof fn scoped_rules_leave_other_schemas_alone(
    rules: Seq<Rule>,
    rule: Rule,
    file: FileParts,
    entry: EntryParts,
)
    requires
        rule.log_schema is Some,
        !is_blank(rule.log_schema->0),
        file.schema_name(entry) != trimmed(rule.log_schema->0),
    ensures
        is_visible(rules.push(rule), file, entry) == is_visible(rules, file, entry),
{
    let more = rules.push(rule);
    assert forall|action: Seq<char>| some_applies(more, action, file, entry) == #[trigger]
        some_applies(rules, action, file, entry) by {
        if some_applies(more, action, file, entry) {
            let i = choose|i: int|
                0 <= i < more.len() && in_force(#[trigger] more[i], action) && more[i].applies(
                    file,
                    entry,
                );
            assert(i < rules.len() && rules[i] == more[i]);
        }
        if some_applies(rules, action, file, entry) {
            let i = choose|i: int|
                0 <= i < rules.len() && in_force(#[trigger] rules[i], action) && rules[i].applies(
                    file,
                    entry,
                );
            assert(more[i] == rules[i]);
        }
    }
    assert forall|action: Seq<char>| some_matches(more, action, file, entry) == #[trigger]
        some_matches(rules, action, file, entry) by {
        if some_matches(more, action, file, entry) {
            let i = choose|i: int|
                0 <= i < more.len() && in_force(#[trigger] more[i], action) && more[i].matches(
                    file,
                    entry,
                );
            assert(i < rules.len() && rules[i] == more[i]);
        }
        if some_matches(rules, action, file, entry) {
            let i = choose|i: int|
                0 <= i < rules.len() && in_force(#[trigger] rules[i], action) && rules[i].matches(
                    file,
                    entry,
                );
            assert(more[i] == rules[i]);
        }
    }
    assert(some_applies(rules, "include"@, file, entry) == some_applies(
        more,
        "include"@,
        file,
        entry,
    ));
    assert(some_matches(rules, "include"@, file, entry) == some_matches(
        more,
        "include"@,
        file,
        entry,
    ));
    assert(some_matches(rules, "exclude"@, file, entry) == some_matches(
        more,
        "exclude"@,
        file,
        entry,
    ));
}

/// Without an enabled rule everything is shown.
pub proof fn disabled_rules_hide_nothing(rules: Seq<Rule>, file: FileParts, entry: EntryParts)
    requires
        forall|i: int| 0 <= i < rules.len() ==> !(#[trigger] rules[i]).enabled,
    ensures
        is_visible(rules, file, entry),
{
}

/// Whether one character is the other, or the same letter of the English alphabet in the other
/// case.
pub open spec fn equal_but_for_case(a: char, b: char) -> bool {
    ||| a == b
    ||| 'a' <= a && a <= 'z' && a as int == b as int + 32
    ||| 'A' <= a && a <= 'Z' && a as int + 32 == b as int
}

/// Whether two texts are equal but for the case of their English letters.
pub open spec fn texts_equal_but_for_case(a: Seq<char>, b: Seq<char>) -> bool {
    &&& a.len() == b.len()
    &&& forall|i: int| 0 <= i < a.len() ==> equal_but_for_case(#[trigger] a[i], b[i])
}

/// Whether `text` is some text, then `sought` but for case, then some text.
pub open spec fn holds_within(text: Seq<char>, sought: Seq<char>) -> bool {
    exists|before: Seq<char>, there: Seq<char>, after: Seq<char>|
        text == #[trigger] (before + there + after) && texts_equal_but_for_case(there, sought)
}

proof fn lemma_same_letter(a: char, b: char)
    ensures
        same_letter(a, b) <==> equal_but_for_case(a, b),
{
    lemma_small_letter(a);
    lemma_small_letter(b);
}

proof fn lemma_small_letter(c: char)
    ensures
        small_letter(c) as int == if 'A' <= c && c <= 'Z' {
            c as int + 32
        } else {
            c as int
        },
{
}

/// What an ASCII text is contained in without regard to case: exactly the texts that hold it
/// somewhere, but for the case of letters. So any text around it contains it, and none that is
/// shorter.
pub proof fn containment_is_a_text_within(text: Seq<char>, sought: Seq<char>)
    requires
        is_ascii(sought),
    ensures
        contains_any_case(text, sought) <==> holds_within(text, sought),
        text.len() < sought.len() ==> !contains_any_case(text, sought),
        forall|before: Seq<char>, after: Seq<char>|
            contains_any_case(#[trigger] (before + sought + after), sought),
{
    if contains_any_case(text, sought) {
        let none = Seq::<char>::empty();
        if sought.len() == 0 {
            assert(text =~= none + none + text);
            assert(texts_equal_but_for_case(none, sought));
        } else {
            let at = choose|at: int|
                0 <= at <= text.len() - sought.len() && #[trigger] stands_any_case(
                    text,
                    sought,
                    at,
                );
            let there = text.subrange(at, at + sought.len());
            assert forall|i: int| 0 <= i < there.len() implies equal_but_for_case(
                #[trigger] there[i],
                sought[i],
            ) by {
                assert(same_letter(text[at + i], sought[i]));
                lemma_same_letter(text[at + i], sought[i]);
            }
            assert(text =~= text.take(at) + there + text.skip(at + sought.len()));
        }
    }
    if holds_within(text, sought) {
        let (before, there, after) = choose|before: Seq<char>, there: Seq<char>, after: Seq<char>|
            text == #[trigger] (before + there + after) && texts_equal_but_for_case(there, sought);
        lemma_contained(before, there, after, sought);
    }
    assert forall|before: Seq<char>, after: Seq<char>| contains_any_case(
        #[trigger] (before + sought + after),
        sought,
    ) by {
        lemma_contained(before, sought, after, sought);
    }
}

proof fn lemma_contained(
    before: Seq<char>,
    there: Seq<char>,
    after: Seq<char>,
    sought: Seq<char>,
)
    requires
        is_ascii(sought),
        texts_equal_but_for_case(there, sought),
    ensures
        contains_any_case(before + there + after, sought),
{
    let text = before + there + after;
    let at = before.len() as int;
    assert forall|i: int| 0 <= i < sought.len() implies same_letter(
        text[at + i],
        #[trigger] sought[i],
    ) by {
        assert(text[at + i] == there[i]);
        assert(equal_but_for_case(there[i], sought[i]));
        lemma_same_letter(there[i], sought[i]);
    }
    assert(stands_any_case(text, sought, at));
}

proof fn lemma_ops_differ()
    ensures
        "range"@ != "equals"@,
        "range"@ != "contains"@,
        "range"@ != "regex"@,
        "equals"@ != "contains"@,
        "equals"@ != "regex"@,
        "contains"@ != "regex"@,
        "include"@ != "exclude"@,
{
    reveal_strlit("range");
    reveal_strlit("equals");
    reveal_strlit("contains");
    reveal_strlit("regex");
    reveal_strlit("include");
    reveal_strlit("exclude");
    assert("range"@.len() == 5 && "equals"@.len() == 6 && "contains"@.len() == 8 && "regex"@.len()
        == 5);
    assert("range"@[1] == 'a' && "regex"@[1] == 'e');
    assert("include"@[0] == 'i' && "exclude"@[0] == 'e');
}

/// A `contains` rule with an ASCII value holds of an entry exactly where the entry's value of
/// the field is some text, then the rule's value but for case, then some text.
pub proof fn a_contains_rule_finds_its_text(rule: Rule, file: FileParts, entry: EntryParts)
    requires
        rule.op == "contains"@,
        is_ascii(rule.value),
    ensures
        rule.holds(file, entry) <==> holds_within(file.field(entry, rule.field), rule.value),
        file.field(entry, rule.field).len() < rule.value.len() ==> !rule.holds(file, entry),
        forall|before: Seq<char>, after: Seq<char>|
            file.field(entry, rule.field) == #[trigger] (before + rule.value + after)
                ==> rule.holds(file, entry),
{
    lemma_ops_differ();
    containment_is_a_text_within(file.field(entry, rule.field), rule.value);
}

/// An `equals` rule holds of exactly the entries whose field is its value, to the letter.
pub proof fn an_equals_rule_asks_for_the_same_text(rule: Rule, file: FileParts, entry: EntryParts)
    requires
        rule.op == "equals"@,
    ensures
        rule.holds(file, entry) <==> file.field(entry, rule.field) == rule.value,
{
    lemma_ops_differ();
}

/// A `regex` rule holds of exactly the entries whose field its value, taken as a pattern,
/// matches.
pub proof fn a_regex_rule_asks_its_pattern(rule: Rule, file: FileParts, entry: EntryParts)
    requires
        rule.op == "regex"@,
    ensures
        rule.holds(file, entry) <==> pattern_matches(rule.value, file.field(entry, rule.field)),
{
    lemma_ops_differ();
}

/// A rule whose comparison is none of the four holds of nothing.
pub proof fn an_unknown_op_holds_of_nothing(rule: Rule, file: FileParts, entry: EntryParts)
    requires
        rule.op != "equals"@,
        rule.op != "contains"@,
        rule.op != "regex"@,
        rule.op != "range"@,
    ensures
        !rule.holds(file, entry),
{
}

/// A `range` rule over a field other than the time holds of exactly the entries whose value is
/// neither before its start nor behind its end in the order of texts; an end left out bounds
/// nothing.
pub proof fn a_text_range_keeps_what_lies_between(
    rule: Rule,
    start: Seq<char>,
    end: Seq<char>,
    file: FileParts,
    entry: EntryParts,
)
    requires
        rule.op == "range"@,
        rule.field != "timestamp"@ && rule.field != "time"@ && rule.field != "ts"@,
        rule.value == start + ".."@ + end,
        forall|k: int| 0 <= k < start.len() ==> !#[trigger] reads_at(rule.value, ".."@, k),
    ensures
        rule.holds(file, entry) <==> {
            let value = file.field(entry, rule.field);
            &&& start.len() > 0 ==> value == start || text_less(start, value)
            &&& end.len() > 0 ==> value == end || text_less(value, end)
        },
{
    lemma_range_ends(rule.value, start, end);
    let value = file.field(entry, rule.field);
    if !text_less(value, start) && !text_less(start, value) {
        lemma_text_less_total(value, start);
    }
    if !text_less(value, end) && !text_less(end, value) {
        lemma_text_less_total(value, end);
    }
    lemma_text_less_irreflexive(value);
    if text_less(value, start) && text_less(start, value) {
        lemma_text_less_transitive(value, start, value);
    }
    if text_less(value, end) && text_less(end, value) {
        lemma_text_less_transitive(value, end, value);
    }
}

pub proof fn lemma_range_ends(value: Seq<char>, start: Seq<char>, end: Seq<char>)
    requires
        value == start + ".."@ + end,
        forall|k: int| 0 <= k < start.len() ==> !#[trigger] reads_at(value, ".."@, k),
    ensures
        range_ends(value) == (start, end),
{
    let dots = ".."@;
    a_text_is_cut_at_the_first_separator(value, dots);
    assert forall|i: int| 0 <= i < dots.len() implies value[start.len() + i] == #[trigger] dots[i] by {}
    assert(reads_at(value, dots, start.len() as int));
    let (a, b) = split_once(value, dots)->0;
    if a.len() < start.len() {
        assert forall|i: int| 0 <= i < dots.len() implies value[a.len() + i] == #[trigger] dots[i] by {
            assert(value[a.len() + i] == (a + dots + b)[a.len() + i]);
        }
        assert(reads_at(value, dots, a.len() as int));
    }
    if start.len() < a.len() {
        assert(!reads_at(value, dots, start.len() as int));
    }
    assert(a =~= value.take(a.len() as int));
    assert(start =~= value.take(a.len() as int));
    assert(b =~= value.skip((a.len() + dots.len()) as int));
    assert(end =~= value.skip((a.len() + dots.len()) as int));
}

/// A time within a range is neither before the start nor after the end: of times outside leap
/// seconds, exactly those whose instant lies between the two.
pub proof fn a_time_range_keeps_the_instants_between(t: Parts, lo: Option<Parts>, hi: Option<Parts>)
    requires
        is_instant(t),
        lo is Some ==> is_instant(lo->0),
        hi is Some ==> is_instant(hi->0),
    ensures
        in_time_range(t, lo, hi) <==> (lo is Some ==> instant(lo->0) <= instant(t)) && (hi is Some
            ==> instant(t) <= instant(hi->0)),
{
    if lo is Some {
        times_are_ordered_as_instants(t, lo->0);
    }
    if hi is Some {
        times_are_ordered_as_instants(hi->0, t);
    }
}

/// A `range` rule over the time holds of exactly the entries that have a time, and one between
/// the two that its value names.
pub proof fn a_time_rule_keeps_what_lies_between(
    rule: Rule,
    start: Seq<char>,
    end: Seq<char>,
    file: FileParts,
    entry: EntryParts,
)
    requires
        rule.op == "range"@,
        rule.field == "timestamp"@ || rule.field == "time"@ || rule.field == "ts"@,
        rule.value == start + ".."@ + end,
        forall|k: int| 0 <= k < start.len() ==> !#[trigger] reads_at(rule.value, ".."@, k),
        file.time(entry) is Some ==> is_instant(file.time(entry)->0),
        !is_blank(start) && typed_time(start) is Some ==> is_instant(typed_time(start)->0),
        !is_blank(end) && typed_time(end) is Some ==> is_instant(typed_time(end)->0),
    ensures
        rule.holds(file, entry) <==> {
            &&& file.time(entry) is Some
            &&& !is_blank(start) && typed_time(start) is Some ==> instant(typed_time(start)->0)
                <= instant(file.time(entry)->0)
            &&& !is_blank(end) && typed_time(end) is Some ==> instant(file.time(entry)->0)
                <= instant(typed_time(end)->0)
        },
{
    lemma_range_ends(rule.value, start, end);
    if file.time(entry) is Some {
        a_time_range_keeps_the_instants_between(
            file.time(entry)->0,
            range_bound(start),
            range_bound(end),
        );
    }
}

/// A rule without a schema, or with a blank one, is about every entry; any other is about the
/// entries of the schema that it names, and matches none else.
pub proof fn a_rule_matches_within_its_schema(rule: Rule, file: FileParts, entry: EntryParts)
    ensures
        rule.log_schema is None ==> (rule.matches(file, entry) <==> rule.holds(file, entry)),
        rule.log_schema is Some && is_blank(rule.log_schema->0) ==> (rule.matches(file, entry)
            <==> rule.holds(file, entry)),
        rule.log_schema is Some && !is_blank(rule.log_schema->0) ==> (rule.matches(file, entry)
            <==> rule.holds(file, entry) && file.schema_name(entry) == trimmed(
            rule.log_schema->0,
        )),
{
}

/// What one more exclude rule does to the view: it takes out what it matches, and nothing else.
pub proof fn an_exclude_rule_takes_out_what_it_matches(
    rules: Seq<Rule>,
    rule: Rule,
    file: FileParts,
    entry: EntryParts,
)
    requires
        rule.enabled,
        rule.action == "exclude"@,
    ensures
        is_visible(rules.push(rule), file, entry) <==> is_visible(rules, file, entry)
            && !rule.matches(file, entry),
{
    lemma_ops_differ();
    lemma_one_more(rules, rule, "include"@, file, entry);
    lemma_one_more(rules, rule, "exclude"@, file, entry);
}

/// What one more include rule does to the view: where it is the first that is about an entry,
/// the entry must now match it; where others are, it shows what it matches besides.
pub proof fn an_include_rule_lets_in_what_it_matches(
    rules: Seq<Rule>,
    rule: Rule,
    file: FileParts,
    entry: EntryParts,
)
    requires
        rule.enabled,
        rule.action == "include"@,
        rule.applies(file, entry),
    ensures
        !some_applies(rules, "include"@, file, entry) ==> (is_visible(rules.push(rule), file, entry)
            <==> is_visible(rules, file, entry) && rule.holds(file, entry)),
        some_applies(rules, "include"@, file, entry) && !rule.holds(file, entry) ==> is_visible(
            rules.push(rule),
            file,
            entry,
        ) == is_visible(rules, file, entry),
        rule.holds(file, entry) ==> (is_visible(rules.push(rule), file, entry) <==> !some_matches(
            rules,
            "exclude"@,
            file,
            entry,
        )),
{
    lemma_ops_differ();
    lemma_one_more(rules, rule, "include"@, file, entry);
    lemma_one_more(rules, rule, "exclude"@, file, entry);
}

/// A rule that is switched off, or that does neither, changes nothing.
pub proof fn an_idle_rule_changes_nothing(
    rules: Seq<Rule>,
    rule: Rule,
    file: FileParts,
    entry: EntryParts,
)
    requires
        !rule.enabled || (rule.action != "include"@ && rule.action != "exclude"@),
    ensures
        is_visible(rules.push(rule), file, entry) == is_visible(rules, file, entry),
        is_visible(Seq::empty(), file, entry),
{
    lemma_one_more(rules, rule, "include"@, file, entry);
    lemma_one_more(rules, rule, "exclude"@, file, entry);
}

proof fn lemma_one_more(
    rules: Seq<Rule>,
    rule: Rule,
    action: Seq<char>,
    file: FileParts,
    entry: EntryParts,
)
    ensures
        some_applies(rules.push(rule), action, file, entry) <==> some_applies(
            rules,
            action,
            file,
            entry,
        ) || (in_force(rule, action) && rule.applies(file, entry)),
        some_matches(rules.push(rule), action, file, entry) <==> some_matches(
            rules,
            action,
            file,
            entry,
        ) || (in_force(rule, action) && rule.matches(file, entry)),
{
    let more = rules.push(rule);
    assert(more[rules.len() as int] == rule);
    if some_applies(more, action, file, entry) {
        let i = choose|i: int|
            0 <= i < more.len() && in_force(#[trigger] more[i], action) && more[i].applies(
                file,
                entry,
            );
        if i < rules.len() {
            assert(rules[i] == more[i]);
        }
    }
    if some_applies(rules, action, file, entry) {
        let i = choose|i: int|
            0 <= i < rules.len() && in_force(#[trigger] rules[i], action) && rules[i].applies(
                file,
                entry,
            );
        assert(more[i] == rules[i]);
    }
    if some_matches(more, action, file, entry) {
        let i = choose|i: int|
            0 <= i < more.len() && in_force(#[trigger] more[i], action) && more[i].matches(
                file,
                entry,
            );
        if i < rules.len() {
            assert(rules[i] == more[i]);
        }
    }
    if some_matches(rules, action, file, entry) {
        let i = choose|i: int|
            0 <= i < rules.len() && in_force(#[trigger] rules[i], action) && rules[i].matches(
                file,
                entry,
            );
        assert(more[i] == rules[i]);
    }
}

/// A text beyond ASCII is contained in exactly those whose lower-case form holds its own
/// somewhere.
pub proof fn containment_beyond_ascii_goes_by_the_lower_case(text: Seq<char>, sought: Seq<char>)
    requires
        !is_ascii(sought),
    ensures
        contains_any_case(text, sought) <==> exists|k: int| #[trigger]
            reads_at(lowercase_of(text), lowercase_of(sought), k),
{
    the_first_place_is_found(lowercase_of(text), lowercase_of(sought));
    if let Some(at) = find(lowercase_of(text), lowercase_of(sought)) {
        assert(reads_at(lowercase_of(text), lowercase_of(sought), at));
    }
}

/// A range without dots is one with an open end: it asks for what the same range with dots
/// behind it does.
pub proof fn a_range_without_dots_is_open_ended(rule: Rule, file: FileParts, entry: EntryParts)
    requires
        rule.op == "range"@,
        forall|k: int| !#[trigger] reads_at(rule.value, ".."@, k),
        rule.value.len() > 0 ==> rule.value.last() != '.',
    ensures
        rule.holds(file, entry) == (Rule { value: rule.value + ".."@, ..rule }).holds(file, entry),
{
    reveal_strlit("..");
    let value = rule.value;
    let dotted = value + ".."@;
    let none = Seq::<char>::empty();
    assert(dotted =~= value + ".."@ + none);
    assert forall|k: int| 0 <= k < value.len() implies !#[trigger] reads_at(dotted, ".."@, k) by {
        if reads_at(dotted, ".."@, k) {
            assert(dotted[k + 0] == ".."@[0] && dotted[k + 1] == ".."@[1]);
            assert(dotted[k] == value[k]);
            if k + 1 < value.len() {
                assert(dotted[k + 1] == value[k + 1]);
                assert(reads_at(value, ".."@, k)) by {
                    assert forall|i: int| 0 <= i < ".."@.len() implies value[k + i]
                        == #[trigger] ".."@[i] by {
                        assert(i == 0 || i == 1);
                    }
                }
            }
        }
    }
    lemma_range_ends(dotted, value, none);
    the_first_place_is_found(value, ".."@);
}

} // verus!
