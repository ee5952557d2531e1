//! Log schemas: a format template, and the patterns built from it.

use crate::lists::{clone_option, clone_pairs, clone_strings, find_pair, pair_value, pairs};
use crate::pattern::{
    capture, check_pattern, escape, escaped, group_value, matches_pattern,
    pattern_captures, pattern_error, pattern_matches, Captures,
};
use crate::text::{
    blank, char_is_alphanumeric, char_is_letter, chars_of, debug_quoted, debug_text, decimal,
    decimal_text, is_alphanumeric, is_blank, is_letter, opt_str, opt_text, run_from, same_text, span,
    texts, trim, trimmed,
};
use crate::timestamp::{formatted_time, opt_stamp, parse_timestamp_with_format, Timestamp};
use vstd::prelude::*;
use vstd::utf8::encode_utf8;

verus! {

pub const BRACKETED_DEFAULT_FORMAT: &'static str =
    "<timestamp> [HOST:<host>][SERVER:<server>][PID:<process_id>][THR:<thread_id>][<log_module>][<log_level>][<error_code?>][UID:<user_id>][SID:<session_id>][OID:<object_id>][<file_name>:<line_number>] <message>";

/// The same format before `<error_code?>` existed. Under it an error line's `[0x800424FB]` is
/// swallowed by `<log_level>`.
pub const BRACKETED_LEGACY_FORMAT: &'static str =
    "<timestamp> [HOST:<host>][SERVER:<server>][PID:<process_id>][THR:<thread_id>][<log_module>][<log_level>][UID:<user_id>][SID:<session_id>][OID:<object_id>][<file_name>:<line_number>] <message>";

pub const DEFAULT_TIMESTAMP_FORMAT: &'static str = "%Y-%m-%d %H:%M:%S.%f";

/// Name of the built-in bracketed-field schema.
pub const DEFAULT_EXTRACTOR_NAME: &'static str = "Bracketed default";

/// Name of the built-in catch-all schema, which asserts nothing beyond "a line is a record".
pub const GENERIC_EXTRACTOR_NAME: &'static str = "Generic line";

pub const GENERIC_FORMAT: &'static str = "<message>";

/// How many of a file's leading lines are read before deciding on a schema.
pub const DETECT_LINES: usize = 200;

pub const USER_SCHEMAS_SUBDIR: &'static str = "schemas";

/// A log line the schema claims to parse, with what it should parse to.
#[derive(Debug, PartialEq, Eq)]
pub struct SampleLine {
    pub line: String,
    /// Expected value of the schema's level field, if it has one.
    pub level: Option<String>,
}

impl SampleLine {
    pub fn new(line: &str) -> (r: Self)
        ensures
            r.line@ == line@,
            r.level is None,
    {
        SampleLine { line: line.to_string(), level: None }
    }

    pub fn with_level(line: &str, level: &str) -> (r: Self)
        ensures
            r.line@ == line@,
            opt_text(r.level) == Some(level@),
    {
        SampleLine { line: line.to_string(), level: Some(level.to_string()) }
    }
}

impl Clone for SampleLine {
    fn clone(&self) -> (r: Self)
        ensures
            r == *self,
    {
        SampleLine { line: self.line.clone(), level: clone_option(&self.level) }
    }
}

/// A log schema. The patterns after `samples` are what `compile` builds from the rest.
#[derive(Debug)]
pub struct Extractor {
    pub name: String,
    pub description: String,
    pub format: String,
    pub timestamp_field: String,
    pub timestamp_format: String,
    /// A pattern of its own for a field, by the field's name.
    pub field_patterns: Vec<(String, String)>,
    /// Tested against each physical line. Where present, a matching line starts a new entry.
    pub entry_start: String,
    /// Tested against each physical line. Where present, a matching line closes the entry.
    pub entry_end: String,
    /// Lines this schema must parse correctly.
    pub samples: Vec<SampleLine>,
    pub regex: Option<String>,
    pub start_regex: Option<String>,
    /// Covers every field except a trailing free-text one.
    pub head_regex: Option<String>,
    /// Name of that trailing field, whose value is the rest of the line.
    pub tail_field: Option<String>,
    pub end_regex: Option<String>,
    pub field_names: Vec<String>,
}

/// What a schema holds.
#[verifier::ext_equal]
pub struct Schema {
    pub name: Seq<char>,
    pub description: Seq<char>,
    pub format: Seq<char>,
    pub timestamp_field: Seq<char>,
    pub timestamp_format: Seq<char>,
    pub field_patterns: Seq<(Seq<char>, Seq<char>)>,
    pub entry_start: Seq<char>,
    pub entry_end: Seq<char>,
    pub samples: Seq<(Seq<char>, Option<Seq<char>>)>,
    pub regex: Option<Seq<char>>,
    pub start_regex: Option<Seq<char>>,
    pub head_regex: Option<Seq<char>>,
    pub tail_field: Option<Seq<char>>,
    pub end_regex: Option<Seq<char>>,
    pub field_names: Seq<Seq<char>>,
}

pub open spec fn sample_views(v: Seq<SampleLine>) -> Seq<(Seq<char>, Option<Seq<char>>)> {
    v.map_values(|s: SampleLine| (s.line@, opt_text(s.level)))
}

impl View for Extractor {
    type V = Schema;

    open spec fn view(&self) -> Schema {
        Schema {
            name: self.name@,
            description: self.description@,
            format: self.format@,
            timestamp_field: self.timestamp_field@,
            timestamp_format: self.timestamp_format@,
            field_patterns: pairs(self.field_patterns@),
            entry_start: self.entry_start@,
            entry_end: self.entry_end@,
            samples: sample_views(self.samples@),
            regex: opt_text(self.regex),
            start_regex: opt_text(self.start_regex),
            head_regex: opt_text(self.head_regex),
            tail_field: opt_text(self.tail_field),
            end_regex: opt_text(self.end_regex),
            field_names: texts(self.field_names@),
        }
    }
}

impl Clone for Extractor {
    fn clone(&self) -> (r: Self)
        ensures
            r@ == self@,
    {
        let mut samples: Vec<SampleLine> = Vec::new();
        for i in 0..self.samples.len()
            invariant
                samples@ == self.samples@.take(i as int),
        {
            samples.push(self.samples[i].clone());
        }
        assert(samples@ == self.samples@);
        Extractor {
            name: self.name.clone(),
            description: self.description.clone(),
            format: self.format.clone(),
            timestamp_field: self.timestamp_field.clone(),
            timestamp_format: self.timestamp_format.clone(),
            field_patterns: clone_pairs(&self.field_patterns),
            entry_start: self.entry_start.clone(),
            entry_end: self.entry_end.clone(),
            samples,
            regex: clone_option(&self.regex),
            start_regex: clone_option(&self.start_regex),
            head_regex: clone_option(&self.head_regex),
            tail_field: clone_option(&self.tail_field),
            end_regex: clone_option(&self.end_regex),
            field_names: clone_strings(&self.field_names),
        }
    }
}

// ---------------------------------------------------------------------------
// Placeholders of a format
// ---------------------------------------------------------------------------

/// A placeholder `<name>` or `<name?>`: its name, where it starts and ends, and whether the
/// field may be absent together with the separator in front of it.
pub struct Placeholder {
    pub name: String,
    pub start: usize,
    pub end: usize,
    pub optional: bool,
}

/// What a placeholder is: name, start, end, optional.
pub type Slot = (Seq<char>, int, int, bool);

impl View for Placeholder {
    type V = Slot;

    open spec fn view(&self) -> Slot {
        (self.name@, self.start as int, self.end as int, self.optional)
    }
}

pub open spec fn slot_views(v: Seq<Placeholder>) -> Seq<Slot> {
    v.map_values(|p: Placeholder| p@)
}

pub open spec fn is_name_start(c: char) -> bool {
    is_letter(c) || c == '_'
}

pub open spec fn is_name_char(c: char) -> bool {
    is_alphanumeric(c) || c == '_'
}

pub open spec fn name_char() -> spec_fn(char) -> bool {
    |c: char| is_name_char(c)
}

/// The placeholder that starts at `i`, if one does.
pub open spec fn slot_at(s: Seq<char>, i: int) -> Option<Slot> {
    let n = span(s.skip(i + 1), name_char()) as int;
    let j = i + 1 + n;
    if !(0 <= i < s.len()) || s[i] != '<' || n == 0 || !is_name_start(s[i + 1]) {
        None
    } else if j < s.len() && s[j] == '>' {
        Some((s.subrange(i + 1, j), i, j + 1, false))
    } else if j + 1 < s.len() && s[j] == '?' && s[j + 1] == '>' {
        Some((s.subrange(i + 1, j), i, j + 2, true))
    } else {
        None
    }
}

/// The placeholders at or after `i`, left to right, none inside another.
pub open spec fn slots_from(s: Seq<char>, i: int) -> Seq<Slot>
    decreases s.len() - i,
{
    if i >= s.len() {
        Seq::empty()
    } else {
        match slot_at(s, i) {
            Some(slot) => if slot.2 > i {
                seq![slot] + slots_from(s, slot.2)
            } else {
                Seq::empty()
            },
            None => slots_from(s, i + 1),
        }
    }
}

/// The placeholders of a format.
pub open spec fn slots(format: Seq<char>) -> Seq<Slot> {
    slots_from(format, 0)
}

fn placeholder_at(chars: &Vec<char>, i: usize) -> (r: Option<Placeholder>)
    requires
        i < chars@.len(),
    ensures
        match r {
            Some(p) => slot_at(chars@, i as int) == Some(p@) && i < p.end <= chars@.len() && p.start
                == i,
            None => slot_at(chars@, i as int) is None,
        },
{
    let total: usize = chars.len();
    if chars[i] != '<' {
        return None;
    }
    let f = |c: char| -> (b: bool)
        ensures
            b == is_name_char(c),
        { char_is_alphanumeric(c) || c == '_' };
    let n: usize = run_from(chars.as_slice(), i + 1, f, Ghost(name_char()));
    if n == 0 || !(char_is_letter(chars[i + 1]) || chars[i + 1] == '_') {
        return None;
    }
    let j: usize = i + 1 + n;
    if j < total && chars[j] == '>' {
        let name = crate::text::string_of(chars.as_slice(), i + 1, j);
        return Some(Placeholder { name, start: i, end: j + 1, optional: false });
    }
    if j < total && total - j > 1 && chars[j] == '?' && chars[j + 1] == '>' {
        let name = crate::text::string_of(chars.as_slice(), i + 1, j);
        return Some(Placeholder { name, start: i, end: j + 2, optional: true });
    }
    None
}

/// Where each placeholder of a list stands: after the one before, inside the text.
pub open spec fn slots_in_order(v: Seq<Slot>, from: int, len: int) -> bool
    decreases v.len(),
{
    if v.len() == 0 {
        from <= len
    } else {
        from <= v[0].1 < v[0].2 <= len && slots_in_order(v.skip(1), v[0].2, len)
    }
}

proof fn lemma_slots_in_order(s: Seq<char>, i: int)
    requires
        0 <= i <= s.len(),
    ensures
        slots_in_order(slots_from(s, i), i, s.len() as int),
    decreases s.len() - i,
{
    if i < s.len() {
        match slot_at(s, i) {
            Some(slot) => {
                if slot.2 > i {
                    lemma_slots_in_order(s, slot.2);
                    assert(slots_from(s, i).skip(1) == slots_from(s, slot.2));
                }
            },
            None => {
                lemma_slots_in_order(s, i + 1);
                lemma_slots_in_order_weaken(slots_from(s, i + 1), i + 1, i, s.len() as int);
            },
        }
    }
}

proof fn lemma_slots_in_order_weaken(v: Seq<Slot>, from: int, lower: int, len: int)
    requires
        slots_in_order(v, from, len),
        lower <= from,
    ensures
        slots_in_order(v, lower, len),
{
}

/// Where the text before placeholder `k` starts.
pub open spec fn gap_start(v: Seq<Slot>, k: int) -> int {
    if k <= 0 {
        0
    } else {
        v[k - 1].2
    }
}

proof fn lemma_gaps(v: Seq<Slot>, from: int, len: int, k: int)
    requires
        slots_in_order(v, from, len),
        0 <= k < v.len(),
        0 <= from,
    ensures
        from <= v[k].1 < v[k].2 <= len,
        k > 0 ==> v[k - 1].2 <= v[k].1,
    decreases v.len(),
{
    if k > 0 {
        lemma_gaps(v.skip(1), v[0].2, len, k - 1);
        assert(v.skip(1)[k - 1] == v[k]);
        if k > 1 {
            assert(v.skip(1)[k - 2] == v[k - 1]);
        }
    }
}

proof fn lemma_slot_gaps(format: Seq<char>, k: int)
    requires
        0 <= k < slots(format).len(),
    ensures
        0 <= gap_start(slots(format), k) <= slots(format)[k].1 < slots(format)[k].2
            <= format.len(),
{
    lemma_slots_in_order(format, 0);
    lemma_gaps(slots(format), 0, format.len() as int, k);
    if k > 0 {
        lemma_gaps(slots(format), 0, format.len() as int, k - 1);
    }
}

/// The placeholders of a format, left to right.
pub fn placeholders(format: &str) -> (r: Vec<Placeholder>)
    ensures
        slot_views(r@) == slots(format@),
{
    let chars = chars_of(format);
    let mut out: Vec<Placeholder> = Vec::new();
    let mut i: usize = 0;
    assert(slot_views(out@) + slots_from(format@, 0) =~= slots(format@));
    while i < chars.len()
        invariant
            chars@ == format@,
            i <= format@.len(),
            slot_views(out@) + slots_from(format@, i as int) == slots(format@),
        decreases format@.len() - i,
    {
        match placeholder_at(&chars, i) {
            Some(p) => {
                let ghost before = slot_views(out@);
                let ghost slot = p@;
                let end: usize = p.end;
                out.push(p);
                assert(slot_views(out@) == before.push(slot));
                assert(before + (seq![slot] + slots_from(format@, end as int)) == before.push(slot)
                    + slots_from(format@, end as int));
                i = end;
            },
            None => {
                i = i + 1;
            },
        }
    }
    assert(slot_views(out@) + Seq::<Slot>::empty() == slot_views(out@));
    out
}

// ---------------------------------------------------------------------------
// Patterns of a format
// ---------------------------------------------------------------------------

/// What a field may hold: its own pattern, else anything; the last field takes all it can.
pub open spec fn sub_pattern(
    patterns: Seq<(Seq<char>, Seq<char>)>,
    name: Seq<char>,
    last: bool,
) -> Seq<char> {
    match pair_value(patterns, name) {
        Some(p) => p,
        None => if last {
            ".*"@
        } else {
            ".*?"@
        },
    }
}

/// The escaped text between placeholder `k` and the one before it.
pub open spec fn literal_before(format: Seq<char>, k: int) -> Seq<char> {
    escaped(format.subrange(gap_start(slots(format), k), slots(format)[k].1))
}

/// The escaped text behind the last placeholder.
pub open spec fn literal_after(format: Seq<char>) -> Seq<char> {
    escaped(format.skip(gap_start(slots(format), slots(format).len() as int)))
}

/// The pattern for placeholder `k` and the literal before it. An optional field swallows the
/// separator before it, not after.
pub open spec fn field_piece(
    format: Seq<char>,
    patterns: Seq<(Seq<char>, Seq<char>)>,
    k: int,
) -> Seq<char> {
    let v = slots(format);
    let group = "(?P<"@ + v[k].0 + ">"@ + sub_pattern(patterns, v[k].0, k + 1 == v.len()) + ")"@;
    if v[k].3 {
        "(?:"@ + literal_before(format, k) + group + ")?"@
    } else {
        literal_before(format, k) + group
    }
}

/// The pattern for everything up to and with placeholder `k - 1`.
pub open spec fn pattern_upto(
    format: Seq<char>,
    patterns: Seq<(Seq<char>, Seq<char>)>,
    k: int,
) -> Seq<char>
    decreases k,
{
    if k <= 0 {
        "(?s)^"@
    } else {
        pattern_upto(format, patterns, k - 1) + field_piece(format, patterns, k - 1)
    }
}

/// The anchored pattern of a whole entry, with a named group for every field.
pub open spec fn full_pattern(
    format: Seq<char>,
    patterns: Seq<(Seq<char>, Seq<char>)>,
) -> Seq<char> {
    pattern_upto(format, patterns, slots(format).len() as int) + literal_after(format)
}

/// Whether the format ends in a free-text field, which then needs no group of its own.
pub open spec fn has_free_tail(
    format: Seq<char>,
    patterns: Seq<(Seq<char>, Seq<char>)>,
) -> bool {
    let v = slots(format);
    v.len() > 0 && !v.last().3 && pair_value(patterns, v.last().0) is None && v.last().2
        == format.len()
}

/// The pattern for everything before a trailing free-text field.
pub open spec fn head_pattern(
    format: Seq<char>,
    patterns: Seq<(Seq<char>, Seq<char>)>,
) -> Seq<char> {
    let last = slots(format).len() - 1;
    pattern_upto(format, patterns, last) + literal_before(format, last)
}

/// The cheap probe for "does this line start a record": the text before the first field and the
/// separator between the first two, where neither of them may be absent.
pub open spec fn start_probe(format: Seq<char>) -> Option<Seq<char>> {
    let v = slots(format);
    let mid = format.subrange(v[0].2, v[1].1);
    if v.len() < 2 || v[0].3 || v[1].3 || mid.len() == 0 {
        None
    } else {
        Some("^"@ + escaped(format.take(v[0].1)) + "(.+?)"@ + escaped(mid))
    }
}

/// What is said of the patterns that a schema's definition asks for: of each one the error, where
/// it does not compile.
pub struct Verdicts {
    /// The pattern of a whole entry.
    pub full: Option<String>,
    /// The pattern of an entry's head.
    pub head: Option<String>,
    /// The probe for where an entry starts.
    pub probe: Option<String>,
    pub entry_start: Option<String>,
    pub entry_end: Option<String>,
}

/// What the verdicts say.
#[verifier::ext_equal]
pub struct VerdictParts {
    pub full: Option<Seq<char>>,
    pub head: Option<Seq<char>>,
    pub probe: Option<Seq<char>>,
    pub entry_start: Option<Seq<char>>,
    pub entry_end: Option<Seq<char>>,
}

impl View for Verdicts {
    type V = VerdictParts;

    open spec fn view(&self) -> VerdictParts {
        VerdictParts {
            full: opt_text(self.full),
            head: opt_text(self.head),
            probe: opt_text(self.probe),
            entry_start: opt_text(self.entry_start),
            entry_end: opt_text(self.entry_end),
        }
    }
}

/// What is said of a pattern that is asked for at all.
pub open spec fn verdict(pattern: Option<Seq<char>>) -> Option<Seq<char>> {
    match pattern {
        Some(p) => pattern_error(p),
        None => None,
    }
}

/// A pattern that the definition gives itself, unless it is blank.
pub open spec fn given(text: Seq<char>) -> Option<Seq<char>> {
    if is_blank(text) {
        None
    } else {
        Some(trimmed(text))
    }
}

/// The names of the placeholders.
pub open spec fn slot_names(v: Seq<Slot>) -> Seq<Seq<char>> {
    v.map_values(|p: Slot| p.0)
}

impl Schema {
    /// The pattern of the head, where the format has a free tail.
    pub open spec fn head_text(self) -> Option<Seq<char>> {
        if has_free_tail(self.format, self.field_patterns) {
            Some(head_pattern(self.format, self.field_patterns))
        } else {
            None
        }
    }

    /// What `regex` says of the patterns of this schema.
    pub open spec fn verdicts(self) -> VerdictParts {
        VerdictParts {
            full: pattern_error(full_pattern(self.format, self.field_patterns)),
            head: verdict(self.head_text()),
            probe: verdict(start_probe(self.format)),
            entry_start: verdict(given(self.entry_start)),
            entry_end: verdict(given(self.entry_end)),
        }
    }

    /// Why the patterns cannot be built, going by what is said of them.
    pub open spec fn error_by(self, said: VerdictParts) -> Option<Seq<char>> {
        if said.full is Some {
            Some("Invalid extractor pattern: "@ + said.full->0)
        } else if said.entry_start is Some {
            Some("Invalid entry_start pattern: "@ + said.entry_start->0)
        } else if said.entry_end is Some {
            Some("Invalid entry_end pattern: "@ + said.entry_end->0)
        } else {
            None
        }
    }

    /// The pattern that tells where an entry starts: the one given, else the probe, else that of
    /// a whole entry.
    pub open spec fn start_by(self, said: VerdictParts) -> Seq<char> {
        match given(self.entry_start) {
            Some(p) => p,
            None => if start_probe(self.format) is Some && said.probe is None {
                start_probe(self.format)->0
            } else {
                full_pattern(self.format, self.field_patterns)
            },
        }
    }

    /// This schema with the patterns that its definition asks for, going by what is said of
    /// them.
    pub open spec fn built_by(self, said: VerdictParts) -> Schema {
        Schema {
            regex: Some(full_pattern(self.format, self.field_patterns)),
            start_regex: Some(self.start_by(said)),
            head_regex: if said.head is None {
                self.head_text()
            } else {
                None
            },
            tail_field: if has_free_tail(self.format, self.field_patterns) {
                Some(slots(self.format).last().0)
            } else {
                None
            },
            end_regex: given(self.entry_end),
            field_names: slot_names(slots(self.format)),
            ..self
        }
    }

    /// Why the patterns of this schema cannot be built, if they cannot.
    pub open spec fn build_error(self) -> Option<Seq<char>> {
        self.error_by(self.verdicts())
    }

    /// This schema with the patterns that its definition asks for.
    pub open spec fn built(self) -> Schema {
        self.built_by(self.verdicts())
    }
}

/// The literal text of `format` between two positions, escaped.
fn escaped_part(format: &str, from: usize, to: usize) -> (r: String)
    requires
        from <= to <= format@.len(),
    ensures
        r@ == escaped(format@.subrange(from as int, to as int)),
{
    escape(format.substring_char(from, to))
}

fn start_pattern_of(format: &str, holes: &Vec<Placeholder>) -> (r: Option<String>)
    requires
        slot_views(holes@) == slots(format@),
    ensures
        opt_text(r) == start_probe(format@),
{
    let ghost v = slots(format@);
    assert(v.len() == holes@.len());
    if holes.len() < 2 {
        return None;
    }
    assert(v[0] == holes@[0]@ && v[1] == holes@[1]@);
    if holes[0].optional || holes[1].optional {
        return None;
    }
    proof {
        lemma_slot_gaps(format@, 0);
        lemma_slot_gaps(format@, 1);
    }
    let mid = format.substring_char(holes[0].end, holes[1].start);
    if mid.is_empty() {
        return None;
    }
    let prefix = escaped_part(format, 0, holes[0].start);
    assert(format@.take(v[0].1) == format@.subrange(0, v[0].1));
    let mut probe = "^".to_string();
    probe.append(prefix.as_str());
    probe.append("(.+?)");
    probe.append(escape(mid).as_str());
    Some(probe)
}

/// The full pattern, and the pattern of the head where the format has a free tail.
fn patterns_of(format: &str, patterns: &Vec<(String, String)>, holes: &Vec<Placeholder>) -> (r: (
    String,
    Option<String>,
))
    requires
        slot_views(holes@) == slots(format@),
    ensures
        r.0@ == full_pattern(format@, pairs(patterns@)),
        opt_text(r.1) == if has_free_tail(format@, pairs(patterns@)) {
            Some(head_pattern(format@, pairs(patterns@)))
        } else {
            None
        },
{
    let ghost v = slots(format@);
    let ghost fps = pairs(patterns@);
    assert(v.len() == holes@.len());
    let total: usize = format.unicode_len();
    let mut pattern = "(?s)^".to_string();
    let mut head: Option<String> = None;
    let mut pos: usize = 0;
    for k in 0..holes.len()
        invariant
            v == slots(format@),
            v == slot_views(holes@),
            v.len() == holes@.len(),
            fps == pairs(patterns@),
            total == format@.len(),
            pos == gap_start(v, k as int),
            pattern@ == pattern_upto(format@, fps, k as int),
            k < v.len() ==> head is None,
            k == v.len() ==> opt_text(head) == if has_free_tail(format@, fps) {
                Some(head_pattern(format@, fps))
            } else {
                None
            },
    {
        assert(v[k as int] == holes@[k as int]@);
        proof {
            lemma_slot_gaps(format@, k as int);
        }
        let hole: &Placeholder = &holes[k];
        let literal = escaped_part(format, pos, hole.start);
        let last = k + 1 == holes.len();
        let custom = find_pair(patterns, hole.name.as_str());
        let sub: &str = match custom {
            Some(p) => p.as_str(),
            None => if last {
                ".*"
            } else {
                ".*?"
            },
        };
        let mut group = "(?P<".to_string();
        group.append(hole.name.as_str());
        group.append(">");
        group.append(sub);
        group.append(")");
        let ghost before = pattern@;
        if hole.optional {
            pattern.append("(?:");
            pattern.append(literal.as_str());
            pattern.append(group.as_str());
            pattern.append(")?");
            assert(pattern@ == before + ("(?:"@ + literal@ + group@ + ")?"@));
        } else {
            pattern.append(literal.as_str());
            if last && custom.is_none() && hole.end == total {
                head = Some(pattern.clone());
            }
            pattern.append(group.as_str());
            assert(pattern@ == before + (literal@ + group@));
        }
        pos = hole.end;
    }
    proof {
        if v.len() > 0 {
            lemma_slot_gaps(format@, v.len() - 1);
        }
    }
    let rest = escaped_part(format, pos, total);
    assert(format@.skip(pos as int) == format@.subrange(pos as int, total as int));
    pattern.append(rest.as_str());
    (pattern, head)
}

fn names_of(holes: &Vec<Placeholder>) -> (r: Vec<String>)
    ensures
        texts(r@) == slot_names(slot_views(holes@)),
{
    let mut out: Vec<String> = Vec::new();
    for i in 0..holes.len()
        invariant
            texts(out@) == slot_names(slot_views(holes@)).take(i as int),
    {
        let ghost before = texts(out@);
        out.push(holes[i].name.clone());
        assert(texts(out@) == before.push(holes@[i as int].name@));
    }
    out
}

fn given_pattern<'a>(text: &'a str) -> (r: Option<&'a str>)
    ensures
        opt_str(r) == given(text@),
{
    if blank(text) {
        None
    } else {
        Some(trim(text))
    }
}

fn verdict_on(pattern: Option<&str>) -> (r: Option<String>)
    ensures
        opt_text(r) == verdict(opt_str(pattern)),
{
    match pattern {
        Some(p) => check_pattern(p),
        None => None,
    }
}

fn refusal_of(what: &str, error: &Option<String>) -> (r: Option<String>)
    ensures
        opt_text(r) == match opt_text(*error) {
            Some(e) => Some(what@ + e),
            None => None,
        },
{
    match error {
        Some(e) => Some(what.to_string().concat(e.as_str())),
        None => None,
    }
}

fn borrowed(text: &Option<String>) -> (r: Option<&str>)
    ensures
        opt_str(r) == opt_text(*text),
{
    match text {
        Some(s) => Some(s.as_str()),
        None => None,
    }
}

impl Extractor {
    fn check_patterns(&self) -> (r: Verdicts)
        ensures
            r@ == self@.verdicts(),
    {
        let holes = placeholders(self.format.as_str());
        let (full, head) = patterns_of(self.format.as_str(), &self.field_patterns, &holes);
        let probe = start_pattern_of(self.format.as_str(), &holes);
        Verdicts {
            full: check_pattern(full.as_str()),
            head: verdict_on(borrowed(&head)),
            probe: verdict_on(borrowed(&probe)),
            entry_start: verdict_on(given_pattern(self.entry_start.as_str())),
            entry_end: verdict_on(given_pattern(self.entry_end.as_str())),
        }
    }

    /// Take over the patterns, going by what is said of them. A schema one of whose patterns is
    /// refused is left as it was; a head or a probe that is refused is done without.
    pub fn build_by(&mut self, said: &Verdicts) -> (r: Result<(), String>)
        ensures
            match r {
                Ok(_) => old(self)@.error_by(said@) is None && final(self)@ == old(self)@.built_by(
                    said@,
                ),
                Err(e) => old(self)@.error_by(said@) == Some(e@) && final(self)@ == old(self)@,
            },
    {
        let ghost before = self@;
        if let Some(error) = refusal_of("Invalid extractor pattern: ", &said.full) {
            return Err(error);
        }
        if let Some(error) = refusal_of("Invalid entry_start pattern: ", &said.entry_start) {
            return Err(error);
        }
        if let Some(error) = refusal_of("Invalid entry_end pattern: ", &said.entry_end) {
            return Err(error);
        }
        let holes = placeholders(self.format.as_str());
        let (full, head) = patterns_of(self.format.as_str(), &self.field_patterns, &holes);
        let probe = start_pattern_of(self.format.as_str(), &holes);
        let start: String = match given_pattern(self.entry_start.as_str()) {
            Some(text) => text.to_string(),
            None => match probe {
                Some(probe) => if said.probe.is_none() {
                    probe
                } else {
                    full.clone()
                },
                None => full.clone(),
            },
        };
        let end: Option<String> = match given_pattern(self.entry_end.as_str()) {
            Some(text) => Some(text.to_string()),
            None => None,
        };
        let tail: Option<String> = if head.is_some() {
            assert(slots(before.format).last() == holes@.last()@);
            Some(holes[holes.len() - 1].name.clone())
        } else {
            None
        };
        let head_regex = if said.head.is_none() {
            head
        } else {
            None
        };
        let names = names_of(&holes);
        self.regex = Some(full);
        self.start_regex = Some(start);
        self.head_regex = head_regex;
        self.tail_field = tail;
        self.end_regex = end;
        self.field_names = names;
        assert(self@ =~= before.built_by(said@));
        Ok(())
    }

    /// Build the patterns. A schema whose patterns cannot be built is left as it was.
    fn build(&mut self) -> (r: Result<(), String>)
        ensures
            match r {
                Ok(_) => old(self)@.build_error() is None && final(self)@ == old(self)@.built(),
                Err(e) => old(self)@.build_error() == Some(e@) && final(self)@ == old(self)@,
            },
    {
        let said = self.check_patterns();
        self.build_by(&said)
    }
}

// ---------------------------------------------------------------------------
// Reading lines
// ---------------------------------------------------------------------------

/// A text where there is one, nothing otherwise.
pub open spec fn or_empty(o: Option<Seq<char>>) -> Seq<char> {
    match o {
        Some(s) => s,
        None => Seq::empty(),
    }
}

/// The first `max` characters, with dots where more were cut off.
pub open spec fn truncated(s: Seq<char>, max: int) -> Seq<char> {
    if s.len() <= max {
        s
    } else {
        s.take(max) + "..."@
    }
}

impl Schema {
    /// The groups of a whole entry, if the schema parses it.
    pub open spec fn captures(self, line: Seq<char>) -> Option<
        (Seq<(Seq<char>, Option<Seq<char>>)>, Seq<char>),
    > {
        match self.regex {
            Some(p) => pattern_captures(p, line),
            None => None,
        }
    }

    /// The groups of an entry's head and what follows it; the whole entry's where the schema
    /// has no trailing free-text field.
    pub open spec fn head_captures(self, line: Seq<char>) -> Option<
        (Seq<(Seq<char>, Option<Seq<char>>)>, Seq<char>),
    > {
        if self.head_regex is Some && self.tail_field is Some {
            pattern_captures(self.head_regex->0, line)
        } else {
            self.captures(line)
        }
    }

    /// Every field with the text of its group; an absent field is empty.
    pub open spec fn fields_from(self, groups: Seq<(Seq<char>, Option<Seq<char>>)>) -> Seq<
        (Seq<char>, Seq<char>),
    > {
        self.field_names.map_values(|name: Seq<char>| (name, or_empty(group_value(groups, name))))
    }

    /// Every field with the value that `line` gives it.
    pub open spec fn extracted(self, line: Seq<char>) -> Option<Seq<(Seq<char>, Seq<char>)>> {
        match self.captures(line) {
            Some(found) => Some(self.fields_from(found.0)),
            None => None,
        }
    }

    /// The field that holds the severity, under any of its usual spellings.
    pub open spec fn level_field(self) -> Option<Seq<char>> {
        if self.field_names.contains("log_level"@) {
            Some("log_level"@)
        } else if self.field_names.contains("level"@) {
            Some("level"@)
        } else if self.field_names.contains("severity"@) {
            Some("severity"@)
        } else {
            None
        }
    }

    pub open spec fn is_start(self, line: Seq<char>) -> bool {
        match self.start_regex {
            Some(p) => pattern_matches(p, line),
            None => true,
        }
    }

    pub open spec fn is_end(self, line: Seq<char>) -> bool {
        match self.end_regex {
            Some(p) => pattern_matches(p, line),
            None => false,
        }
    }

    pub open spec fn has_boundary(self) -> bool {
        !is_blank(self.entry_start) || !is_blank(self.entry_end)
    }

    /// What is wrong with sample `i`, if anything is: it must parse, and to the level it says.
    pub open spec fn sample_error(self, i: int) -> Option<Seq<char>> {
        self.sample_verdict(i, self.extracted(self.samples[i].0))
    }

    /// What is wrong with sample `i`, going by the fields that its line gave.
    pub open spec fn sample_verdict(
        self,
        i: int,
        fields: Option<Seq<(Seq<char>, Seq<char>)>>,
    ) -> Option<Seq<char>> {
        let sample = self.samples[i];
        let position = "sample "@ + decimal((i + 1) as nat);
        match fields {
            None => Some(
                position + " does not match the format: "@ + debug_quoted(
                    truncated(sample.0, 60),
                ),
            ),
            Some(fields) => match sample.1 {
                None => None,
                Some(expected) => match self.level_field() {
                    None => Some(
                        position + " expects level "@ + debug_quoted(expected)
                            + " but the format has no level field"@,
                    ),
                    Some(field) => {
                        let parsed = or_empty(pair_value(fields, field));
                        if parsed == expected {
                            None
                        } else {
                            Some(
                                position + " parsed level "@ + debug_quoted(parsed)
                                    + ", expected "@ + debug_quoted(expected),
                            )
                        }
                    },
                },
            },
        }
    }

    /// The error of the first bad sample at or after `i`.
    pub open spec fn samples_error(self, i: int) -> Option<Seq<char>>
        decreases self.samples.len() - i,
    {
        if i >= self.samples.len() {
            None
        } else if self.sample_error(i) is Some {
            self.sample_error(i)
        } else {
            self.samples_error(i + 1)
        }
    }

    /// Why this schema may not be used, if it may not.
    pub open spec fn refusal(self) -> Option<Seq<char>> {
        match self.build_error() {
            Some(e) => Some(e),
            None => self.built().samples_error(0),
        }
    }
}

/// `text`, cut to `max` characters and dots where it is longer.
pub fn truncate(text: &str, max: usize) -> (r: String)
    ensures
        r@ == truncated(text@, max as int),
{
    if text.unicode_len() <= max {
        return text.to_string();
    }
    let head = text.substring_char(0, max);
    assert(head@ == text@.take(max as int));
    head.to_string().concat("...")
}

fn has_name(names: &Vec<String>, name: &str) -> (r: bool)
    ensures
        r == texts(names@).contains(name@),
{
    crate::text::list_has(names.as_slice(), name)
}

impl Extractor {
    pub fn captures(&self, line: &str) -> (r: Option<Captures>)
        ensures
            crate::pattern::captures_view(r) == self@.captures(line@),
    {
        match &self.regex {
            Some(p) => capture(p.as_str(), line),
            None => None,
        }
    }

    /// Header captures, with the text behind the header as their rest. Falls back to the full
    /// pattern when the format has no trailing free-text field.
    pub fn head_captures(&self, line: &str) -> (r: Option<Captures>)
        ensures
            crate::pattern::captures_view(r) == self@.head_captures(line@),
    {
        match (&self.head_regex, &self.tail_field) {
            (Some(head), Some(_)) => capture(head.as_str(), line),
            _ => self.captures(line),
        }
    }

    /// The value of every field, in the order of the format.
    pub fn extract(&self, line: &str) -> (r: Option<Vec<(String, String)>>)
        ensures
            match r {
                Some(fields) => self@.extracted(line@) == Some(pairs(fields@)),
                None => self@.extracted(line@) is None,
            },
    {
        match self.captures(line) {
            Some(found) => Some(self.fields_from(&found)),
            None => None,
        }
    }

    /// The value of every field, in the order of the format, from what was captured.
    pub fn fields_from(&self, found: &Captures) -> (r: Vec<(String, String)>)
        ensures
            pairs(r@) == self@.fields_from(found@.0),
    {
        let ghost names = texts(self.field_names@);
        let ghost all = self@.fields_from(found@.0);
        let mut fields: Vec<(String, String)> = Vec::new();
        for i in 0..self.field_names.len()
            invariant
                names == texts(self.field_names@),
                all == self@.fields_from(found@.0),
                self@.field_names == names,
                pairs(fields@) == all.take(i as int),
        {
            let name = &self.field_names[i];
            let value = match found.get(name.as_str()) {
                Some(s) => s.clone(),
                None => String::new(),
            };
            let ghost before = pairs(fields@);
            fields.push((name.clone(), value));
            assert(pairs(fields@) == before.push((name@, value@)));
            assert(value@ =~= or_empty(group_value(found@.0, name@)));
            assert(all[i as int] == (name@, value@));
        }
        assert(pairs(fields@) == all);
        fields
    }

    /// The field holding the severity, under any of its usual spellings.
    pub fn level_field(&self) -> (r: Option<&'static str>)
        ensures
            crate::text::opt_str(r) == self@.level_field(),
    {
        if has_name(&self.field_names, "log_level") {
            Some("log_level")
        } else if has_name(&self.field_names, "level") {
            Some("level")
        } else if has_name(&self.field_names, "severity") {
            Some("severity")
        } else {
            None
        }
    }

    fn check_sample(&self, i: usize) -> (r: Option<String>)
        requires
            i < self.samples@.len(),
        ensures
            opt_text(r) == self@.sample_error(i as int),
    {
        let fields = self.extract(self.samples[i].line.as_str());
        self.sample_verdict(i, &fields)
    }

    /// What is wrong with sample `i`, going by the fields that its line gave.
    pub fn sample_verdict(&self, i: usize, fields: &Option<Vec<(String, String)>>) -> (r: Option<
        String,
    >)
        requires
            i < self.samples@.len(),
        ensures
            opt_text(r) == self@.sample_verdict(
                i as int,
                match *fields {
                    Some(f) => Some(pairs(f@)),
                    None => None,
                },
            ),
    {
        let sample = &self.samples[i];
        assert(self@.samples[i as int] == (sample.line@, opt_text(sample.level)));
        let mut error = "sample ".to_string();
        let count: usize = self.samples.len();
        assert(i + 1 <= count);
        error.append(decimal_text((i + 1) as u64).as_str());
        let fields = match fields {
            Some(fields) => fields,
            None => {
                error.append(" does not match the format: ");
                error.append(debug_text(truncate(sample.line.as_str(), 60).as_str()).as_str());
                return Some(error);
            },
        };
        let expected = match &sample.level {
            Some(expected) => expected,
            None => {
                return None;
            },
        };
        let field = match self.level_field() {
            Some(field) => field,
            None => {
                error.append(" expects level ");
                error.append(debug_text(expected.as_str()).as_str());
                error.append(" but the format has no level field");
                return Some(error);
            },
        };
        let parsed: &str = match find_pair(fields, field) {
            Some(s) => s.as_str(),
            None => {
                proof {
                    reveal_strlit("");
                }
                assert(""@ =~= Seq::<char>::empty());
                ""
            },
        };
        if same_text(parsed, expected.as_str()) {
            return None;
        }
        error.append(" parsed level ");
        error.append(debug_text(parsed).as_str());
        error.append(", expected ");
        error.append(debug_text(expected.as_str()).as_str());
        Some(error)
    }

    /// Every sample must parse, and parse to what it says. A schema that matches a line but
    /// extracts the wrong value is worse than one that does not match at all.
    fn validate_samples(&self) -> (r: Result<(), String>)
        ensures
            match r {
                Ok(_) => self@.samples_error(0) is None,
                Err(e) => self@.samples_error(0) == Some(e@),
            },
    {
        for i in 0..self.samples.len()
            invariant
                self@.samples.len() == self.samples@.len(),
                self@.samples_error(0) == self@.samples_error(i as int),
        {
            if let Some(error) = self.check_sample(i) {
                return Err(error);
            }
        }
        Ok(())
    }

    /// Build the patterns and check the samples, for a schema that is being defined or
    /// imported: that is the moment to reject one that mis-parses.
    pub fn compile(&mut self) -> (r: Result<(), String>)
        ensures
            match r {
                Ok(_) => old(self)@.refusal() is None,
                Err(e) => old(self)@.refusal() == Some(e@),
            },
            final(self)@ == if old(self)@.build_error() is None {
                old(self)@.built()
            } else {
                old(self)@
            },
    {
        if let Err(error) = self.build() {
            return Err(error);
        }
        self.validate_samples()
    }

    /// Build the patterns only, for a schema already stored in a project: it passed `compile`
    /// when it was added.
    pub fn compile_relaxed(&mut self) -> (r: Result<(), String>)
        ensures
            match r {
                Ok(_) => old(self)@.build_error() is None && final(self)@ == old(self)@.built(),
                Err(e) => old(self)@.build_error() == Some(e@) && final(self)@ == old(self)@,
            },
    {
        self.build()
    }

    pub fn is_start(&self, line: &str) -> (r: bool)
        ensures
            r == self@.is_start(line@),
    {
        match &self.start_regex {
            Some(p) => matches_pattern(p.as_str(), line),
            None => true,
        }
    }

    pub fn is_end(&self, line: &str) -> (r: bool)
        ensures
            r == self@.is_end(line@),
    {
        match &self.end_regex {
            Some(p) => matches_pattern(p.as_str(), line),
            None => false,
        }
    }

    pub fn uses_explicit_entry_boundary(&self) -> (r: bool)
        ensures
            r == self@.has_boundary(),
    {
        !blank(self.entry_start.as_str()) || !blank(self.entry_end.as_str())
    }

    pub fn tail_field(&self) -> (r: Option<&str>)
        ensures
            crate::text::opt_str(r) == self@.tail_field,
    {
        match &self.tail_field {
            Some(s) => Some(s.as_str()),
            None => None,
        }
    }
}

// ---------------------------------------------------------------------------
// Making schemas
// ---------------------------------------------------------------------------

/// A schema with a name and a format and nothing else, before its patterns are built.
pub open spec fn plain_schema(name: Seq<char>, format: Seq<char>) -> Schema {
    Schema {
        name,
        description: Seq::empty(),
        format,
        timestamp_field: "timestamp"@,
        timestamp_format: DEFAULT_TIMESTAMP_FORMAT@,
        field_patterns: Seq::empty(),
        entry_start: Seq::empty(),
        entry_end: Seq::empty(),
        samples: Seq::empty(),
        regex: None,
        start_regex: None,
        head_regex: None,
        tail_field: None,
        end_regex: None,
        field_names: Seq::empty(),
    }
}

impl Extractor {
    /// A schema that is defined but not compiled yet.
    pub fn unbuilt(name: &str, format: &str) -> (r: Self)
        ensures
            r@ == plain_schema(name@, format@),
    {
        let r = Extractor {
            name: name.to_string(),
            description: String::new(),
            format: format.to_string(),
            timestamp_field: "timestamp".to_string(),
            timestamp_format: DEFAULT_TIMESTAMP_FORMAT.to_string(),
            field_patterns: Vec::new(),
            entry_start: String::new(),
            entry_end: String::new(),
            samples: Vec::new(),
            regex: None,
            start_regex: None,
            head_regex: None,
            tail_field: None,
            end_regex: None,
            field_names: Vec::new(),
        };
        assert(r@ =~= plain_schema(name@, format@));
        r
    }

    pub fn new(name: &str, format: &str) -> (r: Result<Self, String>)
        ensures
            match r {
                Ok(e) => plain_schema(name@, format@).refusal() is None && e@ == plain_schema(
                    name@,
                    format@,
                ).built(),
                Err(e) => plain_schema(name@, format@).refusal() == Some(e@),
            },
    {
        let mut extractor = Extractor::unbuilt(name, format);
        match extractor.compile() {
            Ok(_) => Ok(extractor),
            Err(error) => Err(error),
        }
    }

    pub fn with_timestamp_format(name: &str, format: &str, timestamp_format: &str) -> (r: Result<
        Self,
        String,
    >)
        ensures
            match r {
                Ok(e) => plain_schema(name@, format@).refusal() is None && e@ == (Schema {
                    timestamp_format: timestamp_format@,
                    ..plain_schema(name@, format@)
                }).built(),
                Err(e) => plain_schema(name@, format@).refusal() == Some(e@),
            },
    {
        let ghost plain = plain_schema(name@, format@);
        let mut extractor = match Extractor::new(name, format) {
            Ok(extractor) => extractor,
            Err(error) => {
                return Err(error);
            },
        };
        extractor.timestamp_format = timestamp_format.to_string();
        let ghost wanted = Schema { timestamp_format: timestamp_format@, ..plain };
        let ghost set = Schema { timestamp_format: timestamp_format@, ..plain.built() };
        assert(extractor@ =~= set);
        assert(set.built() =~= wanted.built());
        assert(set.build_error() == plain.build_error());
        match extractor.compile() {
            Ok(_) => Ok(extractor),
            Err(error) => {
                assert(set.built().samples.len() == 0);
                assert(set.refusal() is None);
                Err(error)
            },
        }
    }

    pub fn with_description(self, description: &str) -> (r: Self)
        ensures
            r@ == (Schema { description: description@, ..self@ }),
    {
        let mut out = self;
        out.description = description.to_string();
        assert(out@ =~= (Schema { description: description@, ..self@ }));
        out
    }

    /// Recompiles, so the samples are checked as they are attached rather than later.
    pub fn with_samples(self, samples: Vec<SampleLine>) -> (r: Result<Self, String>)
        ensures
            ({
                let wanted = Schema { samples: sample_views(samples@), ..self@ };
                match r {
                    Ok(e) => wanted.refusal() is None && e@ == wanted.built(),
                    Err(e) => wanted.refusal() == Some(e@),
                }
            }),
    {
        let mut out = self;
        let ghost wanted = Schema { samples: sample_views(samples@), ..self@ };
        out.samples = samples;
        assert(out@ =~= wanted);
        match out.compile() {
            Ok(_) => Ok(out),
            Err(error) => Err(error),
        }
    }

    /// A pattern over a whole raw entry that pins each field in `chosen` to its value and lets
    /// every other field be anything.
    ///
    /// This is how the hide menu joins fields: the format template says where each field sits,
    /// so the conjunction becomes a single positional pattern.
    pub fn field_pattern(&self, chosen: &Vec<(String, String)>) -> (r: Option<String>)
        ensures
            opt_text(r) == self@.pinned_pattern(pairs(chosen@)),
    {
        let ghost v = slots(self.format@);
        let ghost fps = pairs(self.field_patterns@);
        let ghost picks = pairs(chosen@);
        let format = self.format.as_str();
        let holes = placeholders(format);
        assert(v.len() == holes@.len());
        if holes.len() == 0 {
            return None;
        }
        let total: usize = format.unicode_len();
        let mut pattern = "(?s)^".to_string();
        let mut pos: usize = 0;
        for k in 0..holes.len()
            invariant
                format@ == self.format@,
                v == slots(format@),
                v == slot_views(holes@),
                v.len() == holes@.len(),
                fps == pairs(self.field_patterns@),
                picks == pairs(chosen@),
                total == format@.len(),
                pos == gap_start(v, k as int),
                pattern@ == pinned_upto(format@, fps, picks, k as int),
        {
            assert(v[k as int] == holes@[k as int]@);
            proof {
                lemma_slot_gaps(format@, k as int);
                reveal_strlit("");
            }
            let hole: &Placeholder = &holes[k];
            let literal = escaped_part(format, pos, hole.start);
            let last = k + 1 == holes.len();
            let free: &str = match find_pair(&self.field_patterns, hole.name.as_str()) {
                Some(p) => p.as_str(),
                None => if last {
                    ".*"
                } else {
                    ".*?"
                },
            };
            let ghost before = pattern@;
            match find_pair(chosen, hole.name.as_str()) {
                Some(value) => {
                    if !(hole.optional && value.as_str().is_empty()) {
                        pattern.append(literal.as_str());
                        pattern.append(escape(value.as_str()).as_str());
                        assert(pattern@ == before + (literal@ + escaped(value@)));
                    } else {
                        assert(before + Seq::<char>::empty() == before);
                    }
                },
                None => {
                    if hole.optional {
                        pattern.append("(?:");
                        pattern.append(literal.as_str());
                        pattern.append(free);
                        pattern.append(")?");
                        assert(pattern@ == before + ("(?:"@ + literal@ + free@ + ")?"@));
                    } else {
                        pattern.append(literal.as_str());
                        pattern.append(free);
                        assert(pattern@ == before + (literal@ + free@));
                    }
                },
            }
            pos = hole.end;
        }
        proof {
            lemma_slot_gaps(format@, v.len() - 1);
        }
        let rest = escaped_part(format, pos, total);
        assert(format@.skip(pos as int) == format@.subrange(pos as int, total as int));
        pattern.append(rest.as_str());
        Some(pattern)
    }

    pub fn parse_timestamp(&self, fields: &Vec<(String, String)>) -> (r: Option<Timestamp>)
        ensures
            opt_stamp(r) == match pair_value(pairs(fields@), self@.timestamp_field) {
                Some(raw) => formatted_time(raw, self@.timestamp_format),
                None => None,
            },
    {
        match find_pair(fields, self.timestamp_field.as_str()) {
            Some(raw) => parse_timestamp_with_format(
                raw.as_str(),
                self.timestamp_format.as_str(),
            ),
            None => None,
        }
    }

    /// A rough "how much does this format actually assert" measure: one for each field, and one
    /// for each byte of literal text.
    pub fn specificity(&self) -> (r: usize)
        ensures
            r == self@.specificity(),
    {
        let ghost names = texts(self.field_names@);
        let mut holes: usize = 0;
        for i in 0..self.field_names.len()
            invariant
                names == texts(self.field_names@),
                holes == capped(placeholder_bytes(names.take(i as int)) as int),
        {
            assert(names.take(i + 1).drop_last() == names.take(i as int));
            assert(names.take(i + 1).last() == self.field_names@[i as int]@);
            let len: usize = self.field_names[i].as_str().as_bytes().len();
            holes = holes.saturating_add(len).saturating_add(2);
        }
        assert(names.take(names.len() as int) == names);
        let whole: usize = self.format.as_str().as_bytes().len();
        let literal: usize = whole.saturating_sub(holes);
        self.field_names.len().saturating_add(literal)
    }
}

/// The pattern for placeholder `k` where the fields in `picks` are pinned to their values. An
/// optional field pinned to nothing is left out together with its separator.
pub open spec fn pinned_piece(
    format: Seq<char>,
    patterns: Seq<(Seq<char>, Seq<char>)>,
    picks: Seq<(Seq<char>, Seq<char>)>,
    k: int,
) -> Seq<char> {
    let v = slots(format);
    let literal = literal_before(format, k);
    let free = sub_pattern(patterns, v[k].0, k + 1 == v.len());
    match pair_value(picks, v[k].0) {
        Some(value) => if v[k].3 && value.len() == 0 {
            Seq::empty()
        } else {
            literal + escaped(value)
        },
        None => if v[k].3 {
            "(?:"@ + literal + free + ")?"@
        } else {
            literal + free
        },
    }
}

pub open spec fn pinned_upto(
    format: Seq<char>,
    patterns: Seq<(Seq<char>, Seq<char>)>,
    picks: Seq<(Seq<char>, Seq<char>)>,
    k: int,
) -> Seq<char>
    decreases k,
{
    if k <= 0 {
        "(?s)^"@
    } else {
        pinned_upto(format, patterns, picks, k - 1) + pinned_piece(format, patterns, picks, k - 1)
    }
}

/// The length of a text in bytes.
pub open spec fn byte_len(s: Seq<char>) -> nat {
    encode_utf8(s).len()
}

/// The bytes that the placeholders of these fields take, brackets and all.
pub open spec fn placeholder_bytes(names: Seq<Seq<char>>) -> nat
    decreases names.len(),
{
    if names.len() == 0 {
        0
    } else {
        placeholder_bytes(names.drop_last()) + byte_len(names.last()) + 2
    }
}

/// `n`, held to what a `usize` can hold.
pub open spec fn capped(n: int) -> int {
    if n > usize::MAX {
        usize::MAX as int
    } else {
        n
    }
}

impl Schema {
    /// The pattern that pins the fields in `picks`; none for a format without placeholders.
    pub open spec fn pinned_pattern(self, picks: Seq<(Seq<char>, Seq<char>)>) -> Option<
        Seq<char>,
    > {
        if slots(self.format).len() == 0 {
            None
        } else {
            Some(
                pinned_upto(self.format, self.field_patterns, picks, slots(self.format).len() as int)
                    + literal_after(self.format),
            )
        }
    }

    pub open spec fn specificity(self) -> int {
        let literal = byte_len(self.format) - placeholder_bytes(self.field_names);
        capped(self.field_names.len() + if literal > 0 { literal } else { 0 })
    }
}

/// The fields that `sample` gives, for a preview; nothing where it does not parse.
pub fn preview_extraction(extractor: &Extractor, sample: &str) -> (r: Vec<(String, String)>)
    ensures
        pairs(r@) == match extractor@.extracted(sample@) {
            Some(fields) => fields,
            None => Seq::empty(),
        },
{
    match extractor.extract(sample) {
        Some(fields) => fields,
        None => {
            let none: Vec<(String, String)> = Vec::new();
            assert(pairs(none@) =~= Seq::empty());
            none
        },
    }
}

/// A schema read back from a project; one whose patterns cannot be built is dropped.
pub fn extractor_from_project(extractor: Extractor) -> (r: Option<Extractor>)
    ensures
        match r {
            Some(e) => extractor@.build_error() is None && e@ == extractor@.built(),
            None => extractor@.build_error() is Some,
        },
{
    let mut extractor = extractor;
    match extractor.compile_relaxed() {
        Ok(_) => Some(extractor),
        Err(_) => None,
    }
}

// ---------------------------------------------------------------------------
// Laws
// ---------------------------------------------------------------------------

impl Schema {
    /// Whether sample `i` parses, and to the level that it says.
    pub open spec fn sample_holds(self, i: int) -> bool {
        let sample = self.samples[i];
        match self.extracted(sample.0) {
            None => false,
            Some(fields) => sample.1 is Some ==> self.level_field() is Some && pair_value(
                fields,
                self.level_field()->0,
            ) == sample.1,
        }
    }

    /// Whether sample `k` is the first that does not hold.
    pub open spec fn first_bad_sample(self, k: int) -> bool {
        &&& 0 <= k < self.samples.len()
        &&& !self.sample_holds(k)
        &&& forall|i: int| 0 <= i < k ==> #[trigger] self.sample_holds(i)
    }
}

proof fn lemma_field_is_given(
    names: Seq<Seq<char>>,
    groups: Seq<(Seq<char>, Option<Seq<char>>)>,
    name: Seq<char>,
)
    requires
        names.contains(name),
    ensures
        pair_value(
            names.map_values(|n: Seq<char>| (n, or_empty(group_value(groups, n)))),
            name,
        ) == Some(or_empty(group_value(groups, name))),
    decreases names.len(),
{
    let f = |n: Seq<char>| (n, or_empty(group_value(groups, n)));
    if names[0] != name {
        let k = choose|k: int| 0 <= k < names.len() && names[k] == name;
        assert(names.skip(1)[k - 1] == name);
        lemma_field_is_given(names.skip(1), groups, name);
        assert(names.map_values(f).skip(1) =~= names.skip(1).map_values(f));
    }
}

proof fn lemma_sample_error(schema: Schema, i: int)
    requires
        0 <= i < schema.samples.len(),
    ensures
        schema.sample_error(i) is None <==> schema.sample_holds(i),
        schema.sample_error(i) is Some ==> ("sample "@ + decimal((i + 1) as nat)).is_prefix_of(
            schema.sample_error(i)->0,
        ),
{
    let sample = schema.samples[i];
    let fields = schema.extracted(sample.0);
    if fields is Some && schema.level_field() is Some {
        let found = schema.captures(sample.0)->0;
        lemma_field_is_given(schema.field_names, found.0, schema.level_field()->0);
    }
    let position = "sample "@ + decimal((i + 1) as nat);
    if let Some(error) = schema.sample_error(i) {
        assert(error.take(position.len() as int) =~= position);
    }
}

proof fn lemma_samples_error(schema: Schema, from: int)
    requires
        0 <= from <= schema.samples.len(),
        forall|i: int| 0 <= i < from ==> #[trigger] schema.sample_holds(i),
    ensures
        schema.samples_error(from) is None <==> (forall|i: int|
            0 <= i < schema.samples.len() ==> #[trigger] schema.sample_holds(i)),
        forall|k: int|
            #[trigger] schema.first_bad_sample(k) ==> schema.samples_error(from)
                == schema.sample_error(k),
        schema.samples_error(from) is Some ==> exists|k: int| #[trigger] schema.first_bad_sample(k),
    decreases schema.samples.len() - from,
{
    if from < schema.samples.len() {
        lemma_sample_error(schema, from);
        if schema.sample_holds(from) {
            lemma_samples_error(schema, from + 1);
        } else {
            assert(schema.first_bad_sample(from));
            assert forall|k: int| #[trigger] schema.first_bad_sample(k) implies k == from by {
                if k < from {
                    assert(schema.sample_holds(k));
                }
            }
        }
    }
}

/// A schema is taken exactly where its patterns can be built, each of its samples parses, and
/// every level that a sample says is the one it parses to; it keeps its samples. Patterns that
/// cannot be built are what is complained of first, and otherwise the first sample that does
/// not hold, which the complaint opens with, counted from one.
pub proof fn a_schema_is_taken_where_its_samples_hold(schema: Schema)
    ensures
        schema.refusal() is None <==> schema.build_error() is None && forall|i: int|
            0 <= i < schema.samples.len() ==> #[trigger] schema.built().sample_holds(i),
        schema.built().samples == schema.samples,
        schema.build_error() is Some ==> schema.refusal() == schema.build_error(),
        schema.build_error() is None && schema.refusal() is Some ==> exists|k: int|
            #[trigger] schema.built().first_bad_sample(k),
        forall|k: int|
            schema.build_error() is None && #[trigger] schema.built().first_bad_sample(k) ==> {
                &&& schema.refusal() is Some
                &&& ("sample "@ + decimal((k + 1) as nat)).is_prefix_of(schema.refusal()->0)
            },
{
    let built = schema.built();
    lemma_samples_error(built, 0);
    assert forall|k: int|
        schema.build_error() is None && #[trigger] built.first_bad_sample(k) implies {
        &&& schema.refusal() is Some
        &&& ("sample "@ + decimal((k + 1) as nat)).is_prefix_of(schema.refusal()->0)
    } by {
        lemma_sample_error(built, k);
    }
}

/// The severity is under the first of its usual names that the format has: `log_level`, `level`,
/// `severity`; a format with none of them has no field for it.
pub proof fn the_severity_goes_by_its_usual_names(schema: Schema)
    ensures
        match schema.level_field() {
            Some(field) => schema.field_names.contains(field) && (field == "log_level"@ || (field
                == "level"@ && !schema.field_names.contains("log_level"@)) || (field == "severity"@
                && !schema.field_names.contains("log_level"@) && !schema.field_names.contains(
                "level"@,
            ))),
            None => !schema.field_names.contains("log_level"@) && !schema.field_names.contains(
                "level"@,
            ) && !schema.field_names.contains("severity"@),
        },
{
}

/// An entry gives each field of its schema, in the order of the format, the text that its group
/// took part with; a group that took no part gives nothing.
pub proof fn every_field_has_the_text_of_its_group(schema: Schema, line: Seq<char>, i: int)
    requires
        schema.regex is Some,
        pattern_captures(schema.regex->0, line) is Some,
        0 <= i < schema.field_names.len(),
    ensures
        schema.extracted(line) is Some,
        schema.extracted(line)->0.len() == schema.field_names.len(),
        (schema.extracted(line)->0)[i].0 == schema.field_names[i],
        (schema.extracted(line)->0)[i].1 == match group_value(
            (pattern_captures(schema.regex->0, line)->0).0,
            schema.field_names[i],
        ) {
            Some(text) => text,
            None => Seq::empty(),
        },
{
}

/// A line is parsed by the pattern of a whole entry; where the format ends in free text its head
/// is parsed by the pattern of the head, and what follows it is the free text.
pub proof fn a_line_is_parsed_by_its_head_where_it_has_one(schema: Schema, line: Seq<char>)
    ensures
        schema.regex is None ==> schema.captures(line) is None,
        schema.regex is Some ==> schema.captures(line) == pattern_captures(schema.regex->0, line),
        schema.head_regex is Some && schema.tail_field is Some ==> schema.head_captures(line)
            == pattern_captures(schema.head_regex->0, line),
        schema.head_regex is None || schema.tail_field is None ==> schema.head_captures(line)
            == schema.captures(line),
{
}

/// Where entries start and end is what the schema says, without the blanks around it, where it
/// says anything; else an entry starts where the probe matches, if it has one that compiles, and
/// else where the whole pattern does, and nothing but the next one ends it.
pub proof fn a_schema_says_where_its_entries_start_and_end(schema: Schema)
    ensures
        !is_blank(schema.entry_start) ==> schema.built().start_regex == Some(
            trimmed(schema.entry_start),
        ),
        is_blank(schema.entry_start) && start_probe(schema.format) is Some && pattern_error(
            start_probe(schema.format)->0,
        ) is None ==> schema.built().start_regex == start_probe(schema.format),
        is_blank(schema.entry_start) && (start_probe(schema.format) is None || pattern_error(
            start_probe(schema.format)->0,
        ) is Some) ==> schema.built().start_regex == schema.built().regex,
        !is_blank(schema.entry_end) ==> schema.built().end_regex == Some(trimmed(schema.entry_end)),
        is_blank(schema.entry_end) ==> schema.built().end_regex is None,
{
}

} // verus!
