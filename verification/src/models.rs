//! Entries, and the files they belong to.

use crate::extractor::{or_empty, Extractor, Schema};
use crate::lists::pairs;
use crate::parser::{build_entries, grouped};
use crate::paths::{display_name, shown_name};
use crate::pattern::{captures_view, group_value, Captures};
use crate::text::{
    chars_of, is_blank, lemma_span_is, not_char, opt_str, opt_text, run_from, same_text, span,
    texts,
};
use crate::timestamp::{
    formatted_time, opt_stamp, parse_timestamp_with_format, sniff_timestamp, sniffed_time, Parts,
    Timestamp,
};
use vstd::prelude::*;

verus! {

/// One record of a log: its lines, joined.
#[derive(Debug)]
pub struct LogEntry {
    pub index: usize,
    pub line_no: usize,
    pub raw: String,
    /// Which source of a merged file it came from; always 0 otherwise.
    pub source: u16,
}

/// What an entry is: index, line number, text, source.
pub type EntryParts = (usize, usize, Seq<char>, u16);

impl View for LogEntry {
    type V = EntryParts;

    open spec fn view(&self) -> EntryParts {
        (self.index, self.line_no, self.raw@, self.source)
    }
}

impl Clone for LogEntry {
    fn clone(&self) -> (r: Self)
        ensures
            r == *self,
    {
        LogEntry {
            index: self.index,
            line_no: self.line_no,
            raw: self.raw.clone(),
            source: self.source,
        }
    }
}

pub open spec fn entry_views(v: Seq<LogEntry>) -> Seq<EntryParts> {
    v.map_values(|e: LogEntry| e@)
}

/// One contributing file inside a merged model, with the schema it was parsed under.
#[derive(Debug)]
pub struct SourceInfo {
    pub display_name: String,
    pub extractor_name: String,
    pub extractor: Option<Extractor>,
}

/// What a source is.
#[verifier::ext_equal]
pub struct Source {
    pub display_name: Seq<char>,
    pub extractor_name: Seq<char>,
    pub extractor: Option<Schema>,
}

pub open spec fn opt_schema(e: Option<Extractor>) -> Option<Schema> {
    match e {
        Some(e) => Some(e@),
        None => None,
    }
}

impl View for SourceInfo {
    type V = Source;

    open spec fn view(&self) -> Source {
        Source {
            display_name: self.display_name@,
            extractor_name: self.extractor_name@,
            extractor: opt_schema(self.extractor),
        }
    }
}

pub open spec fn source_views(v: Seq<SourceInfo>) -> Seq<Source> {
    v.map_values(|s: SourceInfo| s@)
}

/// A log file, or several merged into one.
#[derive(Debug)]
pub struct LogFileModel {
    pub file_id: String,
    pub path: String,
    pub extractor_name: String,
    pub display_name: String,
    /// A short name the user gives the source; empty by default.
    pub label: String,
    /// A free-text note on the source; empty by default.
    pub description: String,
    pub extractor: Option<Extractor>,
    pub entries: Vec<LogEntry>,
    pub loaded: bool,
    pub error: String,
    /// Non-empty only for a merged model. Each entry then resolves its fields through the
    /// source it names, so files with different schemas can be interleaved.
    pub sources: Vec<SourceInfo>,
    /// File ids this model was merged from; empty for a real file.
    pub merged_from: Vec<String>,
}

/// What a file holds.
#[verifier::ext_equal]
pub struct FileParts {
    pub file_id: Seq<char>,
    pub path: Seq<char>,
    pub extractor_name: Seq<char>,
    pub display_name: Seq<char>,
    pub label: Seq<char>,
    pub description: Seq<char>,
    pub extractor: Option<Schema>,
    pub entries: Seq<EntryParts>,
    pub loaded: bool,
    pub error: Seq<char>,
    pub sources: Seq<Source>,
    pub merged_from: Seq<Seq<char>>,
}

impl View for LogFileModel {
    type V = FileParts;

    open spec fn view(&self) -> FileParts {
        FileParts {
            file_id: self.file_id@,
            path: self.path@,
            extractor_name: self.extractor_name@,
            display_name: self.display_name@,
            label: self.label@,
            description: self.description@,
            extractor: opt_schema(self.extractor),
            entries: entry_views(self.entries@),
            loaded: self.loaded,
            error: self.error@,
            sources: source_views(self.sources@),
            merged_from: texts(self.merged_from@),
        }
    }
}

// ---------------------------------------------------------------------------
// Fields of an entry
// ---------------------------------------------------------------------------

/// Where the first line of an entry ends.
pub open spec fn head_len(raw: Seq<char>) -> int {
    span(raw, not_char('\n')) as int
}

/// The first physical line of an entry.
pub open spec fn head_line(raw: Seq<char>) -> Seq<char> {
    raw.take(head_len(raw))
}

/// The field names that a logical name may stand for, in the order they are tried.
pub open spec fn aliases(name: Seq<char>) -> Seq<Seq<char>> {
    if name == "level"@ {
        seq!["log_level"@, "level"@, "severity"@]
    } else if name == "module"@ {
        seq!["log_module"@, "module"@, "component"@]
    } else if name == "message"@ {
        seq!["message"@, "msg"@]
    } else if name == "host"@ {
        seq!["host"@]
    } else if name == "server"@ {
        seq!["server"@]
    } else if name == "pid"@ {
        seq!["process_id"@, "pid"@]
    } else if name == "thread"@ {
        seq!["thread_id"@, "thr"@, "thread"@]
    } else if name == "file"@ {
        seq!["file_name"@, "file"@]
    } else if name == "line"@ {
        seq!["line_number"@, "line"@]
    } else if name == "timestamp"@ {
        seq!["timestamp"@, "time"@, "ts"@]
    } else {
        Seq::empty()
    }
}

/// The first of `tried` from `i` on that is among `names`.
pub open spec fn first_known(
    names: Seq<Seq<char>>,
    tried: Seq<Seq<char>>,
    i: int,
) -> Option<Seq<char>>
    decreases tried.len() - i,
{
    if i >= tried.len() {
        None
    } else if names.contains(tried[i]) {
        Some(tried[i])
    } else {
        first_known(names, tried, i + 1)
    }
}

/// The field of the schema that a logical name stands for.
pub open spec fn concrete_name(schema: Schema, name: Seq<char>) -> Option<Seq<char>> {
    if schema.field_names.contains(name) {
        Some(name)
    } else {
        first_known(schema.field_names, aliases(name), 0)
    }
}

/// The field that holds the free text of an entry: the last one.
pub open spec fn message_group(schema: Schema) -> Seq<char> {
    if schema.field_names.len() > 0 {
        schema.field_names.last()
    } else {
        "message"@
    }
}

/// What a match captured: its groups, and the text behind it.
pub type Found = (Seq<(Seq<char>, Option<Seq<char>>)>, Seq<char>);

/// Whether a schema reads its entries as blocks: its format runs over line ends, or it says
/// itself where an entry starts or ends.
pub open spec fn reads_blocks(schema: Schema) -> bool {
    head_len(schema.format) < schema.format.len() || schema.has_boundary()
}

/// What the schema captures of an entry whose first line alone it does not parse.
pub open spec fn block_captures(schema: Schema, raw: Seq<char>) -> Option<Found> {
    if reads_blocks(schema) {
        schema.captures(raw)
    } else {
        None
    }
}

/// The value of a field of an entry, going by what was captured of the entry's first line
/// (`head`) and of the whole of it (`block`). Continuation lines belong to the message; the
/// fields of a block stand anywhere in it; an entry that is not parsed is all message.
pub open spec fn field_given(
    schema: Schema,
    raw: Seq<char>,
    name: Seq<char>,
    head: Option<Found>,
    block: Option<Found>,
) -> Seq<char> {
    match concrete_name(schema, name) {
        None => Seq::empty(),
        Some(field) => {
            let is_message = field == message_group(schema);
            let multi = head_len(raw) < raw.len();
            match head {
                None => match block {
                    Some(found) => or_empty(group_value(found.0, field)),
                    None => if is_message {
                        raw
                    } else {
                        Seq::empty()
                    },
                },
                Some(found) => if is_message && schema.tail_field == Some(field) {
                    found.1 + raw.skip(head_len(raw))
                } else {
                    let value = or_empty(group_value(found.0, field));
                    if is_message && multi {
                        value + raw.skip(head_len(raw))
                    } else {
                        value
                    }
                },
            }
        },
    }
}

/// The value that the schema gives to a field of an entry.
pub open spec fn schema_field(schema: Schema, raw: Seq<char>, name: Seq<char>) -> Seq<char> {
    field_given(
        schema,
        raw,
        name,
        schema.head_captures(head_line(raw)),
        block_captures(schema, raw),
    )
}

pub open spec fn is_raw_name(name: Seq<char>) -> bool {
    name == "raw"@ || name == "text"@ || name == "any"@
}

pub open spec fn is_source_name(name: Seq<char>) -> bool {
    name == "source"@ || name == "file_source"@
}

impl FileParts {
    /// The schema that parsed this entry. Merged models keep one per source file.
    pub open spec fn schema_for(self, entry: EntryParts) -> Option<Schema> {
        if self.sources.len() == 0 {
            self.extractor
        } else if (entry.3 as int) < self.sources.len() {
            self.sources[entry.3 as int].extractor
        } else {
            None
        }
    }

    /// The name of the source an entry of a merged model came from.
    pub open spec fn source_name(self, entry: EntryParts) -> Option<Seq<char>> {
        if (entry.3 as int) < self.sources.len() {
            Some(self.sources[entry.3 as int].display_name)
        } else {
            None
        }
    }

    /// The name of the schema assigned to this entry.
    pub open spec fn schema_name(self, entry: EntryParts) -> Seq<char> {
        if self.sources.len() == 0 {
            self.extractor_name
        } else if (entry.3 as int) < self.sources.len() {
            self.sources[entry.3 as int].extractor_name
        } else {
            Seq::empty()
        }
    }

    /// The value of a field of an entry, by any name the field goes under.
    pub open spec fn field(self, entry: EntryParts, name: Seq<char>) -> Seq<char> {
        if is_raw_name(name) {
            entry.2
        } else if is_source_name(name) {
            or_empty(self.source_name(entry))
        } else {
            match self.schema_for(entry) {
                None => if name == "message"@ || name == "msg"@ {
                    entry.2
                } else {
                    Seq::empty()
                },
                Some(schema) => schema_field(schema, entry.2, name),
            }
        }
    }

    /// The entry's time: its schema's timestamp field where that reads as one, else whatever
    /// time stands at the head of its first line.
    pub open spec fn time(self, entry: EntryParts) -> Option<Parts> {
        match self.schema_for(entry) {
            Some(schema) => {
                let raw = self.field(entry, schema.timestamp_field);
                if !is_blank(raw) && formatted_time(raw, schema.timestamp_format) is Some {
                    formatted_time(raw, schema.timestamp_format)
                } else {
                    sniffed_time(head_line(entry.2))
                }
            },
            None => sniffed_time(head_line(entry.2)),
        }
    }
}

fn field_aliases(name: &str) -> (r: Vec<&'static str>)
    ensures
        crate::text::strs(r@) == aliases(name@),
{
    let out: Vec<&'static str> = if same_text(name, "level") {
        vec!["log_level", "level", "severity"]
    } else if same_text(name, "module") {
        vec!["log_module", "module", "component"]
    } else if same_text(name, "message") {
        vec!["message", "msg"]
    } else if same_text(name, "host") {
        vec!["host"]
    } else if same_text(name, "server") {
        vec!["server"]
    } else if same_text(name, "pid") {
        vec!["process_id", "pid"]
    } else if same_text(name, "thread") {
        vec!["thread_id", "thr", "thread"]
    } else if same_text(name, "file") {
        vec!["file_name", "file"]
    } else if same_text(name, "line") {
        vec!["line_number", "line"]
    } else if same_text(name, "timestamp") {
        vec!["timestamp", "time", "ts"]
    } else {
        Vec::new()
    };
    assert(crate::text::strs(out@) =~= aliases(name@));
    out
}

/// Resolve a logical name (`level`) to the schema's actual field (`log_level`).
fn resolve_name(extractor: &Extractor, name: &str) -> (r: Option<String>)
    ensures
        opt_text(r) == concrete_name(extractor@, name@),
{
    if crate::text::list_has(extractor.field_names.as_slice(), name) {
        return Some(name.to_string());
    }
    let tried = field_aliases(name);
    let ghost all = crate::text::strs(tried@);
    for i in 0..tried.len()
        invariant
            all == crate::text::strs(tried@),
            all == aliases(name@),
            !extractor@.field_names.contains(name@),
            first_known(extractor@.field_names, all, 0) == first_known(
                extractor@.field_names,
                all,
                i as int,
            ),
    {
        assert(all[i as int] == tried@[i as int]@);
        if crate::text::list_has(extractor.field_names.as_slice(), tried[i]) {
            return Some(tried[i].to_string());
        }
    }
    None
}

fn message_field(extractor: &Extractor) -> (r: String)
    ensures
        r@ == message_group(extractor@),
{
    let n: usize = extractor.field_names.len();
    if n > 0 {
        assert(texts(extractor.field_names@).last() == extractor.field_names@[n - 1]@);
        extractor.field_names[n - 1].clone()
    } else {
        "message".to_string()
    }
}

/// How many characters stand before the first line feed.
fn head_length(raw: &str) -> (r: usize)
    ensures
        r == head_len(raw@),
        r <= raw@.len(),
{
    let chars = chars_of(raw);
    let f = |c: char| -> (b: bool)
        ensures
            b == (c != '\n'),
        { c != '\n' };
    let n: usize = run_from(chars.as_slice(), 0, f, Ghost(not_char('\n')));
    assert(raw@.skip(0) == raw@);
    n
}

fn captures_in_block(extractor: &Extractor, raw: &str) -> (r: Option<Captures>)
    ensures
        captures_view(r) == block_captures(extractor@, raw@),
{
    let format = extractor.format.as_str();
    if head_length(format) < format.unicode_len() || extractor.uses_explicit_entry_boundary() {
        extractor.captures(raw)
    } else {
        None
    }
}

fn field_under(extractor: &Extractor, raw: &str, name: &str) -> (r: String)
    ensures
        r@ == schema_field(extractor@, raw@, name@),
{
    let n: usize = head_length(raw);
    let first = raw.substring_char(0, n);
    assert(first@ == head_line(raw@));
    let head = extractor.head_captures(first);
    let block = if head.is_some() {
        None
    } else {
        captures_in_block(extractor, raw)
    };
    field_from(extractor, raw, name, &head, &block)
}

/// The value of a field of an entry, going by what was captured of the entry's first line
/// (`head`) and, where that is nothing, of the whole of it (`block`).
pub fn field_from(
    extractor: &Extractor,
    raw: &str,
    name: &str,
    head: &Option<Captures>,
    block: &Option<Captures>,
) -> (r: String)
    ensures
        r@ == field_given(
            extractor@,
            raw@,
            name@,
            captures_view(*head),
            captures_view(*block),
        ),
{
    let field = match resolve_name(extractor, name) {
        Some(field) => field,
        None => {
            return String::new();
        },
    };
    let is_message = same_text(field.as_str(), message_field(extractor).as_str());
    let total: usize = raw.unicode_len();
    let n: usize = head_length(raw);
    let behind = raw.substring_char(n, total);
    assert(behind@ == raw@.skip(n as int));
    let found = match head {
        Some(found) => found,
        None => {
            return match block {
                Some(found) => group_text(found, field.as_str()),
                None => if is_message {
                    raw.to_string()
                } else {
                    String::new()
                },
            };
        },
    };
    if is_message {
        if let Some(tail) = extractor.tail_field() {
            if same_text(tail, field.as_str()) {
                return found.rest.clone().concat(behind);
            }
        }
    }
    let value = group_text(found, field.as_str());
    if is_message && n < total {
        return value.concat(behind);
    }
    value
}

fn group_text(found: &Captures, field: &str) -> (r: String)
    ensures
        r@ == or_empty(group_value(found@.0, field@)),
{
    match found.get(field) {
        Some(s) => s.clone(),
        None => {
            let none = String::new();
            assert(none@ =~= Seq::<char>::empty());
            none
        },
    }
}

impl LogFileModel {
    pub fn new(
        file_id: &str,
        path: &str,
        extractor_name: &str,
        shown: &str,
        extractor: Option<Extractor>,
    ) -> (r: Self)
        ensures
            r@ == (FileParts {
                file_id: file_id@,
                path: path@,
                extractor_name: extractor_name@,
                display_name: if shown@.len() == 0 {
                    shown_name(path@)
                } else {
                    shown@
                },
                label: Seq::empty(),
                description: Seq::empty(),
                extractor: opt_schema(extractor),
                entries: Seq::empty(),
                loaded: false,
                error: Seq::empty(),
                sources: Seq::empty(),
                merged_from: Seq::empty(),
            }),
    {
        let shown = if shown.is_empty() {
            display_name(path)
        } else {
            shown.to_string()
        };
        let r = LogFileModel {
            file_id: file_id.to_string(),
            path: path.to_string(),
            extractor_name: extractor_name.to_string(),
            display_name: shown,
            label: String::new(),
            description: String::new(),
            extractor,
            entries: Vec::new(),
            loaded: false,
            error: String::new(),
            sources: Vec::new(),
            merged_from: Vec::new(),
        };
        assert(r@.entries =~= Seq::empty());
        assert(r@.sources =~= Seq::empty());
        assert(r@.merged_from =~= Seq::empty());
        r
    }

    pub fn is_merged(&self) -> (r: bool)
        ensures
            r == (self@.merged_from.len() > 0),
    {
        self.merged_from.len() > 0
    }

    /// The schema that parsed this entry. Merged models keep one per source file.
    pub fn extractor_for(&self, entry: &LogEntry) -> (r: Option<&Extractor>)
        ensures
            match r {
                Some(e) => self@.schema_for(entry@) == Some(e@),
                None => self@.schema_for(entry@) is None,
            },
    {
        if self.sources.len() == 0 {
            return self.extractor.as_ref();
        }
        let at: usize = entry.source as usize;
        if at < self.sources.len() {
            assert(self@.sources[at as int] == self.sources@[at as int]@);
            self.sources[at].extractor.as_ref()
        } else {
            None
        }
    }

    pub fn source_name(&self, entry: &LogEntry) -> (r: Option<&str>)
        ensures
            opt_str(r) == self@.source_name(entry@),
    {
        let at: usize = entry.source as usize;
        if at < self.sources.len() {
            assert(self@.sources[at as int] == self.sources@[at as int]@);
            Some(self.sources[at].display_name.as_str())
        } else {
            None
        }
    }

    /// The log schema assigned to this entry. Merged models resolve it per source.
    pub fn log_schema_name_for(&self, entry: &LogEntry) -> (r: &str)
        ensures
            r@ == self@.schema_name(entry@),
    {
        if self.sources.len() == 0 {
            return self.extractor_name.as_str();
        }
        let at: usize = entry.source as usize;
        if at < self.sources.len() {
            assert(self@.sources[at as int] == self.sources@[at as int]@);
            self.sources[at].extractor_name.as_str()
        } else {
            proof {
                reveal_strlit("");
            }
            assert(""@ =~= Seq::empty());
            ""
        }
    }

    /// Take the entries that `lines` group into under this file's schema.
    pub fn load_from_lines(&mut self, lines: &[String])
        ensures
            final(self)@ == (FileParts {
                entries: grouped(
                    texts(lines@),
                    match old(self)@.extractor {
                        Some(s) => seq![s],
                        None => Seq::empty(),
                    },
                ),
                loaded: true,
                ..old(self)@
            }),
    {
        let entries = build_entries(lines, self.extractor.as_ref());
        self.entries = entries;
        self.loaded = true;
    }

    /// Take entries that were read and grouped elsewhere.
    pub fn adopt_entries(&mut self, entries: Vec<LogEntry>)
        ensures
            final(self)@ == (FileParts {
                entries: entry_views(entries@),
                loaded: true,
                error: Seq::empty(),
                ..old(self)@
            }),
    {
        self.entries = entries;
        self.loaded = true;
        self.error = String::new();
    }

    pub fn get_field(&self, entry: &LogEntry, name: &str) -> (r: String)
        ensures
            r@ == self@.field(entry@, name@),
    {
        if same_text(name, "raw") || same_text(name, "text") || same_text(name, "any") {
            return entry.raw.clone();
        }
        if same_text(name, "source") || same_text(name, "file_source") {
            return match self.source_name(entry) {
                Some(s) => s.to_string(),
                None => String::new(),
            };
        }
        match self.extractor_for(entry) {
            None => if same_text(name, "message") || same_text(name, "msg") {
                entry.raw.clone()
            } else {
                String::new()
            },
            Some(extractor) => field_under(extractor, entry.raw.as_str(), name),
        }
    }

    /// Hand a field's value to `visit`.
    pub fn with_field<R, F: FnOnce(&str) -> R>(
        &self,
        entry: &LogEntry,
        name: &str,
        visit: F,
    ) -> (r: R)
        requires
            forall|s: &str| #[trigger] call_requires(visit, (s,)),
        ensures
            exists|s: &str|
                s@ == self@.field(entry@, name@) && #[trigger] call_ensures(visit, (s,), r),
    {
        let value = self.get_field(entry, name);
        visit(value.as_str())
    }

    /// Every field of an entry; an entry its schema does not parse is all message.
    pub fn fields_for(&self, entry: &LogEntry) -> (r: Vec<(String, String)>)
        ensures
            pairs(r@) == self@.fields(entry@),
    {
        let mut out: Vec<(String, String)> = Vec::new();
        let extractor = match self.extractor_for(entry) {
            Some(extractor) => extractor,
            None => {
                out.push(("message".to_string(), entry.raw.clone()));
                assert(pairs(out@) =~= seq![("message"@, entry.raw@)]);
                return out;
            },
        };
        if extractor.captures(entry.raw.as_str()).is_none() {
            out.push(("message".to_string(), entry.raw.clone()));
            assert(pairs(out@) =~= seq![("message"@, entry.raw@)]);
            return out;
        }
        let ghost names = extractor@.field_names;
        let ghost all = names.map_values(
            |name: Seq<char>| (name, self@.field(entry@, name)),
        );
        for i in 0..extractor.field_names.len()
            invariant
                names == texts(extractor.field_names@),
                all == names.map_values(|name: Seq<char>| (name, self@.field(entry@, name))),
                pairs(out@) == all.take(i as int),
        {
            let name = &extractor.field_names[i];
            let value = self.get_field(entry, name.as_str());
            let ghost before = pairs(out@);
            out.push((name.clone(), value));
            assert(pairs(out@) == before.push((name@, value@)));
            assert(all[i as int] == (name@, value@));
        }
        assert(pairs(out@) == all);
        out
    }

    /// The entry's time. A schema with no timestamp field, or with a format that does not fit,
    /// would leave the entry timeless, so the line itself is looked at then.
    pub fn timestamp(&self, entry: &LogEntry) -> (r: Option<Timestamp>)
        ensures
            opt_stamp(r) == self@.time(entry@),
    {
        if let Some(extractor) = self.extractor_for(entry) {
            let raw = self.get_field(entry, extractor.timestamp_field.as_str());
            if !crate::text::blank(raw.as_str()) {
                if let Some(stamp) = parse_timestamp_with_format(
                    raw.as_str(),
                    extractor.timestamp_format.as_str(),
                ) {
                    return Some(stamp);
                }
            }
        }
        let raw = entry.raw.as_str();
        let n: usize = head_length(raw);
        let head = raw.substring_char(0, n);
        assert(head@ == head_line(raw@));
        sniff_timestamp(head)
    }

    /// The message of an entry, or all of it where the message is empty.
    pub fn message(&self, entry: &LogEntry) -> (r: String)
        ensures
            r@ == if self@.field(entry@, "message"@).len() == 0 {
                entry.raw@
            } else {
                self@.field(entry@, "message"@)
            },
    {
        let message = self.get_field(entry, "message");
        if message.as_str().is_empty() {
            entry.raw.clone()
        } else {
            message
        }
    }

    pub fn level(&self, entry: &LogEntry) -> (r: String)
        ensures
            r@ == self@.field(entry@, "level"@),
    {
        self.get_field(entry, "level")
    }

    pub fn module(&self, entry: &LogEntry) -> (r: String)
        ensures
            r@ == self@.field(entry@, "module"@),
    {
        self.get_field(entry, "module")
    }

    pub fn refresh_extractor(&mut self, extractor: Option<Extractor>)
        ensures
            final(self)@ == (FileParts { extractor: opt_schema(extractor), ..old(self)@ }),
    {
        self.extractor = extractor;
    }
}

impl FileParts {
    /// Every field with its value; an entry that its schema does not parse is all message.
    pub open spec fn fields(self, entry: EntryParts) -> Seq<(Seq<char>, Seq<char>)> {
        match self.schema_for(entry) {
            Some(schema) => if schema.captures(entry.2) is Some {
                schema.field_names.map_values(
                    |name: Seq<char>| (name, self.field(entry, name)),
                )
            } else {
                seq![("message"@, entry.2)]
            },
            None => seq![("message"@, entry.2)],
        }
    }
}

// ---------------------------------------------------------------------------
// Laws
// ---------------------------------------------------------------------------

/// The usual names that a field goes under besides the one it is asked for by.
pub open spec fn goes_under(name: Seq<char>, usual: Seq<char>) -> bool {
    ||| name == "level"@ && (usual == "log_level"@ || usual == "severity"@)
    ||| name == "module"@ && (usual == "log_module"@ || usual == "component"@)
    ||| name == "message"@ && usual == "msg"@
    ||| name == "pid"@ && usual == "process_id"@
    ||| name == "thread"@ && (usual == "thread_id"@ || usual == "thr"@)
    ||| name == "file"@ && usual == "file_name"@
    ||| name == "line"@ && usual == "line_number"@
    ||| name == "timestamp"@ && (usual == "time"@ || usual == "ts"@)
}

proof fn lemma_first_known(names: Seq<Seq<char>>, tried: Seq<Seq<char>>, i: int)
    requires
        0 <= i,
    ensures
        match first_known(names, tried, i) {
            Some(name) => names.contains(name) && tried.contains(name),
            None => forall|k: int| i <= k < tried.len() ==> !names.contains(#[trigger] tried[k]),
        },
    decreases tried.len() - i,
{
    if i < tried.len() && !names.contains(tried[i]) {
        lemma_first_known(names, tried, i + 1);
    }
}

/// A field that the schema has is found under its own name, whatever else it has; a schema that
/// has it under one of its usual names is found by that; and one that has it under none gives
/// nothing.
pub proof fn fields_are_found_by_name(schema: Schema, name: Seq<char>)
    ensures
        schema.field_names.contains(name) ==> concrete_name(schema, name) == Some(name),
        concrete_name(schema, name) is Some ==> schema.field_names.contains(
            concrete_name(schema, name)->0,
        ) && (concrete_name(schema, name)->0 == name || goes_under(
            name,
            concrete_name(schema, name)->0,
        )),
        forall|usual: Seq<char>| #[trigger]
            goes_under(name, usual) && schema.field_names.contains(usual) ==> concrete_name(
                schema,
                name,
            ) is Some,
{
    let tried = aliases(name);
    lemma_first_known(schema.field_names, tried, 0);
    lemma_alias_names();
    if !schema.field_names.contains(name) {
        if let Some(found) = first_known(schema.field_names, tried, 0) {
            let k = choose|k: int| 0 <= k < tried.len() && tried[k] == found;
            assert(k == 0 || k == 1 || k == 2);
        }
        assert forall|usual: Seq<char>| #[trigger]
            goes_under(name, usual) && schema.field_names.contains(usual) implies first_known(
            schema.field_names,
            tried,
            0,
        ) is Some by {
            assert(tried[0] == usual || tried[1] == usual || tried[2] == usual);
        }
    }
}

proof fn lemma_alias_names()
    ensures
        "level"@ != "module"@,
        "level"@ != "message"@,
        "level"@ != "host"@,
        "level"@ != "server"@,
        "level"@ != "pid"@,
        "level"@ != "thread"@,
        "level"@ != "file"@,
        "level"@ != "line"@,
        "level"@ != "timestamp"@,
        "module"@ != "message"@,
        "module"@ != "host"@,
        "module"@ != "server"@,
        "module"@ != "pid"@,
        "module"@ != "thread"@,
        "module"@ != "file"@,
        "module"@ != "line"@,
        "module"@ != "timestamp"@,
        "message"@ != "host"@,
        "message"@ != "server"@,
        "message"@ != "pid"@,
        "message"@ != "thread"@,
        "message"@ != "file"@,
        "message"@ != "line"@,
        "message"@ != "timestamp"@,
        "pid"@ != "host"@,
        "pid"@ != "server"@,
        "pid"@ != "thread"@,
        "pid"@ != "file"@,
        "pid"@ != "line"@,
        "pid"@ != "timestamp"@,
        "thread"@ != "host"@,
        "thread"@ != "server"@,
        "thread"@ != "file"@,
        "thread"@ != "line"@,
        "thread"@ != "timestamp"@,
        "file"@ != "host"@,
        "file"@ != "server"@,
        "file"@ != "line"@,
        "file"@ != "timestamp"@,
        "line"@ != "host"@,
        "line"@ != "server"@,
        "line"@ != "timestamp"@,
        "timestamp"@ != "host"@,
        "timestamp"@ != "server"@,
{
    reveal_strlit("level");
    reveal_strlit("module");
    reveal_strlit("message");
    reveal_strlit("host");
    reveal_strlit("server");
    reveal_strlit("pid");
    reveal_strlit("thread");
    reveal_strlit("file");
    reveal_strlit("line");
    reveal_strlit("timestamp");
    assert("level"@.len() == 5 && "module"@.len() == 6 && "message"@.len() == 7 && "host"@.len()
        == 4 && "server"@.len() == 6 && "pid"@.len() == 3 && "thread"@.len() == 6 && "file"@.len()
        == 4 && "line"@.len() == 4 && "timestamp"@.len() == 9);
    assert("module"@[0] == 'm' && "server"@[0] == 's' && "thread"@[0] == 't');
    assert("host"@[0] == 'h' && "file"@[0] == 'f' && "line"@[0] == 'l');
}

/// Where an entry is parsed, its message takes its continuation lines with it, and every other
/// field is what was captured on the first line.
pub proof fn continuation_lines_belong_to_the_message(
    schema: Schema,
    raw: Seq<char>,
    name: Seq<char>,
    first: Seq<char>,
    more: Seq<char>,
)
    requires
        schema.field_names.contains(name),
        !first.contains('\n'),
        raw == first + seq!['\n'] + more,
        schema.head_captures(first) is Some,
    ensures
        ({
            let found = schema.head_captures(first)->0;
            let captured = match group_value(found.0, name) {
                Some(value) => value,
                None => Seq::empty(),
            };
            &&& name != schema.field_names.last() ==> schema_field(schema, raw, name) == captured
            &&& name == schema.field_names.last() && schema.tail_field == Some(name)
                ==> schema_field(schema, raw, name) == found.1 + seq!['\n'] + more
            &&& name == schema.field_names.last() && schema.tail_field != Some(name)
                ==> schema_field(schema, raw, name) == captured + seq!['\n'] + more
        }),
{
    assert forall|i: int| 0 <= i < first.len() implies not_char('\n')(#[trigger] raw[i]) by {
        assert(raw[i] == first[i]);
        assert(first.contains(first[i]));
    }
    lemma_span_is(raw, not_char('\n'), first.len());
    assert(head_line(raw) =~= first);
    assert(raw.skip(first.len() as int) =~= seq!['\n'] + more);
    let found = schema.head_captures(first)->0;
    let rest = seq!['\n'] + more;
    assert(found.1 + rest =~= found.1 + seq!['\n'] + more);
    let captured = or_empty(group_value(found.0, name));
    assert(captured + rest =~= captured + seq!['\n'] + more);
}

/// An entry that its schema does not parse is all message, and has no other field.
pub proof fn an_unparsed_entry_is_all_message(schema: Schema, raw: Seq<char>, name: Seq<char>)
    requires
        schema.field_names.contains(name),
        schema.head_captures(head_line(raw)) is None,
        schema.captures(raw) is None,
    ensures
        schema_field(schema, raw, name) == if name == schema.field_names.last() {
            raw
        } else {
            Seq::empty()
        },
{
}

/// Whatever the schema, `raw`, `text` and `any` are the whole entry, and `source` the file that
/// an entry of a merge came from.
pub proof fn every_entry_has_its_text_and_source(file: FileParts, entry: EntryParts)
    ensures
        file.field(entry, "raw"@) == entry.2,
        file.field(entry, "text"@) == entry.2,
        file.field(entry, "any"@) == entry.2,
        (entry.3 as int) < file.sources.len() ==> file.field(entry, "source"@)
            == file.sources[entry.3 as int].display_name,
        (entry.3 as int) < file.sources.len() ==> file.schema_for(entry)
            == file.sources[entry.3 as int].extractor && file.schema_name(entry)
            == file.sources[entry.3 as int].extractor_name,
        file.sources.len() == 0 ==> file.schema_for(entry) == file.extractor && file.schema_name(
            entry,
        ) == file.extractor_name,
{
    reveal_strlit("raw");
    reveal_strlit("text");
    reveal_strlit("any");
    reveal_strlit("source");
    assert("raw"@.len() == 3 && "text"@.len() == 4 && "any"@.len() == 3 && "source"@.len() == 6);
}

/// An entry is timed by its schema's timestamp field wherever that reads as a time, and else by
/// the time that its first line opens with, with or without a schema.
pub proof fn the_line_tells_the_time_where_the_schema_does_not(
    file: FileParts,
    entry: EntryParts,
    first: Seq<char>,
    more: Seq<char>,
)
    requires
        !first.contains('\n'),
        entry.2 == first || entry.2 == first + seq!['\n'] + more,
    ensures
        file.schema_for(entry) is None ==> file.time(entry) == sniffed_time(first),
        match file.schema_for(entry) {
            None => true,
            Some(schema) => {
                let read = formatted_time(
                    file.field(entry, schema.timestamp_field),
                    schema.timestamp_format,
                );
                &&& file.time(entry) == read || file.time(entry) == sniffed_time(first)
                &&& !is_blank(file.field(entry, schema.timestamp_field)) && read is Some
                    ==> file.time(entry) == read
                &&& read is None ==> file.time(entry) == sniffed_time(first)
            },
        },
{
    let raw = entry.2;
    assert forall|i: int| 0 <= i < first.len() implies not_char('\n')(#[trigger] raw[i]) by {
        assert(raw[i] == first[i]);
        assert(first.contains(first[i]));
    }
    if raw.len() > first.len() {
        assert(raw[first.len() as int] == '\n');
    }
    lemma_span_is(raw, not_char('\n'), first.len());
    assert(head_line(raw) =~= first);
}

} // verus!
