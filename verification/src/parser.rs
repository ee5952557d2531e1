//! Grouping physical lines into entries.

use crate::extractor::{Extractor, Schema};
use crate::models::{entry_views, EntryParts, LogEntry};
use crate::pattern::pattern_matches;
use crate::text::{
    blank, is_blank, is_char, join, lemma_span_end, lossy_of, lossy_text, span_end, texts,
    trim_end_by, trim_end_char, trim_end_with,
};
use vstd::prelude::*;
use vstd::slice::slice_subrange;
use vstd::utf8::encode_utf8;

verus! {

/// The views of a set of schemas.
pub open spec fn schema_views(v: Seq<&Extractor>) -> Seq<Schema> {
    v.map_values(|e: &Extractor| e@)
}

pub open spec fn any_start(schemas: Seq<Schema>, line: Seq<char>) -> bool {
    exists|i: int| 0 <= i < schemas.len() && (#[trigger] schemas[i]).is_start(line)
}

pub open spec fn any_end(schemas: Seq<Schema>, line: Seq<char>) -> bool {
    exists|i: int| 0 <= i < schemas.len() && (#[trigger] schemas[i]).is_end(line)
}

pub open spec fn any_boundary(schemas: Seq<Schema>) -> bool {
    exists|i: int| 0 <= i < schemas.len() && (#[trigger] schemas[i]).has_boundary()
}

pub open spec fn line_end() -> spec_fn(char) -> bool {
    |c: char| c == '\n' || c == '\r'
}

/// A physical line without its line ending.
pub open spec fn bare_line(raw: Seq<char>) -> Seq<char> {
    trim_end_by(raw, line_end())
}

/// What a line is to the entries around it.
#[derive(Debug, Clone, Copy, PartialEq, Eq, Structural)]
pub struct LineKind {
    /// Entries have explicit boundaries.
    pub bounded: bool,
    /// The line starts an entry.
    pub starts: bool,
    /// The line closes its entry.
    pub ends: bool,
}

/// What a line is under a set of schemas: any of them may make it start or close an entry, and
/// without a schema every line starts one.
pub open spec fn kind_of(raw: Seq<char>, schemas: Seq<Schema>) -> LineKind {
    LineKind {
        bounded: any_boundary(schemas),
        starts: schemas.len() == 0 || any_start(schemas, bare_line(raw)),
        ends: any_end(schemas, bare_line(raw)),
    }
}

/// A grouping under way: the entries that are complete, the one being filled, and how many
/// physical lines were seen.
#[verifier::ext_equal]
pub struct Grouping {
    pub entries: Seq<EntryParts>,
    pub current: Option<EntryParts>,
    pub lines: nat,
}

impl Grouping {
    pub open spec fn empty() -> Grouping {
        Grouping { entries: Seq::empty(), current: None, lines: 0 }
    }

    /// The entry being filled, taken as complete.
    pub open spec fn flushed(self) -> Grouping {
        match self.current {
            Some(e) => Grouping { entries: self.entries.push(e), current: None, lines: self.lines },
            None => self,
        }
    }

    /// The grouping after one more line, going by what it is: one that starts an entry, or finds
    /// none to continue, starts one, else it continues the current one; and it may close the
    /// entry behind it. Between entries with explicit boundaries a blank line is passed over.
    pub open spec fn take_in(self, raw: Seq<char>, kind: LineKind) -> Grouping {
        let line = bare_line(raw);
        if self.current is None && kind.bounded && is_blank(line) {
            Grouping { lines: self.lines + 1, ..self }
        } else {
            let taken = if self.current is Some && !kind.starts {
                let e = self.current->0;
                Grouping { current: Some((e.0, e.1, e.2.push('\n') + line, e.3)), ..self }
            } else {
                let done = self.flushed();
                Grouping {
                    current: Some(
                        (done.entries.len() as usize, (self.lines + 1) as usize, line, 0u16),
                    ),
                    ..done
                }
            };
            let closed = if kind.ends {
                taken.flushed()
            } else {
                taken
            };
            Grouping { lines: self.lines + 1, ..closed }
        }
    }

    /// The grouping after one more line, under a set of schemas.
    pub open spec fn step(self, raw: Seq<char>, schemas: Seq<Schema>) -> Grouping {
        self.take_in(raw, kind_of(raw, schemas))
    }

    /// The grouping after all of `lines`.
    pub open spec fn steps(self, lines: Seq<Seq<char>>, schemas: Seq<Schema>) -> Grouping
        decreases lines.len(),
    {
        if lines.len() == 0 {
            self
        } else {
            self.steps(lines.drop_last(), schemas).step(lines.last(), schemas)
        }
    }

    /// The grouping after all of `pushes`, each a line and the schemas it is pushed under.
    pub open spec fn after(self, pushes: Seq<(Seq<char>, Seq<Schema>)>) -> Grouping
        decreases pushes.len(),
    {
        if pushes.len() == 0 {
            self
        } else {
            self.after(pushes.drop_last()).step(pushes.last().0, pushes.last().1)
        }
    }

    /// Every entry is numbered by its position, and there are no more entries than lines.
    pub open spec fn numbered(self) -> bool {
        &&& forall|i: int| 0 <= i < self.entries.len() ==> (#[trigger] self.entries[i]).0 == i
        &&& self.current is Some ==> (self.current->0).0 == self.entries.len()
        &&& self.entries.len() + (if self.current is Some {
            1int
        } else {
            0int
        }) <= self.lines
    }
}

/// The entries that `lines` group into.
pub open spec fn grouped(lines: Seq<Seq<char>>, schemas: Seq<Schema>) -> Seq<EntryParts> {
    Grouping::empty().steps(lines, schemas).flushed().entries
}

fn any_starts(schemas: &[&Extractor], line: &str) -> (r: bool)
    ensures
        r == any_start(schema_views(schemas@), line@),
{
    let ghost all = schema_views(schemas@);
    for i in 0..schemas.len()
        invariant
            all == schema_views(schemas@),
            forall|j: int| 0 <= j < i ==> !(#[trigger] all[j]).is_start(line@),
    {
        assert(all[i as int] == schemas@[i as int]@);
        if schemas[i].is_start(line) {
            return true;
        }
    }
    false
}

fn any_ends(schemas: &[&Extractor], line: &str) -> (r: bool)
    ensures
        r == any_end(schema_views(schemas@), line@),
{
    let ghost all = schema_views(schemas@);
    for i in 0..schemas.len()
        invariant
            all == schema_views(schemas@),
            forall|j: int| 0 <= j < i ==> !(#[trigger] all[j]).is_end(line@),
    {
        assert(all[i as int] == schemas@[i as int]@);
        if schemas[i].is_end(line) {
            return true;
        }
    }
    false
}

fn any_boundaries(schemas: &[&Extractor]) -> (r: bool)
    ensures
        r == any_boundary(schema_views(schemas@)),
{
    let ghost all = schema_views(schemas@);
    for i in 0..schemas.len()
        invariant
            all == schema_views(schemas@),
            forall|j: int| 0 <= j < i ==> !(#[trigger] all[j]).has_boundary(),
    {
        assert(all[i as int] == schemas@[i as int]@);
        if schemas[i].uses_explicit_entry_boundary() {
            return true;
        }
    }
    false
}

fn trim_line_end<'a>(line: &'a str) -> (r: &'a str)
    ensures
        r@ == bare_line(line@),
{
    let f = |c: char| -> (b: bool)
        ensures
            b == (c == '\n' || c == '\r'),
        { c == '\n' || c == '\r' };
    trim_end_with(line, f, Ghost(line_end()))
}

/// Incremental multi-line grouping: lines that do not start a new record fold into the
/// previous entry.
#[derive(Debug)]
pub struct EntryBuilder {
    pub entries: Vec<LogEntry>,
    pub current: Option<LogEntry>,
    pub line_index: usize,
}

impl View for EntryBuilder {
    type V = Grouping;

    open spec fn view(&self) -> Grouping {
        Grouping {
            entries: entry_views(self.entries@),
            current: match self.current {
                Some(e) => Some(e@),
                None => None,
            },
            lines: self.line_index as nat,
        }
    }
}

impl EntryBuilder {
    pub fn new() -> (r: Self)
        ensures
            r@ == Grouping::empty(),
    {
        let r = EntryBuilder { entries: Vec::new(), current: None, line_index: 0 };
        assert(r@ =~= Grouping::empty());
        r
    }

    fn flush_current(&mut self)
        ensures
            final(self)@ == old(self)@.flushed(),
    {
        let ghost before = self@;
        let mut taken: Option<LogEntry> = None;
        std::mem::swap(&mut taken, &mut self.current);
        if let Some(entry) = taken {
            self.entries.push(entry);
            assert(entry_views(self.entries@) == before.entries.push(entry@));
        }
        assert(self@ =~= before.flushed());
    }

    /// Fold `raw` into the running grouping under a set of schemas. An empty set means "no
    /// schema": every line is its own entry.
    pub fn push_line(&mut self, raw: &str, schemas: &[&Extractor])
        requires
            old(self).line_index < usize::MAX,
        ensures
            final(self)@ == old(self)@.step(raw@, schema_views(schemas@)),
            final(self).line_index == old(self).line_index + 1,
    {
        let line = trim_line_end(raw);
        assert(schema_views(schemas@).len() == schemas@.len());
        let kind = LineKind {
            bounded: any_boundaries(schemas),
            starts: schemas.len() == 0 || any_starts(schemas, line),
            ends: any_ends(schemas, line),
        };
        self.take_in(raw, kind);
    }

    /// Fold `raw` into the running grouping, going by what it is.
    pub fn take_in(&mut self, raw: &str, kind: LineKind)
        requires
            old(self).line_index < usize::MAX,
        ensures
            final(self)@ == old(self)@.take_in(raw@, kind),
            final(self).line_index == old(self).line_index + 1,
    {
        let ghost before = self@;
        let line = trim_line_end(raw);
        if self.current.is_none() && kind.bounded && blank(line) {
            self.line_index = self.line_index + 1;
            assert(self@ =~= before.take_in(raw@, kind));
            return;
        }
        let mut continues = false;
        if !kind.starts {
            if let Some(entry) = &mut self.current {
                entry.raw.push('\n');
                entry.raw.append(line);
                continues = true;
            }
        }
        if !continues {
            self.flush_current();
            let fresh = LogEntry {
                index: self.entries.len(),
                line_no: self.line_index + 1,
                raw: line.to_string(),
                source: 0,
            };
            self.current = Some(fresh);
        }
        if kind.ends {
            self.flush_current();
        }
        self.line_index = self.line_index + 1;
        assert(self@ =~= before.take_in(raw@, kind));
    }

    /// How many entries are complete.
    pub fn entry_count(&self) -> (r: usize)
        ensures
            r == self@.entries.len(),
    {
        self.entries.len()
    }

    /// The entries so far, the one being filled last.
    pub fn snapshot(&self) -> (r: Vec<LogEntry>)
        ensures
            entry_views(r@) == match self@.current {
                Some(e) => self@.entries.push((self@.entries.len() as usize, e.1, e.2, e.3)),
                None => self@.entries,
            },
    {
        let mut entries: Vec<LogEntry> = Vec::new();
        for i in 0..self.entries.len()
            invariant
                entries@ == self.entries@.take(i as int),
        {
            entries.push(self.entries[i].clone());
        }
        assert(entries@ == self.entries@);
        if let Some(entry) = &self.current {
            let mut last = entry.clone();
            last.index = entries.len();
            let ghost before = entry_views(entries@);
            entries.push(last);
            assert(entry_views(entries@) == before.push(last@));
        }
        entries
    }

    /// All entries, the one being filled taken as complete.
    pub fn finish(self) -> (r: Vec<LogEntry>)
        ensures
            entry_views(r@) == self@.flushed().entries,
    {
        let mut this = self;
        this.flush_current();
        this.entries
    }
}

/// Group `lines` under an ordered set of schemas.
pub fn build_entries_multi(lines: &[String], schemas: &[&Extractor]) -> (r: Vec<LogEntry>)
    ensures
        entry_views(r@) == grouped(texts(lines@), schema_views(schemas@)),
{
    let ghost all = texts(lines@);
    let mut builder = EntryBuilder::new();
    for i in 0..lines.len()
        invariant
            all == texts(lines@),
            builder.line_index == i,
            builder@ == Grouping::empty().steps(all.take(i as int), schema_views(schemas@)),
    {
        assert(all.take(i + 1).drop_last() == all.take(i as int));
        assert(all.take(i + 1).last() == lines@[i as int]@);
        builder.push_line(lines[i].as_str(), schemas);
    }
    assert(all.take(lines@.len() as int) == all);
    builder.finish()
}

/// The set that holds one schema, or none.
pub open spec fn one_schema(extractor: Option<&Extractor>) -> Seq<Schema> {
    match extractor {
        Some(e) => seq![e@],
        None => Seq::empty(),
    }
}

/// Group `lines` under one schema, or under none.
pub fn build_entries(lines: &[String], extractor: Option<&Extractor>) -> (r: Vec<LogEntry>)
    ensures
        entry_views(r@) == grouped(texts(lines@), one_schema(extractor)),
{
    let mut schemas: Vec<&Extractor> = Vec::new();
    if let Some(e) = extractor {
        schemas.push(e);
    }
    assert(schema_views(schemas@) =~= one_schema(extractor));
    build_entries_multi(lines, schemas.as_slice())
}

// ---------------------------------------------------------------------------
// The start of a file
// ---------------------------------------------------------------------------

/// How many bytes stand before the first line feed.
pub open spec fn line_length(bytes: Seq<u8>) -> nat
    decreases bytes.len(),
{
    if bytes.len() == 0 || bytes[0] == 10 {
        0
    } else {
        1 + line_length(bytes.skip(1))
    }
}

proof fn lemma_line_length(bytes: Seq<u8>)
    ensures
        line_length(bytes) <= bytes.len(),
    decreases bytes.len(),
{
    if bytes.len() > 0 {
        lemma_line_length(bytes.skip(1));
    }
}

/// The lines of a file's bytes, each without its line feed.
pub open spec fn byte_lines(bytes: Seq<u8>) -> Seq<Seq<u8>>
    decreases bytes.len(),
{
    if bytes.len() == 0 {
        Seq::empty()
    } else if line_length(bytes) >= bytes.len() {
        seq![bytes]
    } else {
        seq![bytes.take(line_length(bytes) as int)] + byte_lines(
            bytes.skip(line_length(bytes) as int + 1),
        )
    }
}

/// A line of bytes as text, without the carriage returns at its end.
pub open spec fn line_text(line: Seq<u8>) -> Seq<char> {
    trim_end_by(lossy_of(line), is_char('\r'))
}

/// At most the first `limit` lines, as text.
pub open spec fn head_lines(bytes: Seq<u8>, limit: nat) -> Seq<Seq<char>> {
    let all = byte_lines(bytes).map_values(|line: Seq<u8>| line_text(line));
    if all.len() <= limit {
        all
    } else {
        all.take(limit as int)
    }
}

/// The first `limit` lines of a file's bytes, to guess its schema from. A byte that is no text
/// is replaced rather than given up on: a guess should not fail on it.
pub fn first_lines(bytes: &[u8], limit: usize) -> (r: Vec<String>)
    ensures
        texts(r@) == head_lines(bytes@, limit as nat),
{
    let ghost all = byte_lines(bytes@).map_values(|line: Seq<u8>| line_text(line));
    let mut out: Vec<String> = Vec::new();
    let mut from: usize = 0;
    let total: usize = bytes.len();
    assert(bytes@.skip(0) =~= bytes@);
    assert(texts(out@) + byte_lines(bytes@).map_values(|line: Seq<u8>| line_text(line)) =~= all);
    while from < total && out.len() < limit
        invariant
            total == bytes@.len(),
            from <= total,
            out@.len() <= limit,
            texts(out@) + byte_lines(bytes@.skip(from as int)).map_values(
                |line: Seq<u8>| line_text(line),
            ) == all,
        decreases total - from,
    {
        let ghost rest = bytes@.skip(from as int);
        proof {
            lemma_line_length(rest);
        }
        let mut n: usize = 0;
        assert(rest.skip(0) =~= rest);
        while n < total - from && bytes[from + n] != 10
            invariant
                total == bytes@.len(),
                from < total,
                n <= total - from,
                rest == bytes@.skip(from as int),
                n + line_length(rest.skip(n as int)) == line_length(rest),
            ensures
                n == line_length(rest),
                n <= total - from,
            decreases total - from - n,
        {
            assert(rest.skip(n as int)[0] == bytes@[from + n]);
            assert(rest.skip(n as int).skip(1) =~= rest.skip(n + 1));
            n = n + 1;
        }
        let line = slice_subrange(bytes, from, from + n);
        assert(line@ =~= rest.take(n as int));
        let text = lossy_text(line);
        let shown = trim_end_char(text.as_str(), '\r').to_string();
        let ghost before = texts(out@);
        let ghost added = shown@;
        out.push(shown);
        assert(texts(out@) =~= before.push(added));
        if from + n >= total {
            assert(rest.take(n as int) =~= rest);
            assert(bytes@.skip(total as int) =~= Seq::<u8>::empty());
            assert(seq![rest].map_values(|line: Seq<u8>| line_text(line)) =~= seq![added]);
            assert(before + seq![added] =~= texts(out@) + byte_lines(
                bytes@.skip(total as int),
            ).map_values(|line: Seq<u8>| line_text(line)));
            from = total;
        } else {
            let ghost tail = byte_lines(rest.skip(n as int + 1));
            assert(rest.skip(n as int + 1) =~= bytes@.skip(from + n + 1));
            assert((seq![rest.take(n as int)] + tail).map_values(|line: Seq<u8>| line_text(line))
                =~= seq![added] + tail.map_values(|line: Seq<u8>| line_text(line)));
            assert(before + (seq![added] + tail.map_values(|line: Seq<u8>| line_text(line)))
                =~= texts(out@) + tail.map_values(|line: Seq<u8>| line_text(line)));
            from = from + n + 1;
        }
    }
    proof {
        if from >= total {
            assert(bytes@.skip(from as int) =~= Seq::<u8>::empty());
            assert(texts(out@) =~= all);
        } else {
            assert(texts(out@) =~= all.take(limit as int));
        }
    }
    out
}

/// How far a file has been read: the bytes of its lines, each with its line end, and the number
/// of its lines.
pub struct Progress {
    pub bytes: u64,
    pub lines: u64,
}

impl Progress {
    pub fn new() -> (r: Self)
        ensures
            r.bytes == 0,
            r.lines == 0,
    {
        Progress { bytes: 0, lines: 0 }
    }

    /// Take in a line. The first line of every 4096 reports the bytes read so far, so that a
    /// bar can be shown against the file size.
    pub fn advance(&mut self, line: &str) -> (r: Option<u64>)
        requires
            old(self).bytes + encode_utf8(line@).len() + 1 <= u64::MAX,
            old(self).lines < u64::MAX,
        ensures
            final(self).bytes == old(self).bytes + encode_utf8(line@).len() + 1,
            final(self).lines == old(self).lines + 1,
            r == if old(self).lines % 4096 == 0 {
                Some(final(self).bytes)
            } else {
                None
            },
    {
        let first = self.lines % 4096 == 0;
        self.bytes = self.bytes + line.as_bytes().len() as u64 + 1;
        self.lines = self.lines + 1;
        if first {
            Some(self.bytes)
        } else {
            None
        }
    }
}

/// The text of a file's bytes; what is no UTF-8 in them is replaced.
pub fn file_text(bytes: &[u8]) -> (r: String)
    ensures
        r@ == lossy_of(bytes@),
        forall|s: Seq<char>| bytes@ == #[trigger] encode_utf8(s) ==> r@ == s,
{
    lossy_text(bytes)
}

/// The size of a file, where it is known.
pub fn file_size(known: Option<u64>) -> (r: u64)
    ensures
        r == match known {
            Some(n) => n,
            None => 0,
        },
{
    match known {
        Some(n) => n,
        None => 0,
    }
}

/// A stand-in for the number of lines of a file: its size.
pub fn file_line_count_hint(known: Option<u64>) -> (r: u64)
    ensures
        r == match known {
            Some(n) => n,
            None => 0,
        },
{
    file_size(known)
}

// ---------------------------------------------------------------------------
// Laws
// ---------------------------------------------------------------------------

proof fn lemma_step_numbered(g: Grouping, raw: Seq<char>, schemas: Seq<Schema>)
    requires
        g.numbered(),
        g.lines < usize::MAX,
    ensures
        g.step(raw, schemas).numbered(),
        g.step(raw, schemas).lines == g.lines + 1,
{
}

/// The entries so far, and where they began: one entry after the other, within the lines seen,
/// and from the one source there is.
pub open spec fn in_line_order(g: Grouping) -> bool {
    let all = g.flushed().entries;
    &&& forall|i: int|
        0 <= i < all.len() ==> 1 <= (#[trigger] all[i]).1 <= g.lines && all[i].3 == 0
    &&& forall|i: int, j: int| 0 <= i < j < all.len() ==> (#[trigger] all[i]).1 < (#[trigger] all[j]).1
}

proof fn lemma_step_in_line_order(g: Grouping, raw: Seq<char>, schemas: Seq<Schema>)
    requires
        in_line_order(g),
        g.lines < usize::MAX,
    ensures
        in_line_order(g.step(raw, schemas)),
{
    let line = bare_line(raw);
    let kind = kind_of(raw, schemas);
    let before = g.flushed().entries;
    let after = g.step(raw, schemas).flushed().entries;
    if g.current is None && kind.bounded && is_blank(line) {
        assert(after == before);
    } else if g.current is Some && !kind.starts {
        let n = g.entries.len() as int;
        assert(after.len() == before.len());
        assert forall|i: int| 0 <= i < after.len() implies (#[trigger] after[i]).1 == before[i].1
            && after[i].3 == before[i].3 by {
            if i < n {
                assert(after[i] == g.entries[i]);
                assert(before[i] == g.entries[i]);
            }
        }
        assert forall|i: int, j: int| 0 <= i < j < after.len() implies (#[trigger] after[i]).1 < (
        #[trigger] after[j]).1 by {
            assert(before[i].1 < before[j].1);
        }
    } else {
        let n = before.len() as int;
        assert(after.len() == n + 1);
        assert(after[n].1 == g.lines + 1);
        assert forall|i: int| 0 <= i < n implies #[trigger] after[i] == before[i] by {}
        assert forall|i: int, j: int| 0 <= i < j < after.len() implies (#[trigger] after[i]).1 < (
        #[trigger] after[j]).1 by {
            assert(after[i] == before[i]);
            assert(before[i].1 <= g.lines);
        }
    }
}

/// What a builder gives that was started afresh, took all of `pushes`, and was then finished.
pub open spec fn gathered(pushes: Seq<(Seq<char>, Seq<Schema>)>) -> Seq<EntryParts> {
    Grouping::empty().after(pushes).flushed().entries
}

/// The pushes of `lines`, all under one set of schemas.
pub open spec fn all_under(lines: Seq<Seq<char>>, schemas: Seq<Schema>) -> Seq<
    (Seq<char>, Seq<Schema>),
> {
    lines.map_values(|line: Seq<char>| (line, schemas))
}

/// To group lines is to push them one after the other under the same schemas.
pub proof fn grouping_is_pushing(lines: Seq<Seq<char>>, schemas: Seq<Schema>)
    ensures
        Grouping::empty().steps(lines, schemas) == Grouping::empty().after(
            all_under(lines, schemas),
        ),
        grouped(lines, schemas) == gathered(all_under(lines, schemas)),
    decreases lines.len(),
{
    if lines.len() > 0 {
        grouping_is_pushing(lines.drop_last(), schemas);
        assert(all_under(lines, schemas).drop_last() =~= all_under(lines.drop_last(), schemas));
    }
}

/// Whatever the schemas that each line is pushed under, every entry carries its own position as
/// its index and the number of the line it starts on, which grow together, and there are never
/// more entries than lines.
pub proof fn entries_are_numbered(pushes: Seq<(Seq<char>, Seq<Schema>)>)
    requires
        pushes.len() <= usize::MAX,
    ensures
        Grouping::empty().after(pushes).numbered(),
        Grouping::empty().after(pushes).lines == pushes.len(),
        in_line_order(Grouping::empty().after(pushes)),
        forall|i: int|
            0 <= i < gathered(pushes).len() ==> {
                let entry = #[trigger] gathered(pushes)[i];
                entry.0 == i && 1 <= entry.1 <= pushes.len() && entry.3 == 0
            },
        forall|i: int, j: int|
            0 <= i < j < gathered(pushes).len() ==> (#[trigger] gathered(pushes)[i]).1 < (
            #[trigger] gathered(pushes)[j]).1,
        gathered(pushes).len() <= pushes.len(),
    decreases pushes.len(),
{
    if pushes.len() > 0 {
        entries_are_numbered(pushes.drop_last());
        let g = Grouping::empty().after(pushes.drop_last());
        lemma_step_numbered(g, pushes.last().0, pushes.last().1);
        lemma_step_in_line_order(g, pushes.last().0, pushes.last().1);
    }
}

/// A snapshot holds exactly what finishing at the same point would give.
pub proof fn snapshot_is_what_finish_gives(g: Grouping)
    requires
        g.numbered(),
        g.lines <= usize::MAX,
    ensures
        (match g.current {
            Some(e) => g.entries.push((g.entries.len() as usize, e.1, e.2, e.3)),
            None => g.entries,
        }) == g.flushed().entries,
{
}

/// The texts of entries.
pub open spec fn raws(entries: Seq<EntryParts>) -> Seq<Seq<char>> {
    entries.map_values(|e: EntryParts| e.2)
}

/// Lines without their line endings.
pub open spec fn bare_lines(lines: Seq<Seq<char>>) -> Seq<Seq<char>> {
    lines.map_values(|l: Seq<char>| bare_line(l))
}

pub open spec fn newline() -> Seq<char> {
    seq!['\n']
}

proof fn lemma_join_push(parts: Seq<Seq<char>>, sep: Seq<char>, last: Seq<char>)
    ensures
        join(parts.push(last), sep) == if parts.len() == 0 {
            last
        } else {
            join(parts, sep) + sep + last
        },
{
    assert(parts.push(last).drop_last() == parts);
}

proof fn lemma_join_extend(
    parts: Seq<Seq<char>>,
    sep: Seq<char>,
    last: Seq<char>,
    more: Seq<char>,
)
    ensures
        join(parts.push(last + sep + more), sep) == join(parts.push(last), sep) + sep + more,
{
    lemma_join_push(parts, sep, last);
    lemma_join_push(parts, sep, last + sep + more);
    if parts.len() > 0 {
        assert(join(parts, sep) + sep + (last + sep + more) =~= join(parts, sep) + sep + last + sep
            + more);
    }
}

/// Whether a line is passed over: a blank one between entries with explicit boundaries.
pub open spec fn passed_over(g: Grouping, raw: Seq<char>, schemas: Seq<Schema>) -> bool {
    g.current is None && any_boundary(schemas) && is_blank(bare_line(raw))
}

/// The pushed lines that are not passed over, without their line endings.
pub open spec fn kept_lines(pushes: Seq<(Seq<char>, Seq<Schema>)>) -> Seq<Seq<char>>
    decreases pushes.len(),
{
    if pushes.len() == 0 {
        Seq::empty()
    } else {
        let before = kept_lines(pushes.drop_last());
        let (line, schemas) = pushes.last();
        if passed_over(Grouping::empty().after(pushes.drop_last()), line, schemas) {
            before
        } else {
            before.push(bare_line(line))
        }
    }
}

/// The lines of pushes.
pub open spec fn pushed_lines(pushes: Seq<(Seq<char>, Seq<Schema>)>) -> Seq<Seq<char>> {
    pushes.map_values(|push: (Seq<char>, Seq<Schema>)| push.0)
}

proof fn lemma_step_text(g: Grouping, raw: Seq<char>, schemas: Seq<Schema>)
    ensures
        ({
            let before = raws(g.flushed().entries);
            let after = raws(g.step(raw, schemas).flushed().entries);
            if passed_over(g, raw, schemas) {
                after == before
            } else {
                &&& after.len() > 0
                &&& join(after, newline()) == if before.len() == 0 {
                    bare_line(raw)
                } else {
                    join(before, newline()) + newline() + bare_line(raw)
                }
            }
        }),
{
    let line = bare_line(raw);
    let starts = schemas.len() == 0 || any_start(schemas, line);
    let before = raws(g.flushed().entries);
    let after = raws(g.step(raw, schemas).flushed().entries);
    if passed_over(g, raw, schemas) {
    } else if g.current is Some && !starts {
        let done = raws(g.entries);
        let text = (g.current->0).2;
        assert(before =~= done.push(text));
        assert(text.push('\n') + line =~= text + newline() + line);
        assert(after =~= done.push(text + newline() + line));
        lemma_join_extend(done, newline(), text, line);
    } else {
        assert(after =~= before.push(line));
        lemma_join_push(before, newline(), line);
    }
}

/// No text is lost, whatever the schemas that each line is pushed under: the entries' texts
/// joined by line feeds are the lines joined by line feeds, but for the blank lines between
/// entries that are pushed under explicit boundaries. Without such boundaries they are all the
/// lines.
pub proof fn pushing_keeps_every_line(pushes: Seq<(Seq<char>, Seq<Schema>)>)
    ensures
        join(raws(gathered(pushes)), newline()) == join(kept_lines(pushes), newline()),
        gathered(pushes).len() == 0 <==> kept_lines(pushes).len() == 0,
        (forall|i: int| 0 <= i < pushes.len() ==> !any_boundary((#[trigger] pushes[i]).1))
            ==> kept_lines(pushes) == bare_lines(pushed_lines(pushes)),
    decreases pushes.len(),
{
    if pushes.len() > 0 {
        let init = pushes.drop_last();
        let (line, schemas) = pushes.last();
        pushing_keeps_every_line(init);
        lemma_step_text(Grouping::empty().after(init), line, schemas);
        lemma_join_push(kept_lines(init), newline(), bare_line(line));
        assert(bare_lines(pushed_lines(pushes)) =~= bare_lines(pushed_lines(init)).push(
            bare_line(line),
        ));
        assert(raws(gathered(init)).len() == gathered(init).len());
        assert(raws(gathered(pushes)).len() == gathered(pushes).len());
        if forall|i: int| 0 <= i < pushes.len() ==> !any_boundary((#[trigger] pushes[i]).1) {
            assert forall|i: int| 0 <= i < init.len() implies !any_boundary(
                (#[trigger] init[i]).1,
            ) by {
                assert(init[i] == pushes[i]);
            }
            assert(pushes[pushes.len() - 1].1 == schemas);
        }
    } else {
        assert(raws(gathered(pushes)) =~= kept_lines(pushes));
        assert(bare_lines(pushed_lines(pushes)) =~= kept_lines(pushes));
    }
}

/// The same of lines that are grouped under one set of schemas.
pub proof fn grouping_keeps_every_line(lines: Seq<Seq<char>>, schemas: Seq<Schema>)
    ensures
        join(raws(grouped(lines, schemas)), newline()) == join(
            kept_lines(all_under(lines, schemas)),
            newline(),
        ),
        !any_boundary(schemas) ==> kept_lines(all_under(lines, schemas)) == bare_lines(lines),
{
    grouping_is_pushing(lines, schemas);
    pushing_keeps_every_line(all_under(lines, schemas));
    assert(pushed_lines(all_under(lines, schemas)) =~= lines);
}

/// Without any schema every line is an entry of its own.
pub proof fn without_schemas_every_line_is_an_entry(lines: Seq<Seq<char>>)
    ensures
        raws(grouped(lines, Seq::empty())) == bare_lines(lines),
    decreases lines.len(),
{
    let none = Seq::<Schema>::empty();
    if lines.len() > 0 {
        let init = lines.drop_last();
        without_schemas_every_line_is_an_entry(init);
        assert(bare_lines(lines) =~= bare_lines(init).push(bare_line(lines.last())));
        assert(raws(grouped(lines, none)) =~= raws(grouped(init, none)).push(
            bare_line(lines.last()),
        ));
    } else {
        assert(raws(grouped(lines, none)) =~= bare_lines(lines));
    }
}

/// What a line does to the entries, by the patterns of the schemas it is pushed under. Where
/// some schema has a pattern for where entries start or end, a blank line between entries is
/// left out. Any other line opens an entry of its own where none is open, where there is no
/// schema, or where one of the schemas has no start pattern or one that matches; else it is put
/// behind the open one. Where an end pattern matches, the entry is complete with it.
pub proof fn lines_open_and_close_entries(g: Grouping, raw: Seq<char>, schemas: Seq<Schema>)
    requires
        g.lines < usize::MAX,
        g.entries.len() < usize::MAX,
    ensures
        ({
            let line = bare_line(raw);
            let starts = schemas.len() == 0 || exists|i: int|
                0 <= i < schemas.len() && ((#[trigger] schemas[i]).start_regex is None
                    || pattern_matches(schemas[i].start_regex->0, line));
            let ends = exists|i: int|
                0 <= i < schemas.len() && (#[trigger] schemas[i]).end_regex is Some
                    && pattern_matches(schemas[i].end_regex->0, line);
            let bounded = exists|i: int|
                0 <= i < schemas.len() && (!is_blank((#[trigger] schemas[i]).entry_start)
                    || !is_blank(schemas[i].entry_end));
            let left_out = g.current is None && bounded && is_blank(line);
            let before = g.flushed().entries;
            let after = g.step(raw, schemas).flushed().entries;
            &&& left_out ==> after == before && g.step(raw, schemas).current is None
            &&& !left_out && (g.current is None || starts) ==> after.len() == before.len() + 1
                && after.drop_last() == before && after.last().2 == line && after.last().1
                == g.lines + 1
            &&& !left_out && g.current is Some && !starts ==> after.len() == before.len()
                && after.last().2 == before.last().2 + seq!['\n'] + line && after.last().1
                == before.last().1 && after.drop_last() == before.drop_last()
            &&& !left_out ==> (ends <==> g.step(raw, schemas).current is None)
        }),
{
    let line = bare_line(raw);
    let before = g.flushed().entries;
    let after = g.step(raw, schemas).flushed().entries;
    assert(any_start(schemas, line) <==> exists|i: int|
        0 <= i < schemas.len() && ((#[trigger] schemas[i]).start_regex is None || pattern_matches(
            schemas[i].start_regex->0,
            line,
        ))) by {
        if any_start(schemas, line) {
            let i = choose|i: int| 0 <= i < schemas.len() && (#[trigger] schemas[i]).is_start(line);
            assert(schemas[i].start_regex is None || pattern_matches(
                schemas[i].start_regex->0,
                line,
            ));
        }
        if exists|i: int|
            0 <= i < schemas.len() && ((#[trigger] schemas[i]).start_regex is None
                || pattern_matches(schemas[i].start_regex->0, line)) {
            let i = choose|i: int|
                0 <= i < schemas.len() && ((#[trigger] schemas[i]).start_regex is None
                    || pattern_matches(schemas[i].start_regex->0, line));
            assert(schemas[i].is_start(line));
        }
    }
    assert(any_end(schemas, line) <==> exists|i: int|
        0 <= i < schemas.len() && (#[trigger] schemas[i]).end_regex is Some && pattern_matches(
            schemas[i].end_regex->0,
            line,
        )) by {
        if any_end(schemas, line) {
            let i = choose|i: int| 0 <= i < schemas.len() && (#[trigger] schemas[i]).is_end(line);
            assert(schemas[i].end_regex is Some && pattern_matches(schemas[i].end_regex->0, line));
        }
        if exists|i: int|
            0 <= i < schemas.len() && (#[trigger] schemas[i]).end_regex is Some && pattern_matches(
                schemas[i].end_regex->0,
                line,
            ) {
            let i = choose|i: int|
                0 <= i < schemas.len() && (#[trigger] schemas[i]).end_regex is Some
                    && pattern_matches(schemas[i].end_regex->0, line);
            assert(schemas[i].is_end(line));
        }
    }
    assert(any_boundary(schemas) <==> exists|i: int|
        0 <= i < schemas.len() && (!is_blank((#[trigger] schemas[i]).entry_start) || !is_blank(
            schemas[i].entry_end,
        ))) by {
        if any_boundary(schemas) {
            let i = choose|i: int| 0 <= i < schemas.len() && (#[trigger] schemas[i]).has_boundary();
            assert(!is_blank(schemas[i].entry_start) || !is_blank(schemas[i].entry_end));
        }
        if exists|i: int|
            0 <= i < schemas.len() && (!is_blank((#[trigger] schemas[i]).entry_start) || !is_blank(
                schemas[i].entry_end,
            )) {
            let i = choose|i: int|
                0 <= i < schemas.len() && (!is_blank((#[trigger] schemas[i]).entry_start)
                    || !is_blank(schemas[i].entry_end));
            assert(schemas[i].has_boundary());
        }
    }
    if g.current is Some && schemas.len() > 0 && !any_start(schemas, line) {
        let text = (g.current->0).2;
        assert(text.push('\n') + line =~= text + seq!['\n'] + line);
        assert(after.drop_last() =~= g.entries);
        assert(before.drop_last() =~= g.entries);
    } else if !(g.current is None && any_boundary(schemas) && is_blank(line)) {
        assert(after.drop_last() =~= before);
    }
}

/// A line is kept without the line feeds and carriage returns at its end, and with all else.
pub proof fn only_the_line_ending_is_cut(raw: Seq<char>)
    ensures
        bare_line(raw).len() <= raw.len(),
        raw.take(bare_line(raw).len() as int) == bare_line(raw),
        bare_line(raw).len() > 0 ==> bare_line(raw).last() != '\n' && bare_line(raw).last() != '\r',
        forall|i: int|
            bare_line(raw).len() <= i < raw.len() ==> #[trigger] raw[i] == '\n' || raw[i] == '\r',
{
    lemma_span_end(raw, line_end());
    let n = span_end(raw, line_end());
    assert forall|i: int| bare_line(raw).len() <= i < raw.len() implies #[trigger] raw[i] == '\n'
        || raw[i] == '\r' by {
        assert(line_end()(raw[i]));
    }
    if n < raw.len() {
        assert(!line_end()(raw[raw.len() - n - 1]));
    }
}

} // verus!
