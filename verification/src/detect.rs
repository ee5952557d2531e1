//! Picking the schema that best explains a file.

use crate::extractor::{
    Extractor, SampleLine, Schema, BRACKETED_DEFAULT_FORMAT, DEFAULT_EXTRACTOR_NAME,
    GENERIC_EXTRACTOR_NAME, GENERIC_FORMAT, plain_schema, sample_views,
};
use crate::lists::{count, keep};
use crate::models::{entry_views, EntryParts};
use crate::parser::{build_entries, grouped, one_schema, schema_views};
use crate::text::{blank, is_blank, is_text_less, same_text, text_less, texts};
use vstd::prelude::*;

verus! {

pub open spec fn inked_entry() -> spec_fn(EntryParts) -> bool {
    |e: EntryParts| !is_blank(e.2)
}

pub open spec fn inked_line() -> spec_fn(Seq<char>) -> bool {
    |line: Seq<char>| !is_blank(line)
}

/// Whether so many entries parsed out of so many speak for a schema: at least one, and a quarter
/// of them.
pub open spec fn enough(coverage: (nat, nat)) -> bool {
    coverage.0 > 0 && coverage.0 * 4 >= coverage.1
}

/// Whether a coverage speaks for a schema. A quarter of the entries is enough to rule out an
/// accidental match, and loose enough for a log that is mostly stack traces.
pub fn is_enough(coverage: (usize, usize)) -> (r: bool)
    ensures
        r == enough((coverage.0 as nat, coverage.1 as nat)),
{
    let (score, total) = coverage;
    // `score * 4 >= total`, without the product.
    score > 0 && score >= total / 4 + (if total % 4 == 0 {
        0
    } else {
        1
    })
}

impl Schema {
    pub open spec fn parses(self) -> spec_fn(EntryParts) -> bool {
        |e: EntryParts| !is_blank(e.2) && self.captures(e.2) is Some
    }

    /// How many of the entries that `lines` group into this schema parses, and how many there
    /// are; blank entries do not count.
    pub open spec fn coverage(self, lines: Seq<Seq<char>>) -> (nat, nat) {
        let entries = grouped(lines, seq![self]);
        (count(entries, self.parses()), count(entries, inked_entry()))
    }

    pub open spec fn explains(self, lines: Seq<Seq<char>>) -> bool {
        enough(self.coverage(lines))
    }

    /// Tried before `other`: more specific, and by name where equally so.
    pub open spec fn ranks_before(self, other: Schema) -> bool {
        self.specificity() > other.specificity() || (self.specificity() == other.specificity()
            && text_less(self.name, other.name))
    }
}

impl Extractor {
    /// `(matching entries, total entries)` after applying this schema's entry-boundary rules.
    pub fn match_coverage(&self, lines: &[String]) -> (r: (usize, usize))
        ensures
            r.0 == self@.coverage(texts(lines@)).0,
            r.1 == self@.coverage(texts(lines@)).1,
    {
        let entries = build_entries(lines, Some(self));
        let ghost all = entry_views(entries@);
        assert(all == grouped(texts(lines@), one_schema(Some(self))));
        let mut matched: usize = 0;
        let mut total: usize = 0;
        for i in 0..entries.len()
            invariant
                all == entry_views(entries@),
                matched == count(all.take(i as int), self@.parses()),
                total == count(all.take(i as int), inked_entry()),
                matched <= i,
                total <= i,
        {
            assert(all.take(i + 1).drop_last() == all.take(i as int));
            assert(all.take(i + 1).last() == entries@[i as int]@);
            let raw = entries[i].raw.as_str();
            if !blank(raw) {
                total = total + 1;
                if self.captures(raw).is_some() {
                    matched = matched + 1;
                }
            }
        }
        assert(all.take(entries@.len() as int) == all);
        (matched, total)
    }

    /// How many of `lines` this schema parses.
    pub fn match_score(&self, lines: &[String]) -> (r: usize)
        ensures
            r == self@.coverage(texts(lines@)).0,
    {
        self.match_coverage(lines).0
    }

    fn explains(&self, lines: &[String]) -> (r: bool)
        ensures
            r == self@.explains(texts(lines@)),
    {
        is_enough(self.match_coverage(lines))
    }

    fn ranks_before(&self, other: &Extractor) -> (r: bool)
        ensures
            r == self@.ranks_before(other@),
    {
        let mine: usize = self.specificity();
        let theirs: usize = other.specificity();
        mine > theirs || (mine == theirs && is_text_less(self.name.as_str(), other.name.as_str()))
    }
}

/// Where `x` goes in a ranked list: before the first that it ranks before, at or after `i`.
pub open spec fn rank_position(ranked: Seq<Schema>, x: Schema, i: int) -> int
    decreases ranked.len() - i,
{
    if i >= ranked.len() || x.ranks_before(ranked[i]) {
        i
    } else {
        rank_position(ranked, x, i + 1)
    }
}

/// The candidates in the order in which they are tried; equals keep their order.
pub open spec fn ranked(candidates: Seq<Schema>) -> Seq<Schema>
    decreases candidates.len(),
{
    if candidates.len() == 0 {
        Seq::empty()
    } else {
        let before = ranked(candidates.drop_last());
        before.insert(rank_position(before, candidates.last(), 0), candidates.last())
    }
}

/// The first schema at or after `i` that explains the lines.
pub open spec fn first_explaining(ordered: Seq<Schema>, lines: Seq<Seq<char>>, i: int) -> Option<
    Schema,
>
    decreases ordered.len() - i,
{
    if i < 0 || i >= ordered.len() {
        None
    } else if ordered[i].explains(lines) {
        Some(ordered[i])
    } else {
        first_explaining(ordered, lines, i + 1)
    }
}

/// How many lines are not blank.
pub open spec fn considered(lines: Seq<Seq<char>>) -> nat {
    count(lines, inked_line())
}

/// The most specific candidate that explains the lines.
pub open spec fn detected(candidates: Seq<Schema>, lines: Seq<Seq<char>>) -> Option<Schema> {
    if considered(lines) == 0 {
        None
    } else {
        first_explaining(ranked(candidates), lines, 0)
    }
}

proof fn lemma_rank_position(ranked: Seq<Schema>, x: Schema, i: int)
    requires
        0 <= i <= ranked.len(),
    ensures
        i <= rank_position(ranked, x, i) <= ranked.len(),
        forall|k: int|
            i <= k < rank_position(ranked, x, i) ==> !x.ranks_before(#[trigger] ranked[k]),
        rank_position(ranked, x, i) < ranked.len() ==> x.ranks_before(
            ranked[rank_position(ranked, x, i)],
        ),
    decreases ranked.len() - i,
{
    if i < ranked.len() && !x.ranks_before(ranked[i]) {
        lemma_rank_position(ranked, x, i + 1);
    }
}

/// The candidates, most specific first.
pub fn rank<'a>(candidates: &[&'a Extractor]) -> (r: Vec<&'a Extractor>)
    ensures
        schema_views(r@) == ranked(schema_views(candidates@)),
{
    let ghost all = schema_views(candidates@);
    let mut out: Vec<&'a Extractor> = Vec::new();
    assert(schema_views(out@) =~= ranked(all.take(0)));
    for i in 0..candidates.len()
        invariant
            all == schema_views(candidates@),
            schema_views(out@) == ranked(all.take(i as int)),
    {
        let x = candidates[i];
        let ghost before = schema_views(out@);
        assert(all.take(i + 1).drop_last() == all.take(i as int));
        assert(all.take(i + 1).last() == x@);
        let mut at: usize = 0;
        while at < out.len() && !x.ranks_before(out[at])
            invariant
                at <= out@.len(),
                before == schema_views(out@),
                rank_position(before, x@, 0) == rank_position(before, x@, at as int),
            ensures
                at <= out@.len(),
                rank_position(before, x@, 0) == at,
            decreases out@.len() - at,
        {
            assert(before[at as int] == out@[at as int]@);
            at = at + 1;
        }
        out.insert(at, x);
        assert(schema_views(out@) == before.insert(at as int, x@));
    }
    assert(all.take(candidates@.len() as int) == all);
    out
}

fn count_considered(lines: &[String]) -> (r: usize)
    ensures
        r == considered(texts(lines@)),
{
    let ghost all = texts(lines@);
    let mut n: usize = 0;
    for i in 0..lines.len()
        invariant
            all == texts(lines@),
            n == count(all.take(i as int), inked_line()),
            n <= i,
    {
        assert(all.take(i + 1).drop_last() == all.take(i as int));
        assert(all.take(i + 1).last() == lines@[i as int]@);
        if !blank(lines[i].as_str()) {
            n = n + 1;
        }
    }
    assert(all.take(lines@.len() as int) == all);
    n
}

/// Pick the schema that best explains `lines`.
///
/// Candidates are tried most specific first, not best-scoring first: a bare `<message>` format
/// matches every line, including the continuations that a schema with fields correctly refuses. A
/// schema only has to explain a decent share of the entries to win.
pub fn detect<'a>(candidates: &[&'a Extractor], lines: &[String]) -> (r: Option<&'a Extractor>)
    ensures
        match r {
            Some(e) => detected(schema_views(candidates@), texts(lines@)) == Some(e@),
            None => detected(schema_views(candidates@), texts(lines@)) is None,
        },
{
    if count_considered(lines) == 0 {
        return None;
    }
    let ordered = rank(candidates);
    let ghost all = schema_views(ordered@);
    for i in 0..ordered.len()
        invariant
            all == schema_views(ordered@),
            all == ranked(schema_views(candidates@)),
            considered(texts(lines@)) > 0,
            first_explaining(all, texts(lines@), 0) == first_explaining(
                all,
                texts(lines@),
                i as int,
            ),
    {
        assert(all[i as int] == ordered@[i as int]@);
        if ordered[i].explains(lines) {
            return Some(ordered[i]);
        }
    }
    None
}

// ---------------------------------------------------------------------------
// A set of schemas
// ---------------------------------------------------------------------------

pub open spec fn not_generic() -> spec_fn(Schema) -> bool {
    |s: Schema| s.name != GENERIC_EXTRACTOR_NAME@
}

/// The first schema at or after `i` that parses `line`; the length where none does.
pub open spec fn first_parsing(ordered: Seq<Schema>, line: Seq<char>, i: int) -> int
    decreases ordered.len() - i,
{
    if i >= ordered.len() || ordered[i].captures(line) is Some {
        i
    } else {
        first_parsing(ordered, line, i + 1)
    }
}

/// The predicate "this line belongs to schema `k`".
pub open spec fn belongs_to(ordered: Seq<Schema>, k: int) -> spec_fn(Seq<char>) -> bool {
    |line: Seq<char>| !is_blank(line) && first_parsing(ordered, line, 0) == k
}

/// A fifth of so many, and at least one.
pub open spec fn fifth(n: int) -> int {
    if (n + 4) / 5 < 1 {
        1
    } else {
        (n + 4) / 5
    }
}

/// How many lines a schema must own out of so many to be kept.
pub fn fifth_of(n: usize) -> (r: usize)
    ensures
        r == fifth(n as int),
{
    if n == 0 {
        1
    } else {
        n / 5 + (if n % 5 == 0 {
            0
        } else {
            1
        })
    }
}

/// A fifth of the lines that are not blank, and at least one.
pub open spec fn share(lines: Seq<Seq<char>>) -> int {
    fifth(considered(lines) as int)
}

/// Of the first `n` schemas those that own their share of the lines.
pub open spec fn owners(ordered: Seq<Schema>, lines: Seq<Seq<char>>, n: int) -> Seq<Schema>
    decreases n,
{
    if n <= 0 {
        Seq::empty()
    } else if count(lines, belongs_to(ordered, n - 1)) >= share(lines) {
        owners(ordered, lines, n - 1).push(ordered[n - 1])
    } else {
        owners(ordered, lines, n - 1)
    }
}

/// The schemas a source should be parsed with: each line belongs to the most specific schema
/// that parses it, and every schema that owns a fifth of the lines is kept.
pub open spec fn detected_all(candidates: Seq<Schema>, lines: Seq<Seq<char>>) -> Seq<Schema> {
    if considered(lines) == 0 {
        Seq::empty()
    } else {
        let ordered = ranked(keep(candidates, not_generic()));
        owners(ordered, lines, ordered.len() as int)
    }
}

fn first_parser(ordered: &Vec<&Extractor>, line: &str) -> (r: usize)
    ensures
        r == first_parsing(schema_views(ordered@), line@, 0),
        r <= ordered@.len(),
{
    let ghost all = schema_views(ordered@);
    for i in 0..ordered.len()
        invariant
            all == schema_views(ordered@),
            first_parsing(all, line@, 0) == first_parsing(all, line@, i as int),
    {
        assert(all[i as int] == ordered@[i as int]@);
        if ordered[i].captures(line).is_some() {
            return i;
        }
    }
    ordered.len()
}

/// The ordered set of schemas a source should be parsed with, one per format present in
/// `lines`. The catch-all schema is never among them.
pub fn detect_all<'a>(candidates: &[&'a Extractor], lines: &[String]) -> (r: Vec<&'a Extractor>)
    ensures
        schema_views(r@) == detected_all(schema_views(candidates@), texts(lines@)),
{
    let ghost cands = schema_views(candidates@);
    let ghost all_lines = texts(lines@);
    let mut out: Vec<&'a Extractor> = Vec::new();
    assert(schema_views(out@) =~= Seq::<Schema>::empty());
    let total: usize = count_considered(lines);
    if total == 0 {
        return out;
    }
    let mut named: Vec<&'a Extractor> = Vec::new();
    assert(schema_views(named@) =~= keep(cands.take(0), not_generic()));
    for i in 0..candidates.len()
        invariant
            cands == schema_views(candidates@),
            schema_views(named@) == keep(cands.take(i as int), not_generic()),
    {
        assert(cands.take(i + 1).drop_last() == cands.take(i as int));
        assert(cands.take(i + 1).last() == candidates@[i as int]@);
        if !same_text(candidates[i].name.as_str(), GENERIC_EXTRACTOR_NAME) {
            let ghost before = schema_views(named@);
            named.push(candidates[i]);
            assert(schema_views(named@) == before.push(candidates@[i as int]@));
        }
    }
    assert(cands.take(candidates@.len() as int) == cands);
    let ordered = rank(named.as_slice());
    let ghost order = schema_views(ordered@);
    let mut counts: Vec<usize> = Vec::new();
    for k in 0..ordered.len()
        invariant
            counts@.len() == k,
            forall|j: int| 0 <= j < k ==> counts@[j] == 0,
    {
        counts.push(0);
    }
    for i in 0..lines.len()
        invariant
            all_lines == texts(lines@),
            order == schema_views(ordered@),
            counts@.len() == order.len(),
            order.len() == ordered@.len(),
            forall|k: int|
                0 <= k < counts@.len() ==> #[trigger] counts@[k] == count(
                    all_lines.take(i as int),
                    belongs_to(order, k),
                ) && counts@[k] <= i,
    {
        let ghost line = lines@[i as int]@;
        assert(all_lines.take(i + 1).drop_last() == all_lines.take(i as int));
        assert(all_lines.take(i + 1).last() == line);
        if !blank(lines[i].as_str()) {
            let owner: usize = first_parser(&ordered, lines[i].as_str());
            if owner < counts.len() {
                assert(counts@[owner as int] <= i);
                let more: usize = counts[owner] + 1;
                counts.set(owner, more);
            }
        }
    }
    assert(all_lines.take(lines@.len() as int) == all_lines);
    let threshold: usize = fifth_of(total);
    for k in 0..ordered.len()
        invariant
            order == schema_views(ordered@),
            counts@.len() == order.len(),
            order.len() == ordered@.len(),
            threshold == share(all_lines),
            forall|j: int|
                0 <= j < counts@.len() ==> #[trigger] counts@[j] == count(
                    all_lines,
                    belongs_to(order, j),
                ),
            schema_views(out@) == owners(order, all_lines, k as int),
    {
        if counts[k] >= threshold {
            let ghost before = schema_views(out@);
            assert(order[k as int] == ordered@[k as int]@);
            out.push(ordered[k]);
            assert(schema_views(out@) == before.push(order[k as int]));
        }
    }
    out
}

// ---------------------------------------------------------------------------
// Built-in schemas
// ---------------------------------------------------------------------------

/// The two shapes of a bracketed error line, and an ordinary one.
pub open spec fn bracketed_lines() -> Seq<(Seq<char>, Option<Seq<char>>)> {
    seq![
        (
            "2026-06-16 10:09:43.288 [HOST:h1][SERVER:AppServer][PID:54][THR:136612056716864][Kernel][Trace][UID:0][SID:0][OID:0][ServerDispatcher.cpp:394] NetChannel : Channel is closed."@,
            Some("Trace"@),
        ),
        (
            "2026-06-16 10:12:08.631 [HOST:h1][SERVER:AppServer][PID:53][THR:135332369409600][Query Engine][Error][0x800424FB][UID:5CCC][SID:B830][OID:72EF][QueryEngine.cpp:6580] We could not obtain the data."@,
            Some("Error"@),
        ),
        (
            "2026-06-16 10:12:15.744 [HOST:h1][SERVER:AppServer][PID:53][THR:135332369409600][Query Engine][Error][UID:5CCC][SID:B830][OID:72EF][QueryEngine.cpp:6600] Plain error, no code."@,
            Some("Error"@),
        ),
    ]
}

/// The bracketed format with nothing but its name.
pub open spec fn bracketed_format() -> Schema {
    plain_schema(DEFAULT_EXTRACTOR_NAME@, BRACKETED_DEFAULT_FORMAT@)
}

/// The bracketed schema with its description and samples.
pub open spec fn bracketed_schema() -> Schema {
    Schema {
        description: "Bracketed server log format"@,
        samples: bracketed_lines(),
        ..bracketed_format().built()
    }
}

/// The catch-all format with nothing but its name.
pub open spec fn generic_format() -> Schema {
    plain_schema(GENERIC_EXTRACTOR_NAME@, GENERIC_FORMAT@)
}

/// The catch-all schema with its description.
pub open spec fn generic_schema() -> Schema {
    Schema {
        description: "One record per line, for logs no other schema explains"@,
        ..generic_format().built()
    }
}

fn bracketed_samples() -> (r: Vec<SampleLine>)
    ensures
        sample_views(r@) == bracketed_lines(),
{
    let mut out: Vec<SampleLine> = Vec::new();
    out.push(
        SampleLine::with_level(
            "2026-06-16 10:09:43.288 [HOST:h1][SERVER:AppServer][PID:54][THR:136612056716864][Kernel][Trace][UID:0][SID:0][OID:0][ServerDispatcher.cpp:394] NetChannel : Channel is closed.",
            "Trace",
        ),
    );
    out.push(
        SampleLine::with_level(
            "2026-06-16 10:12:08.631 [HOST:h1][SERVER:AppServer][PID:53][THR:135332369409600][Query Engine][Error][0x800424FB][UID:5CCC][SID:B830][OID:72EF][QueryEngine.cpp:6580] We could not obtain the data.",
            "Error",
        ),
    );
    out.push(
        SampleLine::with_level(
            "2026-06-16 10:12:15.744 [HOST:h1][SERVER:AppServer][PID:53][THR:135332369409600][Query Engine][Error][UID:5CCC][SID:B830][OID:72EF][QueryEngine.cpp:6600] Plain error, no code.",
            "Error",
        ),
    );
    assert(sample_views(out@) =~= bracketed_lines());
    out
}

/// The built-in bracketed schema. An error is what the regex engine says against it.
pub fn default_extractor() -> (r: Result<Extractor, String>)
    ensures
        match r {
            Ok(e) => bracketed_format().refusal() is None && bracketed_schema().refusal() is None
                && e@ == bracketed_schema().built(),
            Err(e) => Some(e@) == if bracketed_format().refusal() is Some {
                bracketed_format().refusal()
            } else {
                bracketed_schema().refusal()
            },
        },
{
    match Extractor::new(DEFAULT_EXTRACTOR_NAME, BRACKETED_DEFAULT_FORMAT) {
        Ok(extractor) => {
            let described = extractor.with_description("Bracketed server log format");
            let samples = bracketed_samples();
            assert((Schema { samples: sample_views(samples@), ..described@ })
                =~= bracketed_schema());
            described.with_samples(samples)
        },
        Err(error) => Err(error),
    }
}

/// The catch-all schema: one record per line, no fields but the text itself.
pub fn generic_extractor() -> (r: Result<Extractor, String>)
    ensures
        match r {
            Ok(e) => generic_format().refusal() is None && e@ == generic_schema(),
            Err(e) => generic_format().refusal() == Some(e@),
        },
{
    match Extractor::new(GENERIC_EXTRACTOR_NAME, GENERIC_FORMAT) {
        Ok(extractor) => Ok(
            extractor.with_description(
                "One record per line, for logs no other schema explains",
            ),
        ),
        Err(error) => Err(error),
    }
}

/// The schemas every project has: the fallback of detection, and its catch-all.
pub fn builtin_extractors() -> (r: Result<Vec<Extractor>, String>)
    ensures
        match r {
            Ok(v) => v@.len() == 2 && v@[0]@ == bracketed_schema().built() && v@[1]@
                == generic_schema(),
            Err(e) => Some(e@) == if bracketed_format().refusal() is Some {
                bracketed_format().refusal()
            } else if bracketed_schema().refusal() is Some {
                bracketed_schema().refusal()
            } else {
                generic_format().refusal()
            },
        },
        r is Ok <==> bracketed_format().refusal() is None && bracketed_schema().refusal() is None
            && generic_format().refusal() is None,
{
    let bracketed = match default_extractor() {
        Ok(e) => e,
        Err(error) => {
            return Err(error);
        },
    };
    let generic = match generic_extractor() {
        Ok(e) => e,
        Err(error) => {
            return Err(error);
        },
    };
    let mut out: Vec<Extractor> = Vec::new();
    out.push(bracketed);
    out.push(generic);
    Ok(out)
}

/// The views of a list of schemas.
pub open spec fn extractor_views(v: Seq<Extractor>) -> Seq<Schema> {
    v.map_values(|e: Extractor| e@)
}

/// The schemas of `parsed` that compile, compiled, in order.
pub open spec fn usable(parsed: Seq<Schema>) -> Seq<Schema>
    decreases parsed.len(),
{
    if parsed.len() == 0 {
        Seq::empty()
    } else if parsed.last().refusal() is None {
        usable(parsed.drop_last()).push(parsed.last().built())
    } else {
        usable(parsed.drop_last())
    }
}

/// The bundled schemas, compiled. One that does not compile is skipped: a broken bundle must
/// not stop a folder from opening.
pub fn bundled_schemas(parsed: Vec<Extractor>) -> (r: Vec<Extractor>)
    ensures
        extractor_views(r@) == usable(extractor_views(parsed@)),
{
    let ghost all = extractor_views(parsed@);
    let mut out: Vec<Extractor> = Vec::new();
    assert(extractor_views(out@) =~= usable(all.take(0)));
    for i in 0..parsed.len()
        invariant
            all == extractor_views(parsed@),
            extractor_views(out@) == usable(all.take(i as int)),
    {
        assert(all.take(i + 1).drop_last() == all.take(i as int));
        assert(all.take(i + 1).last() == parsed@[i as int]@);
        let mut schema = parsed[i].clone();
        if schema.compile().is_ok() {
            let ghost before = extractor_views(out@);
            let ghost added = schema@;
            out.push(schema);
            assert(extractor_views(out@) == before.push(added));
        }
    }
    assert(all.take(parsed@.len() as int) == all);
    out
}

// ---------------------------------------------------------------------------
// Laws
// ---------------------------------------------------------------------------

proof fn lemma_ranks_transitive(a: Schema, b: Schema, c: Schema)
    requires
        a.ranks_before(b),
        b.ranks_before(c),
    ensures
        a.ranks_before(c),
{
    if a.specificity() == b.specificity() && b.specificity() == c.specificity() {
        crate::text::lemma_text_less_transitive(a.name, b.name, c.name);
    }
}

proof fn lemma_ranks_irreflexive(a: Schema)
    ensures
        !a.ranks_before(a),
{
    crate::text::lemma_text_less_irreflexive(a.name);
}

/// No schema stands behind one that it ranks before.
pub open spec fn in_rank_order(v: Seq<Schema>) -> bool {
    forall|i: int, j: int| 0 <= i < j < v.len() ==> !(#[trigger] v[j]).ranks_before(#[trigger] v[i])
}

/// Ranking keeps the candidates and puts them in rank order.
pub proof fn ranking_orders_the_candidates(candidates: Seq<Schema>)
    ensures
        in_rank_order(ranked(candidates)),
        ranked(candidates).len() == candidates.len(),
        forall|s: Schema| #[trigger] ranked(candidates).contains(s) <==> candidates.contains(s),
    decreases candidates.len(),
{
    if candidates.len() > 0 {
        let init = candidates.drop_last();
        let x = candidates.last();
        let before = ranked(init);
        ranking_orders_the_candidates(init);
        lemma_rank_position(before, x, 0);
        let p = rank_position(before, x, 0);
        let all = before.insert(p, x);
        assert(all == ranked(candidates));
        assert forall|i: int, j: int| 0 <= i < j < all.len() implies !(
        #[trigger] all[j]).ranks_before(#[trigger] all[i]) by {
            if j == p {
                assert(all[i] == before[i]);
            } else if i == p {
                let y = before[j - 1];
                assert(all[j] == y);
                if y.ranks_before(x) {
                    lemma_ranks_transitive(y, x, before[p]);
                    if j - 1 == p {
                        lemma_ranks_irreflexive(y);
                    } else {
                        assert(!before[j - 1].ranks_before(before[p]));
                    }
                }
            } else {
                let bi = if i < p {
                    i
                } else {
                    i - 1
                };
                let bj = if j < p {
                    j
                } else {
                    j - 1
                };
                assert(all[i] == before[bi] && all[j] == before[bj]);
            }
        }
        assert forall|s: Schema| #[trigger] all.contains(s) <==> candidates.contains(s) by {
            if all.contains(s) {
                let k = choose|k: int| 0 <= k < all.len() && all[k] == s;
                if k == p {
                    assert(candidates[candidates.len() - 1] == s);
                } else {
                    let b = if k < p {
                        k
                    } else {
                        k - 1
                    };
                    assert(before[b] == s);
                    assert(before.contains(s));
                    let c = choose|c: int| 0 <= c < init.len() && init[c] == s;
                    assert(candidates[c] == s);
                }
            }
            if candidates.contains(s) {
                let c = choose|c: int| 0 <= c < candidates.len() && candidates[c] == s;
                if c == candidates.len() - 1 {
                    assert(all[p] == s);
                } else {
                    assert(init[c] == s);
                    assert(init.contains(s));
                    assert(before.contains(s));
                    let b = choose|b: int| 0 <= b < before.len() && before[b] == s;
                    let k = if b < p {
                        b
                    } else {
                        b + 1
                    };
                    assert(all[k] == s);
                }
            }
        }
    }
}

proof fn lemma_first_explaining(ordered: Seq<Schema>, lines: Seq<Seq<char>>, i: int)
    requires
        0 <= i,
    ensures
        match first_explaining(ordered, lines, i) {
            Some(s) => exists|k: int|
                i <= k < ordered.len() && #[trigger] ordered[k] == s && s.explains(lines) && (
                forall|m: int| i <= m < k ==> !(#[trigger] ordered[m]).explains(lines)),
            None => forall|m: int|
                i <= m < ordered.len() ==> !(#[trigger] ordered[m]).explains(lines),
        },
    decreases ordered.len() - i,
{
    if i < ordered.len() && !ordered[i].explains(lines) {
        lemma_first_explaining(ordered, lines, i + 1);
    } else if i < ordered.len() {
        assert(ordered[i].explains(lines));
    }
}

/// Detection picks a candidate that explains the lines, and no candidate that explains them
/// ranks before it; it gives up only where no candidate explains them.
pub proof fn detection_picks_the_most_specific(candidates: Seq<Schema>, lines: Seq<Seq<char>>)
    ensures
        match detected(candidates, lines) {
            Some(s) => candidates.contains(s) && s.explains(lines) && (forall|c: Schema|
                #[trigger] candidates.contains(c) && c.explains(lines) ==> !c.ranks_before(s)),
            None => considered(lines) == 0 || (forall|c: Schema| #[trigger]
                candidates.contains(c) ==> !c.explains(lines)),
        },
{
    let ordered = ranked(candidates);
    ranking_orders_the_candidates(candidates);
    lemma_first_explaining(ordered, lines, 0);
    if considered(lines) > 0 {
        match detected(candidates, lines) {
            Some(s) => {
                let k = choose|k: int|
                    0 <= k < ordered.len() && #[trigger] ordered[k] == s && s.explains(lines) && (
                    forall|m: int| 0 <= m < k ==> !(#[trigger] ordered[m]).explains(lines));
                assert(ordered.contains(s));
                assert forall|c: Schema| #[trigger]
                    candidates.contains(c) && c.explains(lines) implies !c.ranks_before(s) by {
                    assert(ordered.contains(c));
                    let m = choose|m: int| 0 <= m < ordered.len() && ordered[m] == c;
                    if m == k {
                        lemma_ranks_irreflexive(s);
                    } else if m > k {
                        assert(!ordered[m].ranks_before(ordered[k]));
                    }
                }
            },
            None => {
                assert forall|c: Schema| #[trigger] candidates.contains(c) implies !c.explains(
                    lines,
                ) by {
                    assert(ordered.contains(c));
                    let m = choose|m: int| 0 <= m < ordered.len() && ordered[m] == c;
                    assert(!ordered[m].explains(lines));
                }
            },
        }
    }
}

/// No two schemas of a list share a name.
pub open spec fn names_unique(v: Seq<Schema>) -> bool {
    forall|a: Schema, b: Schema| #[trigger]
        v.contains(a) && #[trigger] v.contains(b) && a.name == b.name ==> a == b
}

/// Detection depends on which candidates there are, not on the order they come in.
pub proof fn detection_ignores_candidate_order(
    left: Seq<Schema>,
    right: Seq<Schema>,
    lines: Seq<Seq<char>>,
)
    requires
        names_unique(left),
        forall|s: Schema| #[trigger] left.contains(s) <==> right.contains(s),
    ensures
        detected(left, lines) == detected(right, lines),
{
    detection_picks_the_most_specific(left, lines);
    detection_picks_the_most_specific(right, lines);
    if detected(left, lines) is Some && detected(right, lines) is Some {
        let a = detected(left, lines)->0;
        let b = detected(right, lines)->0;
        assert(left.contains(a) && left.contains(b));
        assert(right.contains(a));
        crate::text::lemma_text_less_total(a.name, b.name);
    } else if detected(left, lines) is Some {
        assert(left.contains(detected(left, lines)->0));
        assert(right.contains(detected(left, lines)->0));
    } else if detected(right, lines) is Some {
        assert(left.contains(detected(right, lines)->0));
    }
}

proof fn lemma_owners(ordered: Seq<Schema>, lines: Seq<Seq<char>>, n: int)
    requires
        0 <= n <= ordered.len(),
    ensures
        owners(ordered, lines, n).len() <= n,
        forall|k: int|
            0 <= k < owners(ordered, lines, n).len() ==> ordered.contains(
                #[trigger] owners(ordered, lines, n)[k],
            ),
    decreases n,
{
    if n > 0 {
        lemma_owners(ordered, lines, n - 1);
        assert(ordered.contains(ordered[n - 1]));
    }
}

/// The catch-all schema is never part of a detected set.
pub proof fn detected_sets_leave_out_the_catch_all(candidates: Seq<Schema>, lines: Seq<Seq<char>>)
    ensures
        forall|k: int|
            0 <= k < detected_all(candidates, lines).len() ==> (#[trigger] detected_all(
                candidates,
                lines,
            )[k]).name != GENERIC_EXTRACTOR_NAME@ && candidates.contains(
                detected_all(candidates, lines)[k],
            ),
{
    let named = keep(candidates, not_generic());
    let ordered = ranked(named);
    let all = detected_all(candidates, lines);
    crate::lists::lemma_keep(candidates, not_generic());
    ranking_orders_the_candidates(named);
    lemma_owners(ordered, lines, ordered.len() as int);
    assert forall|k: int| 0 <= k < all.len() implies (#[trigger] all[k]).name
        != GENERIC_EXTRACTOR_NAME@ && candidates.contains(all[k]) by {
        assert(ordered.contains(all[k]));
        assert(named.contains(all[k]));
        let m = choose|m: int| 0 <= m < named.len() && named[m] == all[k];
        assert(not_generic()(named[m]));
        assert(candidates.contains(named[m]));
    }
}

/// The entries that `lines` group into under a schema, blank ones left out.
pub open spec fn inked_entries(schema: Schema, lines: Seq<Seq<char>>) -> Seq<EntryParts> {
    grouped(lines, seq![schema]).filter(|e: EntryParts| !is_blank(e.2))
}

/// Those of them that the schema parses.
pub open spec fn parsed_entries(schema: Schema, lines: Seq<Seq<char>>) -> Seq<EntryParts> {
    inked_entries(schema, lines).filter(|e: EntryParts| schema.captures(e.2) is Some)
}

proof fn lemma_counted(entries: Seq<EntryParts>, schema: Schema)
    ensures
        ({
            let inked = entries.filter(|e: EntryParts| !is_blank(e.2));
            &&& inked.len() == count(entries, inked_entry())
            &&& inked.filter(|e: EntryParts| schema.captures(e.2) is Some).len() == count(
                entries,
                schema.parses(),
            )
        }),
    decreases entries.len(),
{
    let ink = |e: EntryParts| !is_blank(e.2);
    let parsed = |e: EntryParts| schema.captures(e.2) is Some;
    reveal(Seq::filter);
    if entries.len() > 0 {
        lemma_counted(entries.drop_last(), schema);
        let before = entries.drop_last().filter(ink);
        if ink(entries.last()) {
            assert(before.push(entries.last()).drop_last() =~= before);
        }
    }
}

/// What detection returns parses at least one, and at least a quarter, of the entries that the
/// lines group into under it, blank ones aside; and a candidate that parses that many is passed
/// over only for one that it does not rank before.
pub proof fn detection_asks_for_a_quarter(candidates: Seq<Schema>, lines: Seq<Seq<char>>)
    ensures
        forall|s: Schema|
            detected(candidates, lines) == Some(s) ==> (#[trigger] parsed_entries(s, lines)).len()
                >= 1 && 4 * parsed_entries(s, lines).len() >= inked_entries(s, lines).len(),
        forall|c: Schema|
            candidates.contains(c) && (#[trigger] parsed_entries(c, lines)).len() >= 1 && 4
                * parsed_entries(c, lines).len() >= inked_entries(c, lines).len() && (exists|i: int|
                0 <= i < lines.len() && !is_blank(#[trigger] lines[i])) ==> detected(
                candidates,
                lines,
            ) is Some && (c.specificity() < detected(candidates, lines)->0.specificity() || (
            c.specificity() == detected(candidates, lines)->0.specificity() && !text_less(
                c.name,
                detected(candidates, lines)->0.name,
            ))),
        (forall|i: int| 0 <= i < lines.len() ==> is_blank(#[trigger] lines[i])) ==> detected(
            candidates,
            lines,
        ) is None,
{
    detection_picks_the_most_specific(candidates, lines);
    lemma_considered(lines);
    assert forall|s: Schema| #![trigger parsed_entries(s, lines)] s.explains(lines) <==> (
    parsed_entries(s, lines).len() >= 1 && 4 * parsed_entries(s, lines).len() >= inked_entries(
        s,
        lines,
    ).len()) by {
        lemma_counted(grouped(lines, seq![s]), s);
    }
}

proof fn lemma_considered(lines: Seq<Seq<char>>)
    ensures
        considered(lines) > 0 <==> exists|i: int|
            0 <= i < lines.len() && !is_blank(#[trigger] lines[i]),
    decreases lines.len(),
{
    if lines.len() > 0 {
        let init = lines.drop_last();
        lemma_considered(init);
        if considered(init) > 0 {
            let i = choose|i: int| 0 <= i < init.len() && !is_blank(#[trigger] init[i]);
            assert(lines[i] == init[i]);
        }
        if exists|i: int| 0 <= i < lines.len() && !is_blank(#[trigger] lines[i]) {
            let i = choose|i: int| 0 <= i < lines.len() && !is_blank(#[trigger] lines[i]);
            if i < init.len() {
                assert(init[i] == lines[i]);
            } else {
                assert(inked_line()(lines.last()));
            }
        }
        assert(!is_blank(lines.last()) ==> !is_blank(lines[lines.len() - 1]));
    }
}

/// Whether a line is left to schema `k` of a ranking: it parses the line, and none before it
/// does.
pub open spec fn falls_to(ordered: Seq<Schema>, k: int, line: Seq<char>) -> bool {
    &&& !is_blank(line)
    &&& ordered[k].captures(line) is Some
    &&& forall|m: int| 0 <= m < k ==> (#[trigger] ordered[m]).captures(line) is None
}

proof fn lemma_first_parsing(ordered: Seq<Schema>, line: Seq<char>, i: int)
    requires
        0 <= i <= ordered.len(),
    ensures
        i <= first_parsing(ordered, line, i) <= ordered.len(),
        forall|m: int|
            i <= m < first_parsing(ordered, line, i) ==> (#[trigger] ordered[m]).captures(line)
                is None,
        first_parsing(ordered, line, i) < ordered.len() ==> ordered[first_parsing(
            ordered,
            line,
            i,
        )].captures(line) is Some,
    decreases ordered.len() - i,
{
    if i < ordered.len() && ordered[i].captures(line) is None {
        lemma_first_parsing(ordered, line, i + 1);
    }
}

proof fn lemma_falls(ordered: Seq<Schema>, k: int, lines: Seq<Seq<char>>)
    requires
        0 <= k < ordered.len(),
    ensures
        count(lines, belongs_to(ordered, k)) == lines.filter(
            |line: Seq<char>| falls_to(ordered, k, line),
        ).len(),
    decreases lines.len(),
{
    let p = |line: Seq<char>| falls_to(ordered, k, line);
    reveal(Seq::filter);
    if lines.len() > 0 {
        lemma_falls(ordered, k, lines.drop_last());
        let line = lines.last();
        lemma_first_parsing(ordered, line, 0);
        let f = first_parsing(ordered, line, 0);
        if falls_to(ordered, k, line) {
            if f < k {
                assert(ordered[f].captures(line) is None);
            }
        }
        assert(belongs_to(ordered, k)(line) == falls_to(ordered, k, line));
    }
}

proof fn lemma_inked_lines(lines: Seq<Seq<char>>)
    ensures
        considered(lines) == lines.filter(|line: Seq<char>| !is_blank(line)).len(),
    decreases lines.len(),
{
    reveal(Seq::filter);
    if lines.len() > 0 {
        lemma_inked_lines(lines.drop_last());
    }
}

/// A schema is part of a detected set exactly where it is left at least one, and at least a
/// fifth, of the lines that are not blank: those that it parses and that no schema ranked before
/// it does.
pub proof fn a_detected_set_asks_for_a_fifth(
    candidates: Seq<Schema>,
    lines: Seq<Seq<char>>,
    k: int,
)
    requires
        0 <= k < ranked(keep(candidates, not_generic())).len(),
        ranked(keep(candidates, not_generic())).no_duplicates(),
        exists|i: int| 0 <= i < lines.len() && !is_blank(#[trigger] lines[i]),
    ensures
        ({
            let ordered = ranked(keep(candidates, not_generic()));
            let left = lines.filter(|line: Seq<char>| falls_to(ordered, k, line)).len();
            let inked = lines.filter(|line: Seq<char>| !is_blank(line)).len();
            detected_all(candidates, lines).contains(ordered[k]) <==> left >= 1 && 5 * left
                >= inked
        }),
{
    let ordered = ranked(keep(candidates, not_generic()));
    let n = ordered.len() as int;
    lemma_considered(lines);
    lemma_inked_lines(lines);
    lemma_falls(ordered, k, lines);
    lemma_owner(ordered, lines, n, k);
}

proof fn lemma_owner(ordered: Seq<Schema>, lines: Seq<Seq<char>>, n: int, k: int)
    requires
        0 <= n <= ordered.len(),
        0 <= k < ordered.len(),
        ordered.no_duplicates(),
    ensures
        owners(ordered, lines, n).contains(ordered[k]) <==> k < n && count(
            lines,
            belongs_to(ordered, k),
        ) >= share(lines),
    decreases n,
{
    if n > 0 {
        lemma_owner(ordered, lines, n - 1, k);
        let before = owners(ordered, lines, n - 1);
        let all = owners(ordered, lines, n);
        if before.contains(ordered[k]) {
            let i = choose|i: int| 0 <= i < before.len() && before[i] == ordered[k];
            assert(all[i] == ordered[k]);
        }
        if all.contains(ordered[k]) {
            let i = choose|i: int| 0 <= i < all.len() && all[i] == ordered[k];
            if i < before.len() {
                assert(before[i] == ordered[k]);
            } else {
                assert(all[i] == ordered[n - 1]);
            }
        }
        if k == n - 1 && count(lines, belongs_to(ordered, k)) >= share(lines) {
            assert(all.last() == ordered[k]);
        }
    }
}

/// What ranks first asserts more: a schema with more fields and more literal text in its format
/// is tried before one with less, and of two that assert as much the one whose name comes first.
pub proof fn the_more_specific_is_tried_first(a: Schema, b: Schema)
    ensures
        a.specificity() > b.specificity() ==> a.ranks_before(b) && !b.ranks_before(a),
        a.specificity() == b.specificity() ==> (a.ranks_before(b) <==> text_less(a.name, b.name)),
{
}

/// Of the bundled schemas those that can be used are, built, and no other.
pub proof fn usable_schemas_are_kept(parsed: Seq<Schema>, schema: Schema)
    ensures
        usable(parsed).contains(schema) <==> exists|i: int|
            0 <= i < parsed.len() && (#[trigger] parsed[i]).refusal() is None && parsed[i].built()
                == schema,
    decreases parsed.len(),
{
    if parsed.len() > 0 {
        let most = parsed.drop_last();
        usable_schemas_are_kept(most, schema);
        let before = usable(most);
        let all = usable(parsed);
        let last = parsed.last();
        assert(parsed[parsed.len() - 1] == last);
        if before.contains(schema) {
            let i = choose|i: int| 0 <= i < before.len() && before[i] == schema;
            assert(all[i] == schema);
            let k = choose|k: int|
                0 <= k < most.len() && (#[trigger] most[k]).refusal() is None && most[k].built()
                    == schema;
            assert(parsed[k] == most[k]);
        }
        if all.contains(schema) && !before.contains(schema) {
            let i = choose|i: int| 0 <= i < all.len() && all[i] == schema;
            if i < before.len() {
                assert(before[i] == schema);
            }
        }
        if exists|i: int|
            0 <= i < parsed.len() && (#[trigger] parsed[i]).refusal() is None && parsed[i].built()
                == schema {
            let k = choose|i: int|
                0 <= i < parsed.len() && (#[trigger] parsed[i]).refusal() is None
                    && parsed[i].built() == schema;
            if k < most.len() {
                assert(most[k] == parsed[k]);
            } else {
                assert(all.last() == schema);
            }
        }
    }
}

} // verus!
