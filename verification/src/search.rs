//! Search queries.

use crate::extractor::{is_name_char, is_name_start, name_char, truncate, truncated};
use crate::filters::{
    a_time_range_keeps_the_instants_between, containment_is_a_text_within, contains_any_case,
    contains_ignore_case, holds_within, in_time_range, lemma_range_ends, range_bound, range_ends,
};
use crate::models::{EntryParts, FileParts, LogEntry, LogFileModel};
use crate::packs::{pack_file_name, pack_name, padded, padded3};
use crate::pattern::{check_pattern, matches_pattern, pattern_error, pattern_matches};
use crate::text::{
    blank, char_is_alphanumeric, char_is_letter, chars_of, debug_quoted, debug_text, is_ascii,
    is_blank, is_char, is_digit, is_letter, join, join_strings, lemma_span, lemma_span_end,
    lemma_span_end_is, lemma_span_is, list_has, lowercase, lowercase_of, reads_at, run_from,
    same_text, space, span, starts_with, text_split_once, text_strip_prefix, texts, trim,
    trim_end_by, trim_end_char, trim_start_by, trim_start_char, trimmed,
};
use crate::timestamp::{
    instant, is_instant, opt_stamp, parse_datetime, stamp_less, times_are_ordered_as_instants,
    typed_time, Parts, Timestamp,
};
use crate::tokens::{
    between_slashes, is_gap, is_plain_pattern, parts_of, query_of, query_parts, query_tokens,
    slashed_patterns_are_tokens, split_views, splits_of, tokens_given, tokens_of,
};
use vstd::prelude::*;

verus! {

/// A saved search as a library file holds it.
#[derive(Debug, PartialEq, Eq)]
pub struct SearchFile {
    pub name: String,
    pub description: String,
    pub query: String,
}

/// A compiled query: an entry matches when every predicate does.
#[derive(Debug)]
pub struct Query {
    pub text: String,
    pub predicates: Vec<Predicate>,
    pub error: String,
}

/// One test of a query. Patterns are held as the text that was compiled.
#[derive(Debug)]
pub enum Predicate {
    /// Lower-cased text to find anywhere in the entry.
    Substring(String),
    Regex(String),
    FieldEq { field: String, value: String },
    FieldContains { field: String, value: String },
    FieldRegex { field: String, regex: String },
    After(Timestamp),
    Before(Timestamp),
    DateRange { lo: Option<Timestamp>, hi: Option<Timestamp> },
}

/// What a predicate tests.
pub enum Test {
    Substring(Seq<char>),
    Pattern(Seq<char>),
    FieldEq(Seq<char>, Seq<char>),
    FieldContains(Seq<char>, Seq<char>),
    FieldPattern(Seq<char>, Seq<char>),
    After(Parts),
    Before(Parts),
    Between(Option<Parts>, Option<Parts>),
}

impl View for Predicate {
    type V = Test;

    open spec fn view(&self) -> Test {
        match *self {
            Predicate::Substring(s) => Test::Substring(s@),
            Predicate::Regex(p) => Test::Pattern(p@),
            Predicate::FieldEq { field, value } => Test::FieldEq(field@, value@),
            Predicate::FieldContains { field, value } => Test::FieldContains(field@, value@),
            Predicate::FieldRegex { field, regex } => Test::FieldPattern(field@, regex@),
            Predicate::After(t) => Test::After(t@),
            Predicate::Before(t) => Test::Before(t@),
            Predicate::DateRange { lo, hi } => Test::Between(opt_stamp(lo), opt_stamp(hi)),
        }
    }
}

impl Clone for Predicate {
    fn clone(&self) -> (r: Self)
        ensures
            r == *self,
    {
        match self {
            Predicate::Substring(s) => Predicate::Substring(s.clone()),
            Predicate::Regex(p) => Predicate::Regex(p.clone()),
            Predicate::FieldEq { field, value } => Predicate::FieldEq {
                field: field.clone(),
                value: value.clone(),
            },
            Predicate::FieldContains { field, value } => Predicate::FieldContains {
                field: field.clone(),
                value: value.clone(),
            },
            Predicate::FieldRegex { field, regex } => Predicate::FieldRegex {
                field: field.clone(),
                regex: regex.clone(),
            },
            Predicate::After(t) => Predicate::After(*t),
            Predicate::Before(t) => Predicate::Before(*t),
            Predicate::DateRange { lo, hi } => Predicate::DateRange { lo: *lo, hi: *hi },
        }
    }
}

pub open spec fn tests(v: Seq<Predicate>) -> Seq<Test> {
    v.map_values(|p: Predicate| p@)
}

impl Test {
    /// Whether an entry passes the test. An entry without a time passes none about time.
    pub open spec fn passes(self, file: FileParts, entry: EntryParts) -> bool {
        match self {
            Test::Substring(s) => contains_any_case(entry.2, s),
            Test::Pattern(p) => pattern_matches(p, entry.2),
            Test::FieldEq(field, value) => file.field(entry, field) == value,
            Test::FieldContains(field, value) => contains_any_case(
                file.field(entry, field),
                value,
            ),
            Test::FieldPattern(field, p) => pattern_matches(p, file.field(entry, field)),
            Test::After(t) => file.time(entry) is Some && !stamp_less(file.time(entry)->0, t),
            Test::Before(t) => file.time(entry) is Some && !stamp_less(t, file.time(entry)->0),
            Test::Between(lo, hi) => file.time(entry) is Some && in_time_range(
                file.time(entry)->0,
                lo,
                hi,
            ),
        }
    }
}

/// Whether an entry passes every test.
pub open spec fn passes_all(all: Seq<Test>, file: FileParts, entry: EntryParts) -> bool {
    forall|i: int| 0 <= i < all.len() ==> (#[trigger] all[i]).passes(file, entry)
}

impl Predicate {
    pub fn matches(&self, file: &LogFileModel, entry: &LogEntry) -> (r: bool)
        ensures
            r == self@.passes(file@, entry@),
    {
        match self {
            Predicate::Substring(needle) => contains_ignore_case(
                entry.raw.as_str(),
                needle.as_str(),
            ),
            Predicate::Regex(regex) => matches_pattern(regex.as_str(), entry.raw.as_str()),
            Predicate::FieldEq { field, value } => same_text(
                file.get_field(entry, field.as_str()).as_str(),
                value.as_str(),
            ),
            Predicate::FieldContains { field, value } => contains_ignore_case(
                file.get_field(entry, field.as_str()).as_str(),
                value.as_str(),
            ),
            Predicate::FieldRegex { field, regex } => matches_pattern(
                regex.as_str(),
                file.get_field(entry, field.as_str()).as_str(),
            ),
            Predicate::After(t) => match file.timestamp(entry) {
                Some(stamp) => !stamp.before(t),
                None => false,
            },
            Predicate::Before(t) => match file.timestamp(entry) {
                Some(stamp) => !t.before(&stamp),
                None => false,
            },
            Predicate::DateRange { lo, hi } => match file.timestamp(entry) {
                Some(stamp) => {
                    let early = match lo {
                        Some(lo) => stamp.before(lo),
                        None => false,
                    };
                    let late = match hi {
                        Some(hi) => hi.before(&stamp),
                        None => false,
                    };
                    !early && !late
                },
                None => false,
            },
        }
    }
}

impl Query {
    pub fn matches(&self, file: &LogFileModel, entry: &LogEntry) -> (r: bool)
        ensures
            r == passes_all(tests(self.predicates@), file@, entry@),
    {
        let ghost all = tests(self.predicates@);
        for i in 0..self.predicates.len()
            invariant
                all == tests(self.predicates@),
                forall|j: int| 0 <= j < i ==> (#[trigger] all[j]).passes(file@, entry@),
        {
            assert(all[i as int] == self.predicates@[i as int]@);
            if !self.predicates[i].matches(file, entry) {
                return false;
            }
        }
        true
    }

    pub fn is_empty(&self) -> (r: bool)
        ensures
            r == (self.predicates@.len() == 0),
    {
        self.predicates.len() == 0
    }
}

impl Clone for Query {
    fn clone(&self) -> (r: Self)
        ensures
            r.text@ == self.text@,
            tests(r.predicates@) == tests(self.predicates@),
            r.error@ == self.error@,
    {
        let mut predicates: Vec<Predicate> = Vec::new();
        for i in 0..self.predicates.len()
            invariant
                predicates@ == self.predicates@.take(i as int),
        {
            predicates.push(self.predicates[i].clone());
        }
        assert(predicates@ == self.predicates@);
        Query { text: self.text.clone(), predicates, error: self.error.clone() }
    }
}

// ---------------------------------------------------------------------------
// Compiling
// ---------------------------------------------------------------------------

/// Whether a text is written between slashes.
pub open spec fn is_slashed(s: Seq<char>) -> bool {
    s.len() >= 2 && s[0] == '/' && s.last() == '/'
}

/// The pattern that a slashed text stands for; it ignores case.
pub open spec fn slashed_pattern(s: Seq<char>) -> Seq<char> {
    "(?i)"@ + s.subrange(1, s.len() - 1)
}

/// The field, the operator and the value of a `field=value` or `field~value` token.
pub open spec fn field_parts(token: Seq<char>) -> Option<(Seq<char>, char, Seq<char>)> {
    let n = span(token, name_char()) as int;
    if n == 0 || n >= token.len() || !is_name_start(token[0]) || (token[n] != '=' && token[n]
        != '~') || token.skip(n + 1).contains('\n') {
        None
    } else {
        Some((token.take(n), token[n], token.skip(n + 1)))
    }
}

/// What a field token compiles to: `~` is containment, a slashed value a pattern, else equality.
pub open spec fn field_test(token: Seq<char>) -> Option<Result<Test, Seq<char>>> {
    match field_parts(token) {
        None => None,
        Some((field, op, value)) => if op == '~' {
            Some(Ok(Test::FieldContains(field, lowercase_of(value))))
        } else if is_slashed(value) {
            match pattern_error(slashed_pattern(value)) {
                Some(e) => Some(Err(e)),
                None => Some(Ok(Test::FieldPattern(field, slashed_pattern(value)))),
            }
        } else {
            Some(Ok(Test::FieldEq(field, value)))
        },
    }
}

/// A date range as it is written after `date:`, without the brackets around it.
pub open spec fn unbracketed(body: Seq<char>) -> Seq<char> {
    trim_end_by(trim_start_by(trimmed(body), is_char('[')), is_char(']'))
}

/// What a token compiles to, or why it does not.
pub open spec fn token_test(token: Seq<char>) -> Result<Test, Seq<char>> {
    if starts_with(token, "after:"@) {
        match typed_time(token.skip("after:"@.len() as int)) {
            Some(t) => Ok(Test::After(t)),
            None => Err("unrecognised date"@),
        }
    } else if starts_with(token, "before:"@) {
        match typed_time(token.skip("before:"@.len() as int)) {
            Some(t) => Ok(Test::Before(t)),
            None => Err("unrecognised date"@),
        }
    } else if starts_with(token, "date:"@) {
        let (start, end) = range_ends(unbracketed(token.skip("date:"@.len() as int)));
        if range_bound(start) is None && range_bound(end) is None {
            Err("empty date range"@)
        } else {
            Ok(Test::Between(range_bound(start), range_bound(end)))
        }
    } else if field_test(token) is Some {
        field_test(token)->0
    } else if is_slashed(token) {
        match pattern_error(slashed_pattern(token)) {
            Some(e) => Err(e),
            None => Ok(Test::Pattern(slashed_pattern(token))),
        }
    } else {
        Ok(Test::Substring(lowercase_of(token)))
    }
}

/// The tests that the tokens compile to, in order.
pub open spec fn compiled_tests(tokens: Seq<Seq<char>>) -> Seq<Test>
    decreases tokens.len(),
{
    if tokens.len() == 0 {
        Seq::empty()
    } else {
        match token_test(tokens.last()) {
            Ok(t) => compiled_tests(tokens.drop_last()).push(t),
            Err(_) => compiled_tests(tokens.drop_last()),
        }
    }
}

/// What is wrong with the tokens that do not compile, in order.
pub open spec fn token_errors(tokens: Seq<Seq<char>>) -> Seq<Seq<char>>
    decreases tokens.len(),
{
    if tokens.len() == 0 {
        Seq::empty()
    } else {
        match token_test(tokens.last()) {
            Ok(_) => token_errors(tokens.drop_last()),
            Err(e) => token_errors(tokens.drop_last()).push(
                debug_quoted(tokens.last()) + ": "@ + e,
            ),
        }
    }
}

/// The tests of a query text; a blank one has none.
pub open spec fn query_tests(text: Seq<char>) -> Seq<Test> {
    if is_blank(text) {
        Seq::empty()
    } else {
        compiled_tests(query_tokens(text))
    }
}

/// What is wrong with a query text.
pub open spec fn query_error(text: Seq<char>) -> Seq<char> {
    if is_blank(text) {
        Seq::empty()
    } else {
        join(token_errors(query_tokens(text)), "; "@)
    }
}

fn slashed(text: &str) -> (r: bool)
    ensures
        r == is_slashed(text@),
{
    let n: usize = text.unicode_len();
    n >= 2 && text.get_char(0) == '/' && text.get_char(n - 1) == '/'
}

fn pattern_between_slashes(text: &str) -> (r: String)
    requires
        is_slashed(text@),
    ensures
        r@ == slashed_pattern(text@),
{
    let n: usize = text.unicode_len();
    "(?i)".to_string().concat(text.substring_char(1, n - 1))
}

fn has_line_feed(text: &str) -> (r: bool)
    ensures
        r == text@.contains('\n'),
{
    let chars = chars_of(text);
    for i in 0..chars.len()
        invariant
            chars@ == text@,
            forall|j: int| 0 <= j < i ==> text@[j] != '\n',
    {
        if chars[i] == '\n' {
            assert(text@[i as int] == '\n');
            return true;
        }
    }
    false
}

pub open spec fn result_view(r: Result<Predicate, String>) -> Result<Test, Seq<char>> {
    match r {
        Ok(p) => Ok(p@),
        Err(e) => Err(e@),
    }
}

fn compile_field_token(token: &str) -> (r: Option<Result<Predicate, String>>)
    ensures
        match r {
            Some(res) => field_test(token@) == Some(result_view(res)),
            None => field_test(token@) is None,
        },
{
    let chars = chars_of(token);
    let total: usize = chars.len();
    let f = |c: char| -> (b: bool)
        ensures
            b == is_name_char(c),
        { char_is_alphanumeric(c) || c == '_' };
    let n: usize = run_from(chars.as_slice(), 0, f, Ghost(name_char()));
    assert(token@.skip(0) == token@);
    if n == 0 || n >= total || !(char_is_letter(chars[0]) || chars[0] == '_') {
        return None;
    }
    let op = chars[n];
    if op != '=' && op != '~' {
        return None;
    }
    let value = token.substring_char(n + 1, total);
    assert(value@ == token@.skip(n + 1));
    if has_line_feed(value) {
        return None;
    }
    let name = token.substring_char(0, n);
    assert(name@ == token@.take(n as int));
    let field = name.to_string();
    if op == '~' {
        return Some(Ok(Predicate::FieldContains { field, value: lowercase(value) }));
    }
    if slashed(value) {
        let regex = pattern_between_slashes(value);
        return match check_pattern(regex.as_str()) {
            Some(error) => Some(Err(error)),
            None => Some(Ok(Predicate::FieldRegex { field, regex })),
        };
    }
    Some(Ok(Predicate::FieldEq { field, value: value.to_string() }))
}

fn bound_of(end: &str) -> (r: Option<Timestamp>)
    ensures
        opt_stamp(r) == range_bound(end@),
{
    if blank(end) {
        None
    } else {
        parse_datetime(end)
    }
}

/// What a token compiles to, or why it does not.
pub fn compile_token(token: &str) -> (r: Result<Predicate, String>)
    ensures
        result_view(r) == token_test(token@),
{
    if let Some(body) = text_strip_prefix(token, "after:") {
        return match parse_datetime(body) {
            Some(t) => Ok(Predicate::After(t)),
            None => Err("unrecognised date".to_string()),
        };
    }
    if let Some(body) = text_strip_prefix(token, "before:") {
        return match parse_datetime(body) {
            Some(t) => Ok(Predicate::Before(t)),
            None => Err("unrecognised date".to_string()),
        };
    }
    if let Some(body) = text_strip_prefix(token, "date:") {
        let bare = trim_end_char(trim_start_char(trim(body), '['), ']');
        proof {
            reveal_strlit("");
        }
        assert(""@ =~= Seq::<char>::empty());
        let (start, end) = match text_split_once(bare, "..") {
            Some((start, end)) => (start, end),
            None => (bare, ""),
        };
        let lo = bound_of(start);
        let hi = bound_of(end);
        if lo.is_none() && hi.is_none() {
            return Err("empty date range".to_string());
        }
        return Ok(Predicate::DateRange { lo, hi });
    }
    if let Some(result) = compile_field_token(token) {
        return result;
    }
    if slashed(token) {
        let regex = pattern_between_slashes(token);
        return match check_pattern(regex.as_str()) {
            Some(error) => Err(error),
            None => Ok(Predicate::Regex(regex)),
        };
    }
    Ok(Predicate::Substring(lowercase(token)))
}

/// Compile a query. A token that does not compile is left out and reported in `error`.
pub fn compile_query(text: &str) -> (r: Query)
    ensures
        r.text@ == text@,
        tests(r.predicates@) == query_tests(text@),
        r.error@ == query_error(text@),
{
    if blank(text) {
        let predicates: Vec<Predicate> = Vec::new();
        assert(tests(predicates@) =~= Seq::<Test>::empty());
        return Query { text: text.to_string(), predicates, error: String::new() };
    }
    let parts = parts_of(text);
    let splits = splits_of(&parts);
    compile_split(text, &splits)
}

/// The tokens of a query whose plain parts a shell splits as `splits` says.
pub open spec fn split_tokens(text: Seq<char>, splits: Seq<Option<Seq<Seq<char>>>>) -> Seq<
    Seq<char>,
> {
    tokens_given(query_parts(text), splits, query_parts(text).len() as int)
}

/// Compile a query whose plain parts a shell splits as `splits` says, one for each part.
pub fn compile_split(text: &str, splits: &Vec<Option<Vec<String>>>) -> (r: Query)
    ensures
        r.text@ == text@,
        tests(r.predicates@) == compiled_tests(split_tokens(text@, split_views(splits@))),
        r.error@ == join(token_errors(split_tokens(text@, split_views(splits@))), "; "@),
{
    let mut predicates: Vec<Predicate> = Vec::new();
    let mut errors: Vec<String> = Vec::new();
    let parts = parts_of(text);
    let tokens = tokens_of(&parts, splits);
    let ghost all = texts(tokens@);
    assert(tests(predicates@) =~= compiled_tests(all.take(0)));
    assert(texts(errors@) =~= token_errors(all.take(0)));
    for i in 0..tokens.len()
        invariant
            all == texts(tokens@),
            tests(predicates@) == compiled_tests(all.take(i as int)),
            texts(errors@) == token_errors(all.take(i as int)),
    {
        assert(all.take(i + 1).drop_last() == all.take(i as int));
        assert(all.take(i + 1).last() == tokens@[i as int]@);
        let token = tokens[i].as_str();
        match compile_token(token) {
            Ok(predicate) => {
                let ghost before = tests(predicates@);
                let ghost test = predicate@;
                predicates.push(predicate);
                assert(tests(predicates@) == before.push(test));
            },
            Err(error) => {
                let mut line = debug_text(token);
                line.append(": ");
                line.append(error.as_str());
                let ghost before = texts(errors@);
                let ghost added = line@;
                errors.push(line);
                assert(texts(errors@) == before.push(added));
            },
        }
    }
    assert(all.take(all.len() as int) == all);
    Query { text: text.to_string(), predicates, error: join_strings(errors.as_slice(), "; ") }
}

/// A query without tests matches everything, and one more test never lets more through.
pub proof fn more_tests_match_less(all: Seq<Test>, test: Test, file: FileParts, entry: EntryParts)
    ensures
        passes_all(Seq::empty(), file, entry),
        passes_all(all.push(test), file, entry) <==> passes_all(all, file, entry) && test.passes(
            file,
            entry,
        ),
{
    let more = all.push(test);
    if passes_all(more, file, entry) {
        assert(more[all.len() as int].passes(file, entry));
        assert forall|i: int| 0 <= i < all.len() implies (#[trigger] all[i]).passes(
            file,
            entry,
        ) by {
            assert(more[i].passes(file, entry));
        }
    }
}

// ---------------------------------------------------------------------------
// Saved searches
// ---------------------------------------------------------------------------

/// What a saved search is: name, description, query.
pub type SearchParts = (Seq<char>, Seq<char>, Seq<char>);

impl View for SearchFile {
    type V = SearchParts;

    open spec fn view(&self) -> SearchParts {
        (self.name@, self.description@, self.query@)
    }
}

pub open spec fn search_views(v: Seq<SearchFile>) -> Seq<SearchParts> {
    v.map_values(|s: SearchFile| s@)
}

/// The searches that every library starts with.
pub open spec fn default_searches() -> Seq<SearchParts> {
    seq![
        (
            "Authentication failures"@,
            "Login, token, authorization and HTTP 401/403 failures."@,
            "/auth|login|signin|token|oauth|saml|ldap/ /fail(ed|ure)?|denied|invalid|unauthorized|forbidden|401|403/"@,
        ),
        (
            "Database connection exhaustion"@,
            "Database pool exhaustion, connection timeouts and max-connection pressure."@,
            "/database|db|jdbc|sql|postgres|mysql|oracle/ /connection|pool/ /exhausted|timeout|timed[[:space:]]*out|max(ed)?[[:space:]]*out|too[[:space:]]+many|refused/"@,
        ),
        (
            "Kubernetes restart patterns"@,
            "Pod/container restarts, CrashLoopBackOff, OOM kills and probe failures."@,
            "/kubernetes|k8s|pod|container|kubelet/ /restart|restarted|crashloopbackoff|oomkilled|back-off|liveness|readiness/"@,
        ),
        (
            "Java exception chains"@,
            "Java stack traces, exceptions and caused-by chains."@,
            "/exception|caused[[:space:]]+by|stacktrace|java[.]|javax[.]|org[.]springframework/"@,
        ),
        (
            "Request-ID tracing"@,
            "Request, trace, correlation and span identifiers."@,
            "/request[-_]?id|trace[-_]?id|correlation[-_]?id|x-request-id|span[-_]?id/"@,
        ),
    ]
}

fn search(name: &str, description: &str, query: &str) -> (r: SearchFile)
    ensures
        r@ == (name@, description@, query@),
{
    SearchFile {
        name: name.to_string(),
        description: description.to_string(),
        query: query.to_string(),
    }
}

pub fn default_search_library() -> (r: Vec<SearchFile>)
    ensures
        search_views(r@) == default_searches(),
{
    let out = vec![
        search(
            "Authentication failures",
            "Login, token, authorization and HTTP 401/403 failures.",
            "/auth|login|signin|token|oauth|saml|ldap/ /fail(ed|ure)?|denied|invalid|unauthorized|forbidden|401|403/",
        ),
        search(
            "Database connection exhaustion",
            "Database pool exhaustion, connection timeouts and max-connection pressure.",
            "/database|db|jdbc|sql|postgres|mysql|oracle/ /connection|pool/ /exhausted|timeout|timed[[:space:]]*out|max(ed)?[[:space:]]*out|too[[:space:]]+many|refused/",
        ),
        search(
            "Kubernetes restart patterns",
            "Pod/container restarts, CrashLoopBackOff, OOM kills and probe failures.",
            "/kubernetes|k8s|pod|container|kubelet/ /restart|restarted|crashloopbackoff|oomkilled|back-off|liveness|readiness/",
        ),
        search(
            "Java exception chains",
            "Java stack traces, exceptions and caused-by chains.",
            "/exception|caused[[:space:]]+by|stacktrace|java[.]|javax[.]|org[.]springframework/",
        ),
        search(
            "Request-ID tracing",
            "Request, trace, correlation and span identifiers.",
            "/request[-_]?id|trace[-_]?id|correlation[-_]?id|x-request-id|span[-_]?id/",
        ),
    ];
    assert(search_views(out@) =~= default_searches());
    out
}

/// The name of search `index` of an exported list.
pub open spec fn search_name(index: nat, query: Seq<char>) -> Seq<char> {
    "search-"@ + padded(index, 3) + "-"@ + truncated(query, 64)
}

pub fn search_file_name(index: usize, query: &str) -> (r: String)
    ensures
        r@ == search_name(index as nat, query@),
{
    let mut out = "search-".to_string();
    out.append(padded3(index).as_str());
    out.append("-");
    out.append(truncate(query, 64).as_str());
    out
}

/// A bare query as a library file: named after itself.
pub fn search_file(index: usize, query: &str) -> (r: SearchFile)
    ensures
        r@ == (search_name(index as nat, query@), Seq::<char>::empty(), query@),
{
    SearchFile {
        name: search_file_name(index, query),
        description: String::new(),
        query: query.to_string(),
    }
}

/// What an export of query `i` writes, and where.
pub open spec fn exports_search(r: (String, SearchFile), query: Seq<char>, i: int) -> bool {
    let name = search_name((i + 1) as nat, query);
    r.0@ == pack_name((i + 1) as nat, name) && r.1@ == (name, Seq::<char>::empty(), query)
}

/// The files that an export of queries writes.
pub fn search_export(queries: &[String]) -> (r: Vec<(String, SearchFile)>)
    ensures
        r@.len() == queries@.len(),
        forall|i: int| 0 <= i < r@.len() ==> exports_search(#[trigger] r@[i], queries@[i]@, i),
{
    let mut out: Vec<(String, SearchFile)> = Vec::new();
    let total: usize = queries.len();
    for i in 0..queries.len()
        invariant
            total == queries@.len(),
            out@.len() == i,
            forall|j: int| 0 <= j < i ==> exports_search(#[trigger] out@[j], queries@[j]@, j),
    {
        let file = search_file(i + 1, queries[i].as_str());
        let name = pack_file_name(i + 1, file.name.as_str());
        out.push((name, file));
    }
    out
}

/// The default searches, of the first `n`, whose files are not there yet.
pub open spec fn missing_defaults(taken: Seq<Seq<char>>, n: int) -> Seq<(Seq<char>, SearchParts)>
    decreases n,
{
    if n <= 0 {
        Seq::empty()
    } else {
        let item = default_searches()[n - 1];
        let name = pack_name(n as nat, item.0);
        if taken.contains(name) {
            missing_defaults(taken, n - 1)
        } else {
            missing_defaults(taken, n - 1).push((name, item))
        }
    }
}

pub open spec fn named_searches(v: Seq<(String, SearchFile)>) -> Seq<(Seq<char>, SearchParts)> {
    v.map_values(|p: (String, SearchFile)| (p.0@, p.1@))
}

/// The default searches to write into a folder that holds the files `taken`: a file that is
/// there stays as it is.
pub fn install_default_search_library(taken: &[String]) -> (r: Vec<(String, SearchFile)>)
    ensures
        named_searches(r@) == missing_defaults(texts(taken@), 5),
{
    let all = default_search_library();
    assert(all@.len() == 5) by {
        assert(search_views(all@).len() == 5);
    }
    let mut out: Vec<(String, SearchFile)> = Vec::new();
    assert(named_searches(out@) =~= missing_defaults(texts(taken@), 0));
    for i in 0..all.len()
        invariant
            all@.len() == 5,
            search_views(all@) == default_searches(),
            named_searches(out@) == missing_defaults(texts(taken@), i as int),
    {
        assert(search_views(all@)[i as int] == all@[i as int]@);
        let item = &all[i];
        let name = pack_file_name(i + 1, item.name.as_str());
        if !list_has(taken, name.as_str()) {
            let ghost before = named_searches(out@);
            let copy = search(
                item.name.as_str(),
                item.description.as_str(),
                item.query.as_str(),
            );
            out.push((name, copy));
            assert(named_searches(out@) == before.push((name@, copy@)));
        }
    }
    out
}

proof fn lemma_slashed_token(pattern: Seq<char>)
    requires
        pattern_error("(?i)"@ + pattern) is None,
    ensures
        token_test(between_slashes(pattern)) == Ok::<Test, Seq<char>>(
            Test::Pattern("(?i)"@ + pattern),
        ),
{
    reveal_strlit("after:");
    reveal_strlit("before:");
    reveal_strlit("date:");
    let token = between_slashes(pattern);
    assert(token[0] == '/');
    assert(!starts_with(token, "after:"@)) by {
        if starts_with(token, "after:"@) {
            assert(token[0] == "after:"@[0]);
        }
    }
    assert(!starts_with(token, "before:"@)) by {
        if starts_with(token, "before:"@) {
            assert(token[0] == "before:"@[0]);
        }
    }
    assert(!starts_with(token, "date:"@)) by {
        if starts_with(token, "date:"@) {
            assert(token[0] == "date:"@[0]);
        }
    }
    assert(!name_char()(token[0]));
    assert(field_parts(token) is None);
    assert(token.subrange(1, token.len() - 1) =~= pattern);
}

proof fn lemma_slashed_compile(patterns: Seq<Seq<char>>)
    requires
        all_compile(patterns),
    ensures
        ({
            let tokens = patterns.map_values(|p: Seq<char>| between_slashes(p));
            &&& compiled_tests(tokens) == patterns.map_values(
                |p: Seq<char>| Test::Pattern("(?i)"@ + p),
            )
            &&& token_errors(tokens).len() == 0
        }),
    decreases patterns.len(),
{
    let tokens = patterns.map_values(|p: Seq<char>| between_slashes(p));
    let want = patterns.map_values(|p: Seq<char>| Test::Pattern("(?i)"@ + p));
    if patterns.len() > 0 {
        let init = patterns.drop_last();
        let last = patterns[patterns.len() - 1];
        assert forall|k: int| 0 <= k < init.len() implies pattern_error("(?i)"@ + #[trigger] init[k])
            is None by {
            assert(init[k] == patterns[k]);
        }
        lemma_slashed_compile(init);
        assert(tokens.drop_last() =~= init.map_values(|p: Seq<char>| between_slashes(p)));
        lemma_slashed_token(last);
        assert(tokens.last() == between_slashes(last));
        assert(want =~= init.map_values(|p: Seq<char>| Test::Pattern("(?i)"@ + p)).push(
            Test::Pattern("(?i)"@ + last),
        ));
    } else {
        assert(compiled_tests(tokens) =~= want);
    }
}

proof fn lemma_slash_is_no_blank(q: Seq<char>)
    requires
        q.len() > 0,
        q[0] == '/',
    ensures
        !is_blank(q),
{
    lemma_span(q, space());
    let rest = trim_start_by(q, space());
    assert(rest =~= q);
    lemma_span_end(q, space());
}

/// Whether each of the patterns, without regard to case, is one.
pub open spec fn all_compile(patterns: Seq<Seq<char>>) -> bool {
    forall|k: int|
        0 <= k < patterns.len() ==> pattern_error("(?i)"@ + #[trigger] patterns[k]) is None
}

/// A query of patterns between slashes tests each of them, without regard to case, and nothing
/// is wrong with it where each is a pattern.
pub proof fn slashed_queries_compile(patterns: Seq<Seq<char>>)
    requires
        patterns.len() > 0,
        forall|k: int| 0 <= k < patterns.len() ==> is_plain_pattern(#[trigger] patterns[k]),
        all_compile(patterns),
    ensures
        query_tests(query_of(patterns)) == patterns.map_values(
            |p: Seq<char>| Test::Pattern("(?i)"@ + p),
        ),
        query_error(query_of(patterns)) == Seq::<char>::empty(),
{
    let q = query_of(patterns);
    assert(q[0] == '/');
    lemma_slash_is_no_blank(q);
    slashed_patterns_are_tokens(patterns);
    lemma_slashed_compile(patterns);
    let errors = token_errors(query_tokens(q));
    assert(join(errors, "; "@) =~= Seq::<char>::empty());
}

/// The patterns of the searches that every library starts with.
pub open spec fn default_patterns() -> Seq<Seq<Seq<char>>> {
    seq![
        seq![
            "auth|login|signin|token|oauth|saml|ldap"@,
            "fail(ed|ure)?|denied|invalid|unauthorized|forbidden|401|403"@,
        ],
        seq![
            "database|db|jdbc|sql|postgres|mysql|oracle"@,
            "connection|pool"@,
            "exhausted|timeout|timed[[:space:]]*out|max(ed)?[[:space:]]*out|too[[:space:]]+many|refused"@,
        ],
        seq![
            "kubernetes|k8s|pod|container|kubelet"@,
            "restart|restarted|crashloopbackoff|oomkilled|back-off|liveness|readiness"@,
        ],
        seq![
            "exception|caused[[:space:]]+by|stacktrace|java[.]|javax[.]|org[.]springframework"@,
        ],
        seq![
            "request[-_]?id|trace[-_]?id|correlation[-_]?id|x-request-id|span[-_]?id"@,
        ],
    ]
}

/// Whether a text is a query of these patterns, and each can stand between slashes.
pub open spec fn is_query_of(query: Seq<char>, patterns: Seq<Seq<char>>) -> bool {
    &&& query == query_of(patterns)
    &&& forall|k: int| 0 <= k < patterns.len() ==> is_plain_pattern(#[trigger] patterns[k])
}

proof fn lemma_without_slash(pattern: Seq<char>)
    requires
        pattern.len() > 0,
        !is_gap(pattern[0]),
        !pattern.contains('/'),
    ensures
        is_plain_pattern(pattern),
{
    assert forall|k: int| 0 <= k < pattern.len() implies #[trigger] pattern[k] != '/' by {
        assert(pattern.contains(pattern[k]));
    }
}

proof fn lemma_authentication_search()
    ensures
        is_query_of(default_searches()[0].2, default_patterns()[0]),
{
    let all = default_patterns()[0];
    let query = default_searches()[0].2;
    reveal_strlit("/auth|login|signin|token|oauth|saml|ldap/ /fail(ed|ure)?|denied|invalid|unauthorized|forbidden|401|403/");
    reveal_strlit("auth|login|signin|token|oauth|saml|ldap");
    reveal_strlit("fail(ed|ure)?|denied|invalid|unauthorized|forbidden|401|403");
    reveal_with_fuel(query_of, 3);
    assert(all.skip(1) =~= seq![all[1]]);
    assert(query =~= query_of(all));
    lemma_without_slash(all[0]);
    lemma_without_slash(all[1]);
}

proof fn lemma_database_search()
    ensures
        is_query_of(default_searches()[1].2, default_patterns()[1]),
{
    let all = default_patterns()[1];
    let query = default_searches()[1].2;
    reveal_strlit("/database|db|jdbc|sql|postgres|mysql|oracle/ /connection|pool/ /exhausted|timeout|timed[[:space:]]*out|max(ed)?[[:space:]]*out|too[[:space:]]+many|refused/");
    reveal_strlit("database|db|jdbc|sql|postgres|mysql|oracle");
    reveal_strlit("connection|pool");
    reveal_strlit("exhausted|timeout|timed[[:space:]]*out|max(ed)?[[:space:]]*out|too[[:space:]]+many|refused");
    reveal_with_fuel(query_of, 4);
    assert(all.skip(1) =~= seq![all[1], all[2]]);
    assert(all.skip(1).skip(1) =~= seq![all[2]]);
    assert(query =~= query_of(all));
    lemma_without_slash(all[0]);
    lemma_without_slash(all[1]);
    lemma_without_slash(all[2]);
}

proof fn lemma_kubernetes_search()
    ensures
        is_query_of(default_searches()[2].2, default_patterns()[2]),
{
    let all = default_patterns()[2];
    let query = default_searches()[2].2;
    reveal_strlit("/kubernetes|k8s|pod|container|kubelet/ /restart|restarted|crashloopbackoff|oomkilled|back-off|liveness|readiness/");
    reveal_strlit("kubernetes|k8s|pod|container|kubelet");
    reveal_strlit("restart|restarted|crashloopbackoff|oomkilled|back-off|liveness|readiness");
    reveal_with_fuel(query_of, 3);
    assert(all.skip(1) =~= seq![all[1]]);
    assert(query =~= query_of(all));
    lemma_without_slash(all[0]);
    lemma_without_slash(all[1]);
}

proof fn lemma_java_search()
    ensures
        is_query_of(default_searches()[3].2, default_patterns()[3]),
{
    let all = default_patterns()[3];
    let query = default_searches()[3].2;
    reveal_strlit("/exception|caused[[:space:]]+by|stacktrace|java[.]|javax[.]|org[.]springframework/");
    reveal_strlit("exception|caused[[:space:]]+by|stacktrace|java[.]|javax[.]|org[.]springframework");
    reveal_with_fuel(query_of, 2);
    assert(query =~= query_of(all));
    lemma_without_slash(all[0]);
}

proof fn lemma_request_search()
    ensures
        is_query_of(default_searches()[4].2, default_patterns()[4]),
{
    let all = default_patterns()[4];
    let query = default_searches()[4].2;
    reveal_strlit("/request[-_]?id|trace[-_]?id|correlation[-_]?id|x-request-id|span[-_]?id/");
    reveal_strlit("request[-_]?id|trace[-_]?id|correlation[-_]?id|x-request-id|span[-_]?id");
    reveal_with_fuel(query_of, 2);
    assert(query =~= query_of(all));
    lemma_without_slash(all[0]);
}

/// The searches that every library starts with are five, each under a name of its own. None is
/// empty, and each tests its patterns with nothing wrong in it, where they are patterns.
pub proof fn the_default_searches_compile()
    ensures
        default_searches().len() == 5,
        forall|i: int, j: int|
            0 <= i < j < 5 ==> (#[trigger] default_searches()[i]).0 != (
            #[trigger] default_searches()[j]).0,
        forall|i: int|
            0 <= i < 5 ==> !is_blank((#[trigger] default_searches()[i]).2) && (all_compile(
                default_patterns()[i],
            ) ==> query_error(default_searches()[i].2) == Seq::<char>::empty() && query_tests(
                default_searches()[i].2,
            ) == default_patterns()[i].map_values(|p: Seq<char>| Test::Pattern("(?i)"@ + p))),
{
    reveal_strlit("Authentication failures");
    reveal_strlit("Database connection exhaustion");
    reveal_strlit("Kubernetes restart patterns");
    reveal_strlit("Java exception chains");
    reveal_strlit("Request-ID tracing");
    let all = default_searches();
    assert(all[0].0[0] == 'A');
    assert(all[1].0[0] == 'D');
    assert(all[2].0[0] == 'K');
    assert(all[3].0[0] == 'J');
    assert(all[4].0[0] == 'R');
    lemma_authentication_search();
    lemma_database_search();
    lemma_kubernetes_search();
    lemma_java_search();
    lemma_request_search();
    assert forall|i: int| 0 <= i < 5 implies !is_blank((#[trigger] all[i]).2) && (all_compile(
        default_patterns()[i],
    ) ==> query_error(all[i].2) == Seq::<char>::empty() && query_tests(all[i].2)
        == default_patterns()[i].map_values(|p: Seq<char>| Test::Pattern("(?i)"@ + p))) by {
        let patterns = default_patterns()[i];
        assert(is_query_of(all[i].2, patterns));
        assert(patterns.len() > 0);
        assert(all[i].2[0] == '/');
        lemma_slash_is_no_blank(all[i].2);
        if all_compile(patterns) {
            slashed_queries_compile(patterns);
        }
    }
}

/// What the tests about time let through, by the instants: an entry passes `after:a` where it
/// has a time no earlier than `a`, `before:b` where it has one no later than `b`, and
/// `date:[a..b]` exactly where it passes both. An open end bounds nothing.
pub proof fn time_tests_go_by_the_instant(
    lo: Parts,
    hi: Parts,
    file: FileParts,
    entry: EntryParts,
)
    requires
        is_instant(lo),
        is_instant(hi),
        file.time(entry) is Some ==> is_instant(file.time(entry)->0),
    ensures
        Test::After(lo).passes(file, entry) <==> file.time(entry) is Some && instant(lo) <= instant(
            file.time(entry)->0,
        ),
        Test::Before(hi).passes(file, entry) <==> file.time(entry) is Some && instant(
            file.time(entry)->0,
        ) <= instant(hi),
        Test::Between(Some(lo), Some(hi)).passes(file, entry) <==> file.time(entry) is Some
            && instant(lo) <= instant(file.time(entry)->0) <= instant(hi),
{
    if file.time(entry) is Some {
        let t = file.time(entry)->0;
        times_are_ordered_as_instants(t, lo);
        times_are_ordered_as_instants(hi, t);
        a_time_range_keeps_the_instants_between(t, Some(lo), Some(hi));
    }
}

/// A range lets through what both of its ends let through, and one with an open end what the
/// other end does.
pub proof fn a_date_range_is_both_its_ends(
    lo: Parts,
    hi: Parts,
    file: FileParts,
    entry: EntryParts,
)
    ensures
        Test::Between(Some(lo), Some(hi)).passes(file, entry) <==> Test::After(lo).passes(
            file,
            entry,
        ) && Test::Before(hi).passes(file, entry),
        Test::Between(Some(lo), None).passes(file, entry) == Test::After(lo).passes(file, entry),
        Test::Between(None, Some(hi)).passes(file, entry) == Test::Before(hi).passes(file, entry),
{
}

/// What the tests about text let through: a word where the entry holds it, a field's text where
/// the field does, both but for case, and a field's value where it is that very text.
pub proof fn text_tests_look_for_their_text(
    field: Seq<char>,
    text: Seq<char>,
    file: FileParts,
    entry: EntryParts,
)
    ensures
        is_ascii(text) ==> (Test::Substring(text).passes(file, entry) <==> holds_within(
            entry.2,
            text,
        )),
        is_ascii(text) ==> (Test::FieldContains(field, text).passes(file, entry) <==> holds_within(
            file.field(entry, field),
            text,
        )),
        Test::FieldEq(field, text).passes(file, entry) <==> file.field(entry, field) == text,
        Test::Pattern(text).passes(file, entry) <==> pattern_matches(text, entry.2),
        Test::FieldPattern(field, text).passes(file, entry) <==> pattern_matches(
            text,
            file.field(entry, field),
        ),
{
    if is_ascii(text) {
        containment_is_a_text_within(entry.2, text);
        containment_is_a_text_within(file.field(entry, field), text);
    }
}

/// Whether a text can name a field: letters, digits and underscores, no digit first.
pub open spec fn names_a_field(name: Seq<char>) -> bool {
    &&& name.len() > 0
    &&& !is_digit(name[0])
    &&& forall|i: int|
        0 <= i < name.len() ==> is_letter(#[trigger] name[i]) || is_digit(name[i]) || name[i] == '_'
}

proof fn lemma_no_keyword(name: Seq<char>, rest: Seq<char>)
    requires
        names_a_field(name),
        rest.len() > 0,
        rest[0] == '=' || rest[0] == '~',
    ensures
        !starts_with(name + rest, "after:"@),
        !starts_with(name + rest, "before:"@),
        !starts_with(name + rest, "date:"@),
        span(name + rest, name_char()) == name.len(),
        is_name_start(name[0]),
{
    let token = name + rest;
    reveal_strlit("after:");
    reveal_strlit("before:");
    reveal_strlit("date:");
    assert forall|i: int| 0 <= i < name.len() implies name_char()(#[trigger] token[i]) by {
        assert(token[i] == name[i]);
    }
    assert(token[name.len() as int] == rest[0]);
    lemma_span_is(token, name_char(), name.len());
    lemma_colon(token, name.len() as int, "after:"@, 5);
    lemma_colon(token, name.len() as int, "before:"@, 6);
    lemma_colon(token, name.len() as int, "date:"@, 4);
}

/// A name ends before any colon, so a token that starts with one holds no keyword.
proof fn lemma_colon(token: Seq<char>, n: int, keyword: Seq<char>, k: int)
    requires
        0 < n < token.len(),
        token[n] == '=' || token[n] == '~',
        forall|i: int| 0 <= i < n ==> name_char()(#[trigger] token[i]),
        keyword.len() == k + 1,
        keyword[k] == ':',
        forall|i: int| 0 <= i < k ==> is_letter(#[trigger] keyword[i]),
        0 <= k,
    ensures
        !starts_with(token, keyword),
{
    if starts_with(token, keyword) {
        let head = token.take(keyword.len() as int);
        assert(head == keyword);
        if n <= k {
            assert(head[n] == token[n]);
            assert(n < k ==> is_letter(keyword[n]));
        } else {
            assert(head[k] == token[k]);
            assert(name_char()(token[k]));
        }
    }
}

/// `field=value` asks for that very value, `field=/pattern/` for a match, and `field~text` for a
/// text within, whatever stands behind the sign on the same line.
pub proof fn field_tokens_ask_their_field(name: Seq<char>, value: Seq<char>)
    requires
        names_a_field(name),
        !value.contains('\n'),
    ensures
        !(value.len() >= 2 && value[0] == '/' && value.last() == '/') ==> token_test(
            name + seq!['='] + value,
        ) == Ok::<Test, Seq<char>>(Test::FieldEq(name, value)),
        token_test(name + seq!['~'] + value) == Ok::<Test, Seq<char>>(
            Test::FieldContains(name, lowercase_of(value)),
        ),
        forall|pattern: Seq<char>|
            value == #[trigger] (seq!['/'] + pattern + seq!['/']) && pattern_error(
                "(?i)"@ + pattern,
            ) is None ==> token_test(name + seq!['='] + value) == Ok::<Test, Seq<char>>(
                Test::FieldPattern(name, "(?i)"@ + pattern),
            ),
{
    let n = name.len() as int;
    let eq = seq!['='] + value;
    let like = seq!['~'] + value;
    lemma_no_keyword(name, eq);
    lemma_no_keyword(name, like);
    assert(name + seq!['='] + value =~= name + eq);
    assert(name + seq!['~'] + value =~= name + like);
    assert((name + eq).take(n) =~= name);
    assert((name + like).take(n) =~= name);
    assert((name + eq).skip(n + 1) =~= value);
    assert((name + like).skip(n + 1) =~= value);
    assert((name + eq)[0] == name[0] && (name + like)[0] == name[0]);
    assert((name + eq)[n] == '=' && (name + like)[n] == '~');
    assert forall|pattern: Seq<char>|
        value == #[trigger] (seq!['/'] + pattern + seq!['/']) && pattern_error("(?i)"@ + pattern)
            is None implies token_test(name + seq!['='] + value) == Ok::<Test, Seq<char>>(
        Test::FieldPattern(name, "(?i)"@ + pattern),
    ) by {
        assert(value.subrange(1, value.len() - 1) =~= pattern);
    }
}

/// A word, with no sign in it that the query language knows, is looked for in small letters.
pub proof fn a_plain_word_is_looked_for(word: Seq<char>)
    requires
        word.len() > 0,
        word[0] != '/',
        forall|i: int|
            0 <= i < word.len() ==> #[trigger] word[i] != '=' && word[i] != '~' && word[i] != ':',
    ensures
        token_test(word) == Ok::<Test, Seq<char>>(Test::Substring(lowercase_of(word))),
{
    reveal_strlit("after:");
    reveal_strlit("before:");
    reveal_strlit("date:");
    if starts_with(word, "after:"@) {
        assert(word.take(6)[5] == ':');
    }
    if starts_with(word, "before:"@) {
        assert(word.take(7)[6] == ':');
    }
    if starts_with(word, "date:"@) {
        assert(word.take(5)[4] == ':');
    }
}

/// `after:a` and `before:b` test the times that they name, and `date:[a..b]` both.
pub proof fn a_written_range_tests_both_its_ends(a: Seq<char>, b: Seq<char>)
    requires
        typed_time(a) is Some,
        typed_time(b) is Some,
        !is_blank(a),
        !is_blank(b),
        !a.contains('[') && !b.contains(']'),
        forall|k: int| 0 <= k < a.len() ==> !#[trigger] reads_at(a + ".."@ + b, ".."@, k),
    ensures
        token_test("after:"@ + a) == Ok::<Test, Seq<char>>(Test::After(typed_time(a)->0)),
        token_test("before:"@ + b) == Ok::<Test, Seq<char>>(Test::Before(typed_time(b)->0)),
        token_test("date:["@ + a + ".."@ + b + "]"@) == Ok::<Test, Seq<char>>(
            Test::Between(typed_time(a), typed_time(b)),
        ),
{
    reveal_strlit("after:");
    reveal_strlit("before:");
    reveal_strlit("date:");
    reveal_strlit("date:[");
    reveal_strlit("]");
    reveal_strlit("..");
    let after = "after:"@ + a;
    assert(after.take(6) =~= "after:"@);
    assert(after.skip(6) =~= a);
    let before = "before:"@ + b;
    assert(before.take(7) =~= "before:"@);
    assert(before.skip(7) =~= b);
    assert(before.take(6)[0] == 'b');
    let range = "date:["@ + a + ".."@ + b + "]"@;
    assert(range.take(5) =~= "date:"@);
    assert(range.take(6)[0] == 'd');
    assert(range.take(7)[0] == 'd');
    let bare = a + ".."@ + b;
    let body = range.skip(5);
    assert(body =~= seq!['['] + bare + seq![']']);
    lemma_unbracketed(bare);
    lemma_range_ends(bare, a, b);
}

proof fn lemma_unbracketed(bare: Seq<char>)
    requires
        bare.len() > 0,
        bare[0] != '[',
        bare.last() != ']',
    ensures
        unbracketed(seq!['['] + bare + seq![']']) == bare,
{
    let body = seq!['['] + bare + seq![']'];
    lemma_span_is(body, space(), 0);
    assert(trim_start_by(body, space()) =~= body);
    lemma_span_end_is(body, space(), 0);
    assert(trimmed(body) =~= body);
    lemma_span_is(body, is_char('['), 1);
    let open = trim_start_by(body, is_char('['));
    assert(open =~= bare + seq![']']);
    lemma_span_end_is(open, is_char(']'), 1);
    assert(trim_end_by(open, is_char(']')) =~= bare);
}

/// Every token of a query is either tested or complained of.
pub proof fn every_token_counts(tokens: Seq<Seq<char>>)
    ensures
        compiled_tests(tokens).len() + token_errors(tokens).len() == tokens.len(),
        forall|i: int|
            0 <= i < tokens.len() ==> match token_test(#[trigger] tokens[i]) {
                Ok(t) => compiled_tests(tokens).contains(t),
                Err(_) => token_errors(tokens).len() > 0,
            },
    decreases tokens.len(),
{
    if tokens.len() > 0 {
        let init = tokens.drop_last();
        every_token_counts(init);
        let all = compiled_tests(tokens);
        assert forall|i: int| 0 <= i < tokens.len() implies match token_test(#[trigger] tokens[i]) {
            Ok(t) => all.contains(t),
            Err(_) => token_errors(tokens).len() > 0,
        } by {
            if i < init.len() {
                assert(init[i] == tokens[i]);
                if let Ok(t) = token_test(init[i]) {
                    let k = choose|k: int|
                        0 <= k < compiled_tests(init).len() && compiled_tests(init)[k] == t;
                    assert(all[k] == t);
                }
            } else if let Ok(t) = token_test(tokens[i]) {
                assert(all.last() == t);
            }
        }
    }
}

/// A date range may be open at one end, and then tests the other alone; one that is open at both
/// is refused.
pub proof fn a_written_range_may_be_open(a: Seq<char>)
    requires
        typed_time(a) is Some,
        !is_blank(a),
        !a.contains('[') && !a.contains(']') && !a.contains('.'),
    ensures
        token_test("date:["@ + a + "..]"@) == Ok::<Test, Seq<char>>(
            Test::Between(typed_time(a), None),
        ),
        token_test("date:[.."@ + a + "]"@) == Ok::<Test, Seq<char>>(
            Test::Between(None, typed_time(a)),
        ),
        token_test("date:[..]"@) is Err,
{
    reveal_strlit("after:");
    reveal_strlit("before:");
    reveal_strlit("date:");
    reveal_strlit("date:[");
    reveal_strlit("date:[..");
    reveal_strlit("date:[..]");
    reveal_strlit("..]");
    reveal_strlit("]");
    reveal_strlit("..");
    let none = Seq::<char>::empty();
    assert(a.len() > 0) by {
        if a.len() == 0 {
            lemma_span_end(a, space());
            assert(trimmed(a).len() == 0);
        }
    }
    assert(is_blank(none)) by {
        lemma_span_end(none, space());
    }
    assert(a.contains(a[0]) && a.contains(a[a.len() - 1]));
    let from = "date:["@ + a + "..]"@;
    assert(from =~= "date:["@ + (a + ".."@) + "]"@);
    lemma_date_token(from, a + ".."@);
    assert forall|k: int| 0 <= k < a.len() implies !#[trigger] reads_at(a + ".."@, ".."@, k) by {
        if reads_at(a + ".."@, ".."@, k) {
            assert((a + ".."@)[k + 0] == ".."@[0]);
            assert(a.contains(a[k]));
        }
    }
    assert(a + ".."@ =~= a + ".."@ + none);
    lemma_range_ends(a + ".."@, a, none);
    let upto = "date:[.."@ + a + "]"@;
    assert(upto =~= "date:["@ + (".."@ + a) + "]"@);
    lemma_date_token(upto, ".."@ + a);
    assert(".."@ + a =~= none + ".."@ + a);
    lemma_range_ends(".."@ + a, none, a);
    let all = "date:[..]"@;
    assert(all =~= "date:["@ + ".."@ + "]"@);
    lemma_date_token(all, ".."@);
    assert(".."@ =~= none + ".."@ + none);
    lemma_range_ends(".."@, none, none);
}

proof fn lemma_date_token(token: Seq<char>, bare: Seq<char>)
    requires
        token == "date:["@ + bare + "]"@,
        bare.len() > 0,
        bare[0] != '[',
        bare.last() != ']',
    ensures
        !starts_with(token, "after:"@),
        !starts_with(token, "before:"@),
        starts_with(token, "date:"@),
        unbracketed(token.skip("date:"@.len() as int)) == bare,
{
    reveal_strlit("after:");
    reveal_strlit("before:");
    reveal_strlit("date:");
    reveal_strlit("date:[");
    reveal_strlit("]");
    assert(token[0] == 'd');
    if starts_with(token, "after:"@) {
        assert(token.take(6)[0] == token[0]);
    }
    if starts_with(token, "before:"@) {
        assert(token.take(7)[0] == token[0]);
    }
    assert(token.take(5) =~= "date:"@);
    assert(token.skip(5) =~= seq!['['] + bare + seq![']']);
    lemma_unbracketed(bare);
}

/// Of the default searches exactly those are missing whose file is not there, each under the
/// name of its place.
pub proof fn missing_searches_are_those_not_there(taken: Seq<Seq<char>>, n: int, k: int)
    requires
        0 < k <= n <= default_searches().len(),
    ensures
        missing_defaults(taken, n).contains(
            (pack_name(k as nat, default_searches()[k - 1].0), default_searches()[k - 1]),
        ) <== !taken.contains(pack_name(k as nat, default_searches()[k - 1].0)),
        forall|i: int|
            0 <= i < missing_defaults(taken, n).len() ==> !taken.contains(
                (#[trigger] missing_defaults(taken, n)[i]).0,
            ),
    decreases n,
{
    let item = default_searches()[k - 1];
    let sought = (pack_name(k as nat, item.0), item);
    let all = missing_defaults(taken, n);
    let before = missing_defaults(taken, n - 1);
    lemma_none_taken(taken, n);
    if k < n {
        missing_searches_are_those_not_there(taken, n - 1, k);
        if before.contains(sought) {
            let i = choose|i: int| 0 <= i < before.len() && before[i] == sought;
            assert(all[i] == sought);
        }
    } else if !taken.contains(sought.0) {
        assert(all.last() == sought);
    }
}

proof fn lemma_none_taken(taken: Seq<Seq<char>>, n: int)
    ensures
        forall|i: int|
            0 <= i < missing_defaults(taken, n).len() ==> !taken.contains(
                (#[trigger] missing_defaults(taken, n)[i]).0,
            ),
    decreases n,
{
    if n > 0 {
        lemma_none_taken(taken, n - 1);
        let before = missing_defaults(taken, n - 1);
        let all = missing_defaults(taken, n);
        assert forall|i: int| 0 <= i < all.len() implies !taken.contains(
            (#[trigger] all[i]).0,
        ) by {
            if i < before.len() {
                assert(all[i] == before[i]);
            }
        }
    }
}

} // verus!
