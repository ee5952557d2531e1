//! The tokens of a query: patterns between slashes as they stand, the rest as a shell splits it.

use crate::extractor::{is_name_char, is_name_start, name_char};
use crate::shell::{shell_split, split_shell};
use crate::text::{
    char_is_alphanumeric, char_is_letter, chars_of, lemma_span, run_from, span, string_of, strs,
    text_words, texts, words,
};
use vstd::prelude::*;

verus! {

/// What parts the words of a query.
pub open spec fn is_gap(c: char) -> bool {
    c == ' ' || c == '\t' || c == '\n'
}

/// Where in a query a character stands: between words, in a word, in quotes, behind a backslash
/// of a word or of double quotes, or in a comment.
#[derive(Debug, Clone, Copy, PartialEq, Eq, Structural)]
pub enum Place {
    Between,
    Word,
    WordEscape,
    Single,
    Double,
    DoubleEscape,
    Comment,
}

/// The place behind a character that stands outside quotes.
pub open spec fn outside_quotes(c: char) -> Place {
    if is_gap(c) {
        Place::Between
    } else if c == '\'' {
        Place::Single
    } else if c == '"' {
        Place::Double
    } else if c == '\\' {
        Place::WordEscape
    } else {
        Place::Word
    }
}

impl Place {
    /// The place behind one more character.
    pub open spec fn after(self, c: char) -> Place {
        match self {
            Place::Between => if c == '#' {
                Place::Comment
            } else {
                outside_quotes(c)
            },
            Place::Word => outside_quotes(c),
            Place::WordEscape => Place::Word,
            Place::Single => if c == '\'' {
                Place::Word
            } else {
                Place::Single
            },
            Place::Double => if c == '"' {
                Place::Word
            } else if c == '\\' {
                Place::DoubleEscape
            } else {
                Place::Double
            },
            Place::DoubleEscape => Place::Double,
            Place::Comment => if c == '\n' {
                Place::Between
            } else {
                Place::Comment
            },
        }
    }

    fn step(self, c: char) -> (r: Place)
        ensures
            r == self.after(c),
    {
        match self {
            Place::WordEscape => Place::Word,
            Place::DoubleEscape => Place::Double,
            Place::Single => if c == '\'' {
                Place::Word
            } else {
                Place::Single
            },
            Place::Double => if c == '"' {
                Place::Word
            } else if c == '\\' {
                Place::DoubleEscape
            } else {
                Place::Double
            },
            Place::Comment => if c == '\n' {
                Place::Between
            } else {
                Place::Comment
            },
            _ => {
                if self == Place::Between && c == '#' {
                    Place::Comment
                } else if c == ' ' || c == '\t' || c == '\n' {
                    Place::Between
                } else if c == '\'' {
                    Place::Single
                } else if c == '"' {
                    Place::Double
                } else if c == '\\' {
                    Place::WordEscape
                } else {
                    Place::Word
                }
            },
        }
    }
}

/// Where a pattern that is open ends: the first slash from `i` on with a gap or nothing behind
/// it.
pub open spec fn closing_slash(s: Seq<char>, i: int) -> Option<int>
    decreases s.len() - i,
{
    if i >= s.len() {
        None
    } else if s[i] == '/' && (i + 1 == s.len() || is_gap(s[i + 1])) {
        Some(i)
    } else {
        closing_slash(s, i + 1)
    }
}

/// Where the slash stands that opens a pattern at the start of a word: there, or behind a field
/// and `=`.
pub open spec fn opening_slash(s: Seq<char>, i: int) -> int {
    let n = span(s.skip(i), name_char()) as int;
    if n > 0 && is_name_start(s[i]) && i + n < s.len() && s[i + n] == '=' {
        i + n + 1
    } else {
        i
    }
}

/// Where the slashed token ends that starts with the word at `i`, if one does.
pub open spec fn slashed_end(s: Seq<char>, i: int) -> Option<int> {
    let k = opening_slash(s, i);
    if k + 1 < s.len() && s[k] == '/' && !is_gap(s[k + 1]) {
        match closing_slash(s, k + 1) {
            Some(j) => Some(j + 1),
            None => None,
        }
    } else {
        None
    }
}

/// A part of a query: one token with a pattern between slashes, or plain words.
#[verifier::ext_equal]
pub enum Part {
    Slashed(Seq<char>),
    Plain(Seq<char>),
}

/// The plain words from `from` up to `to`, if there are any.
pub open spec fn plain_part(s: Seq<char>, from: int, to: int) -> Seq<Part> {
    if exists|k: int| from <= k < to && !is_gap(#[trigger] s[k]) {
        seq![Part::Plain(s.subrange(from, to))]
    } else {
        Seq::empty()
    }
}

/// The parts of a query behind `from`, of which those up to `i` are plain and end at `place`.
pub open spec fn parts_from(s: Seq<char>, from: int, i: int, place: Place) -> Seq<Part>
    decreases s.len() - i,
{
    if i >= s.len() {
        plain_part(s, from, s.len() as int)
    } else {
        match slashed_end(s, i) {
            Some(end) => if place == Place::Between && i < end <= s.len() {
                plain_part(s, from, i) + (seq![Part::Slashed(s.subrange(i, end))] + parts_from(
                    s,
                    end,
                    end,
                    Place::Between,
                ))
            } else {
                parts_from(s, from, i + 1, place.after(s[i]))
            },
            None => parts_from(s, from, i + 1, place.after(s[i])),
        }
    }
}

/// The parts of a query.
pub open spec fn query_parts(s: Seq<char>) -> Seq<Part> {
    parts_from(s, 0, 0, Place::Between)
}

/// The tokens of one part, where a shell splits it as `split` says: words that it cannot split
/// are the runs between white space.
pub open spec fn part_tokens(part: Part, split: Option<Seq<Seq<char>>>) -> Seq<Seq<char>> {
    match part {
        Part::Slashed(token) => seq![token],
        Part::Plain(text) => match split {
            Some(tokens) => tokens,
            None => words(text),
        },
    }
}

/// What is said of part `k`; nothing behind the end.
pub open spec fn split_at(splits: Seq<Option<Seq<Seq<char>>>>, k: int) -> Option<Seq<Seq<char>>> {
    if k < splits.len() {
        splits[k]
    } else {
        None
    }
}

/// The tokens of the first `n` parts.
pub open spec fn tokens_given(
    parts: Seq<Part>,
    splits: Seq<Option<Seq<Seq<char>>>>,
    n: int,
) -> Seq<Seq<char>>
    decreases n,
{
    if n <= 0 {
        Seq::empty()
    } else {
        tokens_given(parts, splits, n - 1) + part_tokens(parts[n - 1], split_at(splits, n - 1))
    }
}

/// How a shell splits each part.
pub open spec fn shell_splits(parts: Seq<Part>) -> Seq<Option<Seq<Seq<char>>>> {
    parts.map_values(
        |p: Part|
            match p {
                Part::Slashed(_) => None,
                Part::Plain(text) => shell_split(text),
            },
    )
}

/// The tokens of a query.
pub open spec fn query_tokens(text: Seq<char>) -> Seq<Seq<char>> {
    let parts = query_parts(text);
    tokens_given(parts, shell_splits(parts), parts.len() as int)
}

/// A part of a query.
#[derive(Debug, PartialEq, Eq)]
pub enum QueryPart {
    Slashed(String),
    Plain(String),
}

impl View for QueryPart {
    type V = Part;

    open spec fn view(&self) -> Part {
        match *self {
            QueryPart::Slashed(t) => Part::Slashed(t@),
            QueryPart::Plain(t) => Part::Plain(t@),
        }
    }
}

pub open spec fn part_views(v: Seq<QueryPart>) -> Seq<Part> {
    v.map_values(|p: QueryPart| p@)
}

pub open spec fn split_views(v: Seq<Option<Vec<String>>>) -> Seq<Option<Seq<Seq<char>>>> {
    v.map_values(
        |s: Option<Vec<String>>|
            match s {
                Some(tokens) => Some(texts(tokens@)),
                None => None,
            },
    )
}

fn find_closing(chars: &Vec<char>, i: usize) -> (r: Option<usize>)
    requires
        i <= chars@.len(),
    ensures
        match r {
            Some(j) => closing_slash(chars@, i as int) == Some(j as int) && i <= j < chars@.len(),
            None => closing_slash(chars@, i as int) is None,
        },
{
    let mut j: usize = i;
    while j < chars.len()
        invariant
            i <= j <= chars@.len(),
            closing_slash(chars@, i as int) == closing_slash(chars@, j as int),
        decreases chars@.len() - j,
    {
        if chars[j] == '/' {
            if j + 1 == chars.len() {
                return Some(j);
            }
            let next = chars[j + 1];
            if next == ' ' || next == '\t' || next == '\n' {
                return Some(j);
            }
        }
        j = j + 1;
    }
    None
}

fn find_slashed_end(chars: &Vec<char>, i: usize) -> (r: Option<usize>)
    requires
        i < chars@.len(),
    ensures
        match r {
            Some(end) => slashed_end(chars@, i as int) == Some(end as int) && i < end
                <= chars@.len(),
            None => slashed_end(chars@, i as int) is None,
        },
{
    let f = |c: char| -> (b: bool)
        ensures
            b == is_name_char(c),
        { char_is_alphanumeric(c) || c == '_' };
    let n: usize = run_from(chars.as_slice(), i, f, Ghost(name_char()));
    proof {
        lemma_span(chars@.skip(i as int), name_char());
    }
    let total: usize = chars.len();
    let mut k: usize = i;
    if n > 0 && (char_is_letter(chars[i]) || chars[i] == '_') && n < total - i && chars[i + n]
        == '=' {
        k = i + n + 1;
    }
    if k >= total || total - k < 2 || chars[k] != '/' {
        return None;
    }
    let next = chars[k + 1];
    if next == ' ' || next == '\t' || next == '\n' {
        return None;
    }
    match find_closing(chars, k + 1) {
        Some(j) => Some(j + 1),
        None => None,
    }
}

fn push_plain(out: &mut Vec<QueryPart>, chars: &Vec<char>, from: usize, to: usize)
    requires
        from <= to <= chars@.len(),
    ensures
        part_views(final(out)@) == part_views(old(out)@) + plain_part(
            chars@,
            from as int,
            to as int,
        ),
{
    let ghost before = part_views(out@);
    for k in from..to
        invariant
            from <= to <= chars@.len(),
            before == part_views(out@),
            part_views(old(out)@) == before,
            forall|j: int| from <= j < k ==> is_gap(#[trigger] chars@[j]),
    {
        let c = chars[k];
        if c != ' ' && c != '\t' && c != '\n' {
            assert(!is_gap(chars@[k as int]));
            let part = string_of(chars.as_slice(), from, to);
            out.push(QueryPart::Plain(part));
            assert(part_views(out@) =~= before + plain_part(chars@, from as int, to as int));
            return;
        }
    }
    assert(before + Seq::<Part>::empty() =~= before);
}

/// The parts of a query. A pattern between slashes stands at the start of a word or behind
/// `field=`, outside quotes, and ends with a slash before a gap: blanks and backslashes in it
/// are its own.
pub fn parts_of(text: &str) -> (r: Vec<QueryPart>)
    ensures
        part_views(r@) == query_parts(text@),
{
    let chars = chars_of(text);
    let mut out: Vec<QueryPart> = Vec::new();
    let mut from: usize = 0;
    let mut i: usize = 0;
    let mut place = Place::Between;
    assert(part_views(out@) + query_parts(text@) =~= query_parts(text@));
    while i < chars.len()
        invariant
            chars@ == text@,
            from <= i <= chars@.len(),
            part_views(out@) + parts_from(text@, from as int, i as int, place) == query_parts(
                text@,
            ),
        decreases chars@.len() - i,
    {
        let end = if place == Place::Between {
            find_slashed_end(&chars, i)
        } else {
            None
        };
        match end {
            Some(end) => {
                let ghost before = part_views(out@);
                let ghost plain = plain_part(text@, from as int, i as int);
                let ghost rest = parts_from(text@, end as int, end as int, Place::Between);
                push_plain(&mut out, &chars, from, i);
                let token = string_of(chars.as_slice(), i, end);
                let ghost slashed = seq![Part::Slashed(text@.subrange(i as int, end as int))];
                out.push(QueryPart::Slashed(token));
                assert(part_views(out@) =~= before + plain + slashed);
                assert(before + plain + slashed + rest =~= before + (plain + (slashed + rest)));
                from = end;
                i = end;
                place = Place::Between;
            },
            None => {
                place = place.step(chars[i]);
                i = i + 1;
            },
        }
    }
    push_plain(&mut out, &chars, from, i);
    out
}

/// The tokens of the parts of a query, where a shell splits the plain ones as `splits` says.
pub fn tokens_of(parts: &Vec<QueryPart>, splits: &Vec<Option<Vec<String>>>) -> (r: Vec<String>)
    ensures
        texts(r@) == tokens_given(
            part_views(parts@),
            split_views(splits@),
            parts@.len() as int,
        ),
{
    let ghost all = part_views(parts@);
    let ghost said = split_views(splits@);
    let mut out: Vec<String> = Vec::new();
    assert(texts(out@) =~= tokens_given(all, said, 0));
    for k in 0..parts.len()
        invariant
            all == part_views(parts@),
            said == split_views(splits@),
            texts(out@) == tokens_given(all, said, k as int),
    {
        let ghost before = texts(out@);
        assert(all[k as int] == parts@[k as int]@);
        match &parts[k] {
            QueryPart::Slashed(token) => {
                out.push(token.clone());
                assert(texts(out@) =~= before + seq![token@]);
            },
            QueryPart::Plain(text) => {
                let split: Option<&Vec<String>> = if k < splits.len() {
                    match &splits[k] {
                        Some(tokens) => Some(tokens),
                        None => None,
                    }
                } else {
                    None
                };
                match split {
                    Some(tokens) => {
                        push_all(&mut out, tokens);
                    },
                    None => {
                        push_words(&mut out, text.as_str());
                    },
                }
            },
        }
    }
    out
}

fn push_all(out: &mut Vec<String>, tokens: &Vec<String>)
    ensures
        texts(final(out)@) == texts(old(out)@) + texts(tokens@),
{
    let ghost before = texts(out@);
    assert(before + texts(tokens@).take(0) =~= before);
    for i in 0..tokens.len()
        invariant
            texts(out@) == before + texts(tokens@).take(i as int),
    {
        let ghost held = texts(out@);
        out.push(tokens[i].clone());
        assert(texts(out@) =~= held.push(tokens@[i as int]@));
        assert(texts(out@) =~= before + texts(tokens@).take(i + 1));
    }
    assert(texts(tokens@).take(tokens@.len() as int) =~= texts(tokens@));
}

fn push_words(out: &mut Vec<String>, text: &str)
    ensures
        texts(final(out)@) == texts(old(out)@) + words(text@),
{
    let ghost before = texts(out@);
    let found = text_words(text);
    assert(before + strs(found@).take(0) =~= before);
    for i in 0..found.len()
        invariant
            texts(out@) == before + strs(found@).take(i as int),
    {
        let ghost held = texts(out@);
        out.push(found[i].to_string());
        assert(texts(out@) =~= held.push(found@[i as int]@));
        assert(texts(out@) =~= before + strs(found@).take(i + 1));
    }
    assert(strs(found@).take(found@.len() as int) =~= strs(found@));
}

/// How a shell splits the parts of a query.
pub fn splits_of(parts: &Vec<QueryPart>) -> (r: Vec<Option<Vec<String>>>)
    ensures
        split_views(r@) == shell_splits(part_views(parts@)),
{
    let ghost all = shell_splits(part_views(parts@));
    let mut out: Vec<Option<Vec<String>>> = Vec::new();
    for k in 0..parts.len()
        invariant
            all == shell_splits(part_views(parts@)),
            split_views(out@) == all.take(k as int),
    {
        let ghost before = split_views(out@);
        let split = match &parts[k] {
            QueryPart::Slashed(_) => None,
            QueryPart::Plain(text) => split_shell(text.as_str()),
        };
        out.push(split);
        assert(split_views(out@) =~= before.push(all[k as int]));
    }
    assert(all.take(all.len() as int) =~= all);
    out
}

// ---------------------------------------------------------------------------
// Laws
// ---------------------------------------------------------------------------

proof fn lemma_closing(s: Seq<char>, i: int, at: int)
    requires
        0 <= i <= at < s.len(),
        s[at] == '/',
        at + 1 == s.len() || is_gap(s[at + 1]),
        forall|k: int| i <= k < at && #[trigger] s[k] == '/' ==> !is_gap(s[k + 1]),
    ensures
        closing_slash(s, i) == Some(at),
    decreases at - i,
{
    if i < at {
        lemma_closing(s, i + 1, at);
    }
}

/// A pattern that can stand between slashes: it does not begin with a gap, and no slash in it
/// stands before one.
pub open spec fn is_plain_pattern(pattern: Seq<char>) -> bool {
    &&& pattern.len() > 0
    &&& !is_gap(pattern[0])
    &&& forall|k: int|
        0 <= k < pattern.len() - 1 && #[trigger] pattern[k] == '/' ==> !is_gap(pattern[k + 1])
}

/// A pattern between slashes.
pub open spec fn between_slashes(pattern: Seq<char>) -> Seq<char> {
    seq!['/'] + pattern + seq!['/']
}

/// Patterns between slashes, with a blank between them.
pub open spec fn query_of(patterns: Seq<Seq<char>>) -> Seq<char>
    decreases patterns.len(),
{
    if patterns.len() == 0 {
        Seq::empty()
    } else if patterns.len() == 1 {
        between_slashes(patterns[0])
    } else {
        between_slashes(patterns[0]) + seq![' '] + query_of(patterns.skip(1))
    }
}

proof fn lemma_parts_of_patterns(s: Seq<char>, from: int, i: int, patterns: Seq<Seq<char>>)
    requires
        0 <= from <= i <= s.len(),
        forall|k: int| from <= k < i ==> is_gap(#[trigger] s[k]),
        s.skip(i) == query_of(patterns),
        forall|k: int| 0 <= k < patterns.len() ==> is_plain_pattern(#[trigger] patterns[k]),
    ensures
        parts_from(s, from, i, Place::Between) == patterns.map_values(
            |p: Seq<char>| Part::Slashed(between_slashes(p)),
        ),
    decreases patterns.len(),
{
    let want = patterns.map_values(|p: Seq<char>| Part::Slashed(between_slashes(p)));
    if patterns.len() == 0 {
        assert(s.skip(i).len() == 0);
        assert(parts_from(s, from, i, Place::Between) =~= want);
    } else {
        let p = patterns[0];
        let n = p.len() as int;
        let rest = patterns.skip(1);
        let all = query_of(patterns);
        assert(is_plain_pattern(p));
        assert(all.take(n + 2) =~= between_slashes(p));
        assert forall|k: int| 0 <= k < n + 2 implies #[trigger] s[i + k] == between_slashes(p)[k] by {
            assert(s.skip(i)[k] == s[i + k]);
            assert(all.take(n + 2)[k] == all[k]);
        }
        assert(s[i] == s[i + 0] && s[i + 0] == '/');
        assert(s.skip(i)[0] == s[i]);
        assert(!name_char()(s.skip(i)[0]));
        assert(opening_slash(s, i) == i);
        assert(s[i + 1] == p[0]);
        let at = i + n + 1;
        assert(s[i + (n + 1)] == '/');
        if rest.len() > 0 {
            assert(all[n + 2] == ' ');
            assert(s.skip(i)[n + 2] == s[at + 1]);
        }
        assert forall|k: int| i + 1 <= k < at && #[trigger] s[k] == '/' implies !is_gap(s[k + 1]) by {
            assert(s[i + (k - i)] == p[k - i - 1]);
            if k + 1 < at {
                assert(s[i + (k + 1 - i)] == p[k - i]);
            }
        }
        lemma_closing(s, i + 1, at);
        let end = at + 1;
        assert(slashed_end(s, i) == Some(end));
        assert(s.subrange(i, end) =~= between_slashes(p)) by {
            assert forall|k: int| 0 <= k < n + 2 implies #[trigger] s.subrange(i, end)[k]
                == between_slashes(p)[k] by {
                assert(s[i + k] == between_slashes(p)[k]);
            }
        }
        assert(plain_part(s, from, i) =~= Seq::<Part>::empty());
        if rest.len() == 0 {
            assert(parts_from(s, end, end, Place::Between) =~= Seq::<Part>::empty());
        } else {
            assert(s[end] == ' ');
            assert(s.skip(end)[0] == ' ');
            assert(!name_char()(s.skip(end)[0]));
            assert(slashed_end(s, end) is None);
            assert(Place::Between.after(s[end]) == Place::Between);
            assert(s.skip(end + 1) =~= query_of(rest)) by {
                assert(s.skip(i).skip(n + 3) =~= s.skip(end + 1));
                assert(all.skip(n + 3) =~= query_of(rest));
            }
            assert forall|k: int| 0 <= k < rest.len() implies is_plain_pattern(
                #[trigger] rest[k],
            ) by {
                assert(rest[k] == patterns[k + 1]);
            }
            lemma_parts_of_patterns(s, end, end + 1, rest);
        }
        let tail = parts_from(s, end, end, Place::Between);
        assert(tail =~= rest.map_values(|p: Seq<char>| Part::Slashed(between_slashes(p))));
        assert(parts_from(s, from, i, Place::Between) =~= seq![
            Part::Slashed(between_slashes(p)),
        ] + tail);
        assert(want =~= seq![Part::Slashed(between_slashes(p))] + tail);
    }
}

proof fn lemma_slashed_tokens(
    patterns: Seq<Seq<char>>,
    splits: Seq<Option<Seq<Seq<char>>>>,
    n: int,
)
    requires
        0 <= n <= patterns.len(),
    ensures
        tokens_given(
            patterns.map_values(|p: Seq<char>| Part::Slashed(between_slashes(p))),
            splits,
            n,
        ) == patterns.take(n).map_values(|p: Seq<char>| between_slashes(p)),
    decreases n,
{
    let parts = patterns.map_values(|p: Seq<char>| Part::Slashed(between_slashes(p)));
    if n > 0 {
        lemma_slashed_tokens(patterns, splits, n - 1);
        assert(parts[n - 1] == Part::Slashed(between_slashes(patterns[n - 1])));
        assert(patterns.take(n).map_values(|p: Seq<char>| between_slashes(p))
            =~= patterns.take(n - 1).map_values(|p: Seq<char>| between_slashes(p)) + seq![
            between_slashes(patterns[n - 1]),
        ]);
    } else {
        assert(tokens_given(parts, splits, n) =~= patterns.take(n).map_values(
            |p: Seq<char>| between_slashes(p),
        ));
    }
}

/// In a query of patterns between slashes each is one token, whatever blanks, quotes and
/// backslashes are in it.
pub proof fn slashed_patterns_are_tokens(patterns: Seq<Seq<char>>)
    requires
        forall|k: int| 0 <= k < patterns.len() ==> is_plain_pattern(#[trigger] patterns[k]),
    ensures
        query_tokens(query_of(patterns)) == patterns.map_values(
            |p: Seq<char>| between_slashes(p),
        ),
{
    let s = query_of(patterns);
    assert(s.skip(0) =~= s);
    lemma_parts_of_patterns(s, 0, 0, patterns);
    let parts = query_parts(s);
    lemma_slashed_tokens(patterns, shell_splits(parts), patterns.len() as int);
    assert(patterns.take(patterns.len() as int) =~= patterns);
}

proof fn lemma_no_slash(s: Seq<char>, i: int, place: Place)
    requires
        !s.contains('/'),
        0 <= i <= s.len(),
    ensures
        parts_from(s, 0, i, place) == plain_part(s, 0, s.len() as int),
    decreases s.len() - i,
{
    if i < s.len() {
        let k = opening_slash(s, i);
        lemma_span(s.skip(i), name_char());
        if 0 <= k < s.len() {
            assert(s.contains(s[k]));
        }
        assert(slashed_end(s, i) is None);
        lemma_no_slash(s, i + 1, place.after(s[i]));
    }
}

/// A query without slashes is split as a shell splits it, all at once, and where a shell cannot,
/// at the white space; one of nothing but gaps has no tokens.
pub proof fn a_query_without_slashes_is_split_as_a_shell_does(s: Seq<char>)
    requires
        !s.contains('/'),
    ensures
        (exists|i: int| 0 <= i < s.len() && #[trigger] s[i] != ' ' && s[i] != '\t' && s[i] != '\n')
            ==> query_tokens(s) == match shell_split(s) {
            Some(tokens) => tokens,
            None => words(s),
        },
        (forall|i: int|
            0 <= i < s.len() ==> #[trigger] s[i] == ' ' || s[i] == '\t' || s[i] == '\n')
            ==> query_tokens(s) == Seq::<Seq<char>>::empty(),
{
    lemma_no_slash(s, 0, Place::Between);
    let parts = query_parts(s);
    let splits = shell_splits(parts);
    if exists|i: int|
        0 <= i < s.len() && #[trigger] s[i] != ' ' && s[i] != '\t' && s[i] != '\n' {
        let i = choose|i: int|
            0 <= i < s.len() && #[trigger] s[i] != ' ' && s[i] != '\t' && s[i] != '\n';
        assert(!is_gap(s[i]));
        assert(s.subrange(0, s.len() as int) =~= s);
        assert(parts == seq![Part::Plain(s)]);
        assert(splits[0] == shell_split(s));
        let none = Seq::<Seq<char>>::empty();
        assert(tokens_given(parts, splits, 0) == none);
        assert(tokens_given(parts, splits, 1) =~= part_tokens(parts[0], split_at(splits, 0)));
    } else {
        assert(parts =~= Seq::<Part>::empty());
        assert(tokens_given(parts, splits, 0) == Seq::<Seq<char>>::empty());
    }
}

} // verus!
