//! What the format of a schema says of the lines that are written in it.

use crate::extractor::{
    byte_len, capped, field_piece, full_pattern, gap_start, is_name_char, is_name_start,
    literal_after, literal_before, name_char, pattern_upto, pinned_piece, pinned_upto,
    placeholder_bytes, slot_at, slot_names, slots, slots_from, start_probe, Schema, Slot,
};
use crate::lists::pair_value;
use crate::pattern::escaped;
use crate::text::lemma_span_is;
use vstd::prelude::*;
use vstd::utf8::is_ascii_chars_encode_utf8;

verus! {

// ---------------------------------------------------------------------------
// Formats by their fields
// ---------------------------------------------------------------------------

/// A field of a format: the text in front of it, its name, and whether it may be absent.
pub struct Blank {
    pub text: Seq<char>,
    pub name: Seq<char>,
    pub optional: bool,
}

impl Blank {
    /// Whether the field can be written: its name is one, and no text in front of it opens
    /// another.
    pub open spec fn is_sound(self) -> bool {
        &&& !self.text.contains('<')
        &&& self.name.len() > 0
        &&& is_name_start(self.name[0])
        &&& forall|i: int| 0 <= i < self.name.len() ==> is_name_char(#[trigger] self.name[i])
    }

    /// How the field closes.
    pub open spec fn closing(self) -> Seq<char> {
        if self.optional {
            seq!['?', '>']
        } else {
            seq!['>']
        }
    }

    /// How the field is written, with the text in front of it.
    pub open spec fn written(self) -> Seq<char> {
        self.text + seq!['<'] + self.name + self.closing()
    }

    /// What the field takes of a line that gives it a value: the text in front of it and the
    /// value; nothing where it is absent.
    pub open spec fn filled(self, value: Option<Seq<char>>) -> Seq<char> {
        match value {
            Some(v) => self.text + v,
            None => Seq::empty(),
        }
    }
}

/// How the fields are written, one behind the other.
pub open spec fn format_of(blanks: Seq<Blank>) -> Seq<char>
    decreases blanks.len(),
{
    if blanks.len() == 0 {
        Seq::empty()
    } else {
        format_of(blanks.drop_last()) + blanks.last().written()
    }
}

pub open spec fn all_sound(blanks: Seq<Blank>) -> bool {
    forall|k: int| 0 <= k < blanks.len() ==> (#[trigger] blanks[k]).is_sound()
}

/// Where field `k` stands.
pub open spec fn place_of(blanks: Seq<Blank>, k: int) -> Slot {
    (
        blanks[k].name,
        format_of(blanks.take(k)).len() as int + blanks[k].text.len(),
        format_of(blanks.take(k + 1)).len() as int,
        blanks[k].optional,
    )
}

proof fn lemma_take_last(blanks: Seq<Blank>, k: int)
    requires
        0 <= k < blanks.len(),
    ensures
        format_of(blanks.take(k + 1)) == format_of(blanks.take(k)) + blanks[k].written(),
{
    assert(blanks.take(k + 1).drop_last() =~= blanks.take(k));
    assert(blanks.take(k + 1).last() == blanks[k]);
}

proof fn lemma_opens_with(blanks: Seq<Blank>, k: int, n: int)
    requires
        0 <= k <= n <= blanks.len(),
    ensures
        format_of(blanks.take(k)).len() <= format_of(blanks.take(n)).len(),
        format_of(blanks.take(n)).take(format_of(blanks.take(k)).len() as int) == format_of(
            blanks.take(k),
        ),
    decreases n - k,
{
    let a = format_of(blanks.take(k));
    if k < n {
        lemma_opens_with(blanks, k, n - 1);
        lemma_take_last(blanks, n - 1);
        let b = format_of(blanks.take(n - 1));
        let c = format_of(blanks.take(n));
        assert(c.take(a.len() as int) =~= b.take(a.len() as int));
    } else {
        assert(a.take(a.len() as int) =~= a);
    }
}

proof fn lemma_no_slot(s: Seq<char>, i: int, j: int)
    requires
        0 <= i <= j <= s.len(),
        forall|m: int| i <= m < j ==> #[trigger] s[m] != '<',
    ensures
        slots_from(s, i) == slots_from(s, j),
    decreases j - i,
{
    if i < j {
        assert(s[i] != '<');
        assert(slot_at(s, i) is None);
        lemma_no_slot(s, i + 1, j);
    }
}

proof fn lemma_stands_at(blanks: Seq<Blank>, tail: Seq<char>, k: int)
    requires
        all_sound(blanks),
        0 <= k < blanks.len(),
    ensures
        ({
            let s = format_of(blanks) + tail;
            let i = format_of(blanks.take(k)).len() as int;
            &&& i + blanks[k].written().len() == format_of(blanks.take(k + 1)).len() <= s.len()
            &&& s.subrange(i, i + blanks[k].written().len()) == blanks[k].written()
        }),
{
    let n = blanks.len() as int;
    let s = format_of(blanks) + tail;
    let a = format_of(blanks.take(k));
    let b = format_of(blanks.take(k + 1));
    lemma_take_last(blanks, k);
    lemma_opens_with(blanks, k + 1, n);
    assert(blanks.take(n) =~= blanks);
    let w = blanks[k].written();
    assert forall|m: int| 0 <= m < w.len() implies s[a.len() + m] == #[trigger] w[m] by {
        assert(format_of(blanks).take(b.len() as int)[a.len() + m] == b[a.len() + m]);
    }
    assert(s.subrange(a.len() as int, a.len() as int + w.len()) =~= w);
}

proof fn lemma_slot_stands(s: Seq<char>, i: int, b: Blank)
    requires
        b.is_sound(),
        0 <= i,
        i + b.written().len() <= s.len(),
        s.subrange(i, i + b.written().len()) == b.written(),
    ensures
        slots_from(s, i) == slots_from(s, i + b.text.len()),
        slot_at(s, i + b.text.len()) == Some(
            (b.name, i + b.text.len(), i + b.written().len(), b.optional),
        ),
        s.subrange(i, i + b.text.len()) == b.text,
{
    let w = b.written();
    let at = i + b.text.len();
    let n = b.name.len() as int;
    assert forall|m: int| 0 <= m < w.len() implies s[i + m] == #[trigger] w[m] by {
        assert(s.subrange(i, i + w.len())[m] == s[i + m]);
    }
    assert forall|m: int| i <= m < at implies #[trigger] s[m] != '<' by {
        assert(s[i + (m - i)] == w[m - i]);
        assert(w[m - i] == b.text[m - i]);
        assert(b.text.contains(b.text[m - i]));
    }
    lemma_no_slot(s, i, at);
    assert(s[i + b.text.len()] == w[b.text.len() as int]);
    assert(s[at] == '<');
    let rest = s.skip(at + 1);
    assert forall|m: int| 0 <= m < n implies #[trigger] rest[m] == b.name[m] by {
        assert(s[i + (b.text.len() + 1 + m)] == w[b.text.len() + 1 + m]);
    }
    assert forall|m: int| 0 <= m < n implies name_char()(#[trigger] rest[m]) by {
        assert(is_name_char(b.name[m]));
    }
    let j = at + 1 + n;
    assert(s[i + (b.text.len() + 1 + n)] == w[b.text.len() + 1 + n]);
    assert(s[j] == b.closing()[0]);
    assert(rest[n] == s[j]);
    assert(!is_name_char('>'));
    assert(!is_name_char('?'));
    lemma_span_is(rest, name_char(), n as nat);
    assert(s.subrange(at + 1, j) =~= b.name) by {
        assert forall|m: int| 0 <= m < n implies s.subrange(at + 1, j)[m] == b.name[m] by {
            assert(rest[m] == s[at + 1 + m]);
        }
    }
    assert(s[at + 1] == rest[0]);
    if b.optional {
        assert(s[i + (b.text.len() + 2 + n)] == w[b.text.len() + 2 + n]);
        assert(s[j + 1] == '>');
    }
    assert(s.subrange(i, at) =~= b.text) by {
        assert forall|m: int| 0 <= m < b.text.len() implies s.subrange(i, at)[m] == b.text[m] by {
            assert(s[i + m] == w[m]);
        }
    }
}

proof fn lemma_slots_behind(blanks: Seq<Blank>, tail: Seq<char>, k: int)
    requires
        all_sound(blanks),
        !tail.contains('<'),
        0 <= k <= blanks.len(),
    ensures
        slots_from(format_of(blanks) + tail, format_of(blanks.take(k)).len() as int) == Seq::new(
            (blanks.len() - k) as nat,
            |j: int| place_of(blanks, k + j),
        ),
    decreases blanks.len() - k,
{
    let s = format_of(blanks) + tail;
    let i = format_of(blanks.take(k)).len() as int;
    let want = Seq::new((blanks.len() - k) as nat, |j: int| place_of(blanks, k + j));
    if k == blanks.len() {
        assert(blanks.take(k) =~= blanks);
        assert forall|m: int| i <= m < s.len() implies #[trigger] s[m] != '<' by {
            assert(s[m] == tail[m - i]);
            assert(tail.contains(tail[m - i]));
        }
        lemma_no_slot(s, i, s.len() as int);
        assert(want =~= Seq::empty());
    } else {
        lemma_stands_at(blanks, tail, k);
        lemma_slot_stands(s, i, blanks[k]);
        lemma_slots_behind(blanks, tail, k + 1);
        let more = Seq::new((blanks.len() - k - 1) as nat, |j: int| place_of(blanks, k + 1 + j));
        assert(slot_at(s, i + blanks[k].text.len()) == Some(place_of(blanks, k)));
        assert(slots_from(s, i) =~= seq![place_of(blanks, k)] + more);
        assert(want =~= seq![place_of(blanks, k)] + more);
    }
}

/// The placeholders of a format are its fields, in order, each where it is written.
pub proof fn placeholders_are_the_fields(blanks: Seq<Blank>, tail: Seq<char>)
    requires
        all_sound(blanks),
        !tail.contains('<'),
    ensures
        slots(format_of(blanks) + tail).len() == blanks.len(),
        forall|k: int|
            0 <= k < blanks.len() ==> #[trigger] slots(format_of(blanks) + tail)[k] == place_of(
                blanks,
                k,
            ),
        slot_names(slots(format_of(blanks) + tail)) == blanks.map_values(|b: Blank| b.name),
{
    lemma_slots_behind(blanks, tail, 0);
    assert(format_of(blanks.take(0)).len() == 0);
    assert(slot_names(slots(format_of(blanks) + tail)) =~= blanks.map_values(|b: Blank| b.name));
}

proof fn lemma_gap(blanks: Seq<Blank>, tail: Seq<char>, k: int)
    requires
        all_sound(blanks),
        !tail.contains('<'),
        0 <= k <= blanks.len(),
    ensures
        gap_start(slots(format_of(blanks) + tail), k) == format_of(blanks.take(k)).len(),
        k < blanks.len() ==> literal_before(format_of(blanks) + tail, k) == escaped(blanks[k].text),
        k == blanks.len() ==> literal_after(format_of(blanks) + tail) == escaped(tail),
{
    let s = format_of(blanks) + tail;
    placeholders_are_the_fields(blanks, tail);
    if k == 0 {
        assert(format_of(blanks.take(0)).len() == 0);
    } else {
        assert(slots(s)[k - 1] == place_of(blanks, k - 1));
    }
    if k < blanks.len() {
        lemma_stands_at(blanks, tail, k);
        lemma_slot_stands(s, format_of(blanks.take(k)).len() as int, blanks[k]);
        assert(slots(s)[k] == place_of(blanks, k));
    } else {
        assert(blanks.take(k) =~= blanks);
        assert(s.skip(format_of(blanks).len() as int) =~= tail);
    }
}

// ---------------------------------------------------------------------------
// Patterns by what they take
// ---------------------------------------------------------------------------

/// A piece of a pattern in which a dot is any character.
pub enum Piece {
    /// The text itself.
    Literal(Seq<char>),
    /// `.*?` or, where it takes all it can, `.*`: any text. It may be a group with a name.
    Any(Option<Seq<char>>, bool),
    /// `(?:text.*?)?`: nothing, or the text and any other behind it.
    Maybe(Seq<char>, Option<Seq<char>>, bool),
}

pub open spec fn any_text(name: Option<Seq<char>>, all: bool) -> Seq<char> {
    let free = if all {
        ".*"@
    } else {
        ".*?"@
    };
    match name {
        Some(n) => "(?P<"@ + n + ">"@ + free + ")"@,
        None => free,
    }
}

impl Piece {
    pub open spec fn text(self) -> Seq<char> {
        match self {
            Piece::Literal(t) => escaped(t),
            Piece::Any(name, all) => any_text(name, all),
            Piece::Maybe(t, name, all) => "(?:"@ + escaped(t) + any_text(name, all) + ")?"@,
        }
    }

    pub open spec fn takes(self, s: Seq<char>) -> bool {
        match self {
            Piece::Literal(t) => s == t,
            Piece::Any(_, _) => true,
            Piece::Maybe(t, _, _) => s.len() == 0 || (t.len() <= s.len() && s.take(t.len() as int)
                == t),
        }
    }
}

pub open spec fn pieces_text(pieces: Seq<Piece>) -> Seq<char>
    decreases pieces.len(),
{
    if pieces.len() == 0 {
        Seq::empty()
    } else {
        pieces_text(pieces.drop_last()) + pieces.last().text()
    }
}

/// Whether each piece takes the part of a text that is its own.
pub open spec fn pieces_take(pieces: Seq<Piece>, parts: Seq<Seq<char>>) -> bool {
    &&& pieces.len() == parts.len()
    &&& forall|i: int| 0 <= i < pieces.len() ==> (#[trigger] pieces[i]).takes(parts[i])
}

pub open spec fn joined(parts: Seq<Seq<char>>) -> Seq<char>
    decreases parts.len(),
{
    if parts.len() == 0 {
        Seq::empty()
    } else {
        joined(parts.drop_last()) + parts.last()
    }
}

/// Whether a pattern reads as pieces from the start of a line on, and these take the parts of
/// some first stretch of it.
pub open spec fn opens(pattern: Seq<char>, line: Seq<char>) -> bool {
    exists|pieces: Seq<Piece>, parts: Seq<Seq<char>>|
        pattern == "(?s)^"@ + pieces_text(pieces) && #[trigger] pieces_take(pieces, parts)
            && joined(parts).len() <= line.len() && line.take(joined(parts).len() as int) == joined(
            parts,
        )
}

/// What a format asks of a line up to field `k`: the text in front of each field, and anything
/// as its value; a field that may be absent together with the text in front of it. The last
/// field takes all it can.
pub open spec fn field_pieces(blanks: Seq<Blank>, k: int) -> Seq<Piece>
    decreases k,
{
    if k <= 0 {
        Seq::empty()
    } else {
        let b = blanks[k - 1];
        let last = k == blanks.len();
        if b.optional {
            field_pieces(blanks, k - 1).push(Piece::Maybe(b.text, Some(b.name), last))
        } else {
            field_pieces(blanks, k - 1).push(Piece::Literal(b.text)).push(
                Piece::Any(Some(b.name), last),
            )
        }
    }
}

/// The parts of a line that gives the fields these values.
pub open spec fn field_parts(
    blanks: Seq<Blank>,
    values: Seq<Option<Seq<char>>>,
    k: int,
) -> Seq<Seq<char>>
    decreases k,
{
    if k <= 0 {
        Seq::empty()
    } else {
        let b = blanks[k - 1];
        let value = values[k - 1];
        if b.optional {
            field_parts(blanks, values, k - 1).push(b.filled(value))
        } else {
            field_parts(blanks, values, k - 1).push(b.text).push(value->0)
        }
    }
}

/// A line that gives the fields these values.
pub open spec fn line_of(blanks: Seq<Blank>, values: Seq<Option<Seq<char>>>, k: int) -> Seq<char>
    decreases k,
{
    if k <= 0 {
        Seq::empty()
    } else {
        line_of(blanks, values, k - 1) + blanks[k - 1].filled(values[k - 1])
    }
}

/// Whether the values are ones for these fields: only those that may be absent are.
pub open spec fn fit(blanks: Seq<Blank>, values: Seq<Option<Seq<char>>>) -> bool {
    &&& values.len() == blanks.len()
    &&& forall|k: int|
        0 <= k < blanks.len() ==> (#[trigger] values[k] is Some || blanks[k].optional)
}

/// Whether no field has a pattern of its own.
pub open spec fn are_free(blanks: Seq<Blank>, patterns: Seq<(Seq<char>, Seq<char>)>) -> bool {
    forall|k: int|
        0 <= k < blanks.len() ==> pair_value(patterns, (#[trigger] blanks[k]).name) is None
}

proof fn lemma_push_text(pieces: Seq<Piece>, piece: Piece)
    ensures
        pieces_text(pieces.push(piece)) == pieces_text(pieces) + piece.text(),
{
    assert(pieces.push(piece).drop_last() =~= pieces);
}

proof fn lemma_push_joined(parts: Seq<Seq<char>>, part: Seq<char>)
    ensures
        joined(parts.push(part)) == joined(parts) + part,
{
    assert(parts.push(part).drop_last() =~= parts);
}

proof fn lemma_pattern_upto(
    blanks: Seq<Blank>,
    tail: Seq<char>,
    patterns: Seq<(Seq<char>, Seq<char>)>,
    k: int,
)
    requires
        all_sound(blanks),
        !tail.contains('<'),
        are_free(blanks, patterns),
        0 <= k <= blanks.len(),
    ensures
        pattern_upto(format_of(blanks) + tail, patterns, k) == "(?s)^"@ + pieces_text(
            field_pieces(blanks, k),
        ),
    decreases k,
{
    let s = format_of(blanks) + tail;
    placeholders_are_the_fields(blanks, tail);
    if k > 0 {
        let b = blanks[k - 1];
        let last = k == blanks.len();
        let before = field_pieces(blanks, k - 1);
        lemma_pattern_upto(blanks, tail, patterns, k - 1);
        lemma_gap(blanks, tail, k - 1);
        assert(slots(s)[k - 1] == place_of(blanks, k - 1));
        let group = any_text(Some(b.name), last);
        let head = "(?s)^"@ + pieces_text(before);
        if b.optional {
            let piece = Piece::Maybe(b.text, Some(b.name), last);
            lemma_push_text(before, piece);
            assert(field_piece(s, patterns, k - 1) == piece.text());
            assert(head + piece.text() =~= "(?s)^"@ + (pieces_text(before) + piece.text()));
        } else {
            lemma_push_text(before, Piece::Literal(b.text));
            lemma_push_text(before.push(Piece::Literal(b.text)), Piece::Any(Some(b.name), last));
            assert(field_piece(s, patterns, k - 1) == escaped(b.text) + group);
            assert(head + (escaped(b.text) + group) =~= "(?s)^"@ + (pieces_text(before) + escaped(
                b.text,
            ) + group));
        }
    } else {
        assert("(?s)^"@ + pieces_text(field_pieces(blanks, 0)) =~= "(?s)^"@);
    }
}

proof fn lemma_parts_taken(blanks: Seq<Blank>, values: Seq<Option<Seq<char>>>, k: int)
    requires
        fit(blanks, values),
        0 <= k <= blanks.len(),
    ensures
        pieces_take(field_pieces(blanks, k), field_parts(blanks, values, k)),
        joined(field_parts(blanks, values, k)) == line_of(blanks, values, k),
    decreases k,
{
    if k > 0 {
        lemma_parts_taken(blanks, values, k - 1);
        let b = blanks[k - 1];
        let value = values[k - 1];
        let parts = field_parts(blanks, values, k - 1);
        if b.optional {
            lemma_push_joined(parts, b.filled(value));
            assert(b.filled(value).take(b.text.len() as int) =~= b.text || value is None);
        } else {
            lemma_push_joined(parts, b.text);
            lemma_push_joined(parts.push(b.text), value->0);
            assert(joined(parts) + b.text + value->0 =~= joined(parts) + (b.text + value->0));
        }
    }
}

// ---------------------------------------------------------------------------
// Laws
// ---------------------------------------------------------------------------

/// The pattern of a format reads as the text around its fields and anything in their place, and
/// it matches every line that is written in the format, whatever the values and whatever follows.
pub proof fn a_line_in_the_format_is_matched(
    blanks: Seq<Blank>,
    tail: Seq<char>,
    patterns: Seq<(Seq<char>, Seq<char>)>,
    values: Seq<Option<Seq<char>>>,
    more: Seq<char>,
)
    requires
        all_sound(blanks),
        !tail.contains('<'),
        are_free(blanks, patterns),
        fit(blanks, values),
    ensures
        full_pattern(format_of(blanks) + tail, patterns) == "(?s)^"@ + pieces_text(
            field_pieces(blanks, blanks.len() as int).push(Piece::Literal(tail)),
        ),
        opens(
            full_pattern(format_of(blanks) + tail, patterns),
            line_of(blanks, values, blanks.len() as int) + tail + more,
        ),
{
    let n = blanks.len() as int;
    let pieces = field_pieces(blanks, n).push(Piece::Literal(tail));
    let parts = field_parts(blanks, values, n).push(tail);
    let line = line_of(blanks, values, n) + tail + more;
    placeholders_are_the_fields(blanks, tail);
    lemma_pattern_upto(blanks, tail, patterns, n);
    lemma_gap(blanks, tail, n);
    lemma_push_text(field_pieces(blanks, n), Piece::Literal(tail));
    assert("(?s)^"@ + pieces_text(field_pieces(blanks, n)) + escaped(tail) =~= "(?s)^"@ + (
    pieces_text(field_pieces(blanks, n)) + escaped(tail)));
    lemma_parts_taken(blanks, values, n);
    lemma_push_joined(field_parts(blanks, values, n), tail);
    assert(pieces_take(pieces, parts));
    assert(line.take(joined(parts).len() as int) =~= joined(parts));
}

/// A field with a pattern of its own is matched by that, in the place of anything.
pub proof fn a_field_takes_its_own_pattern(
    blanks: Seq<Blank>,
    tail: Seq<char>,
    patterns: Seq<(Seq<char>, Seq<char>)>,
    k: int,
    own: Seq<char>,
)
    requires
        all_sound(blanks),
        !tail.contains('<'),
        0 <= k < blanks.len(),
        pair_value(patterns, blanks[k].name) == Some(own),
    ensures
        ({
            let s = format_of(blanks) + tail;
            let group = "(?P<"@ + blanks[k].name + ">"@ + own + ")"@;
            pattern_upto(s, patterns, k + 1) == pattern_upto(s, patterns, k) + (
            if blanks[k].optional {
                "(?:"@ + escaped(blanks[k].text) + group + ")?"@
            } else {
                escaped(blanks[k].text) + group
            })
        }),
{
    let s = format_of(blanks) + tail;
    placeholders_are_the_fields(blanks, tail);
    lemma_gap(blanks, tail, k);
    assert(slots(s)[k] == place_of(blanks, k));
}

/// The head of a format is all before its last field, where that is the end of the format, may
/// not be absent and may be anything; without such a field a format has no head.
pub proof fn the_head_is_all_before_the_free_tail(
    blanks: Seq<Blank>,
    tail: Seq<char>,
    schema: Schema,
)
    requires
        all_sound(blanks),
        !tail.contains('<'),
        are_free(blanks, schema.field_patterns),
        schema.format == format_of(blanks) + tail,
    ensures
        schema.head_text() is Some <==> blanks.len() > 0 && !blanks.last().optional && tail.len()
            == 0,
        schema.head_text() is Some ==> schema.head_text()->0 == "(?s)^"@ + pieces_text(
            field_pieces(blanks, blanks.len() - 1).push(Piece::Literal(blanks.last().text)),
        ),
        schema.head_text() is Some ==> schema.built().tail_field == Some(blanks.last().name),
        schema.head_text() is None ==> schema.built().tail_field is None,
        schema.built().field_names == blanks.map_values(|b: Blank| b.name),
{
    let s = schema.format;
    let n = blanks.len() as int;
    placeholders_are_the_fields(blanks, tail);
    if n > 0 {
        assert(slots(s)[n - 1] == place_of(blanks, n - 1));
        assert(blanks.take(n) =~= blanks);
        lemma_pattern_upto(blanks, tail, schema.field_patterns, n - 1);
        lemma_gap(blanks, tail, n - 1);
        let before = field_pieces(blanks, n - 1);
        lemma_push_text(before, Piece::Literal(blanks.last().text));
        assert("(?s)^"@ + pieces_text(before) + escaped(blanks.last().text) =~= "(?s)^"@ + (
        pieces_text(before) + escaped(blanks.last().text)));
    }
}

/// The probe for where an entry starts is the text in front of the first field, something as its
/// value, and the text that parts it from the second; there is none where either field may be
/// absent or nothing parts them.
pub proof fn the_probe_is_the_first_field(blanks: Seq<Blank>, tail: Seq<char>)
    requires
        all_sound(blanks),
        !tail.contains('<'),
    ensures
        start_probe(format_of(blanks) + tail) == if blanks.len() >= 2 && !blanks[0].optional
            && !blanks[1].optional && blanks[1].text.len() > 0 {
            Some("^"@ + escaped(blanks[0].text) + "(.+?)"@ + escaped(blanks[1].text))
        } else {
            None
        },
{
    let s = format_of(blanks) + tail;
    placeholders_are_the_fields(blanks, tail);
    if blanks.len() >= 2 {
        assert(slots(s)[0] == place_of(blanks, 0));
        assert(slots(s)[1] == place_of(blanks, 1));
        lemma_stands_at(blanks, tail, 0);
        lemma_slot_stands(s, 0, blanks[0]);
        lemma_stands_at(blanks, tail, 1);
        lemma_slot_stands(s, format_of(blanks.take(1)).len() as int, blanks[1]);
        assert(s.take(blanks[0].text.len() as int) =~= s.subrange(
            0,
            blanks[0].text.len() as int,
        ));
    }
}

/// What a pattern with some fields pinned asks of a line up to field `k`.
pub open spec fn pinned_pieces(
    blanks: Seq<Blank>,
    picks: Seq<(Seq<char>, Seq<char>)>,
    k: int,
) -> Seq<Piece>
    decreases k,
{
    if k <= 0 {
        Seq::empty()
    } else {
        let b = blanks[k - 1];
        let last = k == blanks.len();
        let before = pinned_pieces(blanks, picks, k - 1);
        match pair_value(picks, b.name) {
            Some(value) => if b.optional && value.len() == 0 {
                before
            } else {
                before.push(Piece::Literal(b.text)).push(Piece::Literal(value))
            },
            None => if b.optional {
                before.push(Piece::Maybe(b.text, None, last))
            } else {
                before.push(Piece::Literal(b.text)).push(Piece::Any(None, last))
            },
        }
    }
}

pub open spec fn pinned_parts(
    blanks: Seq<Blank>,
    picks: Seq<(Seq<char>, Seq<char>)>,
    values: Seq<Option<Seq<char>>>,
    k: int,
) -> Seq<Seq<char>>
    decreases k,
{
    if k <= 0 {
        Seq::empty()
    } else {
        let b = blanks[k - 1];
        let value = values[k - 1];
        let before = pinned_parts(blanks, picks, values, k - 1);
        match pair_value(picks, b.name) {
            Some(_) => if value is None {
                before
            } else {
                before.push(b.text).push(value->0)
            },
            None => if b.optional {
                before.push(b.filled(value))
            } else {
                before.push(b.text).push(value->0)
            },
        }
    }
}

/// Whether a line with these values has the picked ones; a field that may be absent is, where it
/// is picked to be empty.
pub open spec fn has_picks(
    blanks: Seq<Blank>,
    picks: Seq<(Seq<char>, Seq<char>)>,
    values: Seq<Option<Seq<char>>>,
) -> bool {
    forall|k: int|
        0 <= k < blanks.len() ==> match pair_value(picks, (#[trigger] blanks[k]).name) {
            Some(value) => if blanks[k].optional && value.len() == 0 {
                values[k] is None
            } else {
                values[k] == Some(value)
            },
            None => true,
        }
}

proof fn lemma_pinned_upto(
    blanks: Seq<Blank>,
    tail: Seq<char>,
    patterns: Seq<(Seq<char>, Seq<char>)>,
    picks: Seq<(Seq<char>, Seq<char>)>,
    k: int,
)
    requires
        all_sound(blanks),
        !tail.contains('<'),
        are_free(blanks, patterns),
        0 <= k <= blanks.len(),
    ensures
        pinned_upto(format_of(blanks) + tail, patterns, picks, k) == "(?s)^"@ + pieces_text(
            pinned_pieces(blanks, picks, k),
        ),
    decreases k,
{
    let s = format_of(blanks) + tail;
    placeholders_are_the_fields(blanks, tail);
    if k > 0 {
        let b = blanks[k - 1];
        let last = k == blanks.len();
        let before = pinned_pieces(blanks, picks, k - 1);
        lemma_pinned_upto(blanks, tail, patterns, picks, k - 1);
        lemma_gap(blanks, tail, k - 1);
        assert(slots(s)[k - 1] == place_of(blanks, k - 1));
        let head = "(?s)^"@ + pieces_text(before);
        let added = pinned_piece(s, patterns, picks, k - 1);
        let first = before.push(Piece::Literal(b.text));
        lemma_push_text(before, Piece::Literal(b.text));
        assert(head + added =~= "(?s)^"@ + (pieces_text(before) + added));
        match pair_value(picks, b.name) {
            Some(value) => {
                lemma_push_text(first, Piece::Literal(value));
                if b.optional && value.len() == 0 {
                    assert(pieces_text(before) + added =~= pieces_text(before));
                } else {
                    assert(pieces_text(before) + added =~= pieces_text(before) + escaped(b.text)
                        + escaped(value));
                }
            },
            None => {
                if b.optional {
                    lemma_push_text(before, Piece::Maybe(b.text, None, last));
                } else {
                    lemma_push_text(first, Piece::Any(None, last));
                    assert(pieces_text(before) + added =~= pieces_text(before) + escaped(b.text)
                        + any_text(None, last));
                }
            },
        }
    } else {
        assert("(?s)^"@ + pieces_text(pinned_pieces(blanks, picks, 0)) =~= "(?s)^"@);
    }
}

proof fn lemma_pinned_taken(
    blanks: Seq<Blank>,
    picks: Seq<(Seq<char>, Seq<char>)>,
    values: Seq<Option<Seq<char>>>,
    k: int,
)
    requires
        fit(blanks, values),
        has_picks(blanks, picks, values),
        0 <= k <= blanks.len(),
    ensures
        pieces_take(
            pinned_pieces(blanks, picks, k),
            pinned_parts(blanks, picks, values, k),
        ),
        joined(pinned_parts(blanks, picks, values, k)) == line_of(blanks, values, k),
    decreases k,
{
    if k > 0 {
        lemma_pinned_taken(blanks, picks, values, k - 1);
        let b = blanks[k - 1];
        let value = values[k - 1];
        let parts = pinned_parts(blanks, picks, values, k - 1);
        lemma_push_joined(parts, b.filled(value));
        lemma_push_joined(parts, b.text);
        lemma_push_joined(parts.push(b.text), value->0);
        assert(joined(parts) + b.text + value->0 =~= joined(parts) + (b.text + value->0));
        assert(joined(parts) + Seq::<char>::empty() =~= joined(parts));
        assert(value is Some ==> b.filled(value).take(b.text.len() as int) =~= b.text);
    }
}

/// The pattern that pins some fields asks for exactly the picked values in their places and for
/// anything in the others, and it matches every line of the format that has those values.
pub proof fn a_pinned_pattern_matches_the_picked_lines(
    blanks: Seq<Blank>,
    tail: Seq<char>,
    schema: Schema,
    picks: Seq<(Seq<char>, Seq<char>)>,
    values: Seq<Option<Seq<char>>>,
    more: Seq<char>,
)
    requires
        all_sound(blanks),
        blanks.len() > 0,
        !tail.contains('<'),
        are_free(blanks, schema.field_patterns),
        schema.format == format_of(blanks) + tail,
        fit(blanks, values),
        has_picks(blanks, picks, values),
    ensures
        schema.pinned_pattern(picks) == Some(
            "(?s)^"@ + pieces_text(
                pinned_pieces(blanks, picks, blanks.len() as int).push(Piece::Literal(tail)),
            ),
        ),
        opens(
            schema.pinned_pattern(picks)->0,
            line_of(blanks, values, blanks.len() as int) + tail + more,
        ),
{
    let n = blanks.len() as int;
    let before = pinned_pieces(blanks, picks, n);
    let pieces = before.push(Piece::Literal(tail));
    let parts = pinned_parts(blanks, picks, values, n).push(tail);
    let line = line_of(blanks, values, n) + tail + more;
    placeholders_are_the_fields(blanks, tail);
    lemma_pinned_upto(blanks, tail, schema.field_patterns, picks, n);
    lemma_gap(blanks, tail, n);
    lemma_push_text(before, Piece::Literal(tail));
    assert("(?s)^"@ + pieces_text(before) + escaped(tail) =~= "(?s)^"@ + (pieces_text(before)
        + escaped(tail)));
    lemma_pinned_taken(blanks, picks, values, n);
    lemma_push_joined(pinned_parts(blanks, picks, values, n), tail);
    assert(pieces_take(pieces, parts));
    assert(line.take(joined(parts).len() as int) =~= joined(parts));
}

/// The bytes of the text around the fields; the mark of one that may be absent counts too.
pub open spec fn text_bytes(blanks: Seq<Blank>) -> nat
    decreases blanks.len(),
{
    if blanks.len() == 0 {
        0
    } else {
        text_bytes(blanks.drop_last()) + byte_len(blanks.last().text) + if blanks.last().optional {
            1nat
        } else {
            0nat
        }
    }
}

proof fn lemma_bytes_add(a: Seq<char>, b: Seq<char>)
    ensures
        byte_len(a + b) == byte_len(a) + byte_len(b),
    decreases a.len(),
{
    if a.len() == 0 {
        assert(a + b =~= b);
    } else {
        let rest = a.drop_first();
        assert((a + b).drop_first() =~= rest + b);
        assert((a + b)[0] == a[0]);
        lemma_bytes_add(rest, b);
    }
}

proof fn lemma_mark_bytes()
    ensures
        byte_len(seq!['<']) == 1,
        byte_len(seq!['>']) == 1,
        byte_len(seq!['?', '>']) == 2,
{
    is_ascii_chars_encode_utf8(seq!['<']);
    is_ascii_chars_encode_utf8(seq!['>']);
    is_ascii_chars_encode_utf8(seq!['?', '>']);
}

proof fn lemma_format_bytes(blanks: Seq<Blank>)
    ensures
        byte_len(format_of(blanks)) == text_bytes(blanks) + placeholder_bytes(
            blanks.map_values(|b: Blank| b.name),
        ),
    decreases blanks.len(),
{
    let names = blanks.map_values(|b: Blank| b.name);
    if blanks.len() > 0 {
        let before = blanks.drop_last();
        let last = blanks.last();
        lemma_format_bytes(before);
        lemma_mark_bytes();
        lemma_bytes_add(last.text, seq!['<']);
        lemma_bytes_add(last.text + seq!['<'], last.name);
        lemma_bytes_add(last.text + seq!['<'] + last.name, last.closing());
        lemma_bytes_add(format_of(before), last.written());
        assert(names.drop_last() =~= before.map_values(|b: Blank| b.name));
        assert(names.last() == last.name);
    }
}

/// What a schema asserts of a line is counted as one for each field and one for each byte of the
/// text around the fields, whatever the fields are called.
pub proof fn a_schema_asserts_its_fields_and_its_text(
    blanks: Seq<Blank>,
    tail: Seq<char>,
    schema: Schema,
)
    requires
        all_sound(blanks),
        !tail.contains('<'),
        schema.format == format_of(blanks) + tail,
    ensures
        schema.built().specificity() == capped(
            (blanks.len() + text_bytes(blanks) + byte_len(tail)) as int,
        ),
{
    placeholders_are_the_fields(blanks, tail);
    lemma_format_bytes(blanks);
    lemma_bytes_add(format_of(blanks), tail);
}

} // verus!
