//! What a regular expression matches, for the part of the syntax that templates are written in.

use crate::pattern::{escaped, is_meta};
use crate::text::{decimal, is_digit, is_space};
use vstd::prelude::*;

verus! {

// ---------------------------------------------------------------------------
// One character
// ---------------------------------------------------------------------------

/// What stands for one character.
pub enum Unit {
    /// `\d`: a digit. Of those that it stands for, the ten of ASCII.
    Digit,
    /// `\s`: white space.
    Space,
    /// `\S`: anything but white space.
    Ink,
    /// `.`: anything but a line feed.
    Dot,
    /// `[a-z_]`: a character within one of the ranges.
    Among(Seq<(char, char)>),
    /// `[^x]`: any other character.
    Except(char),
}

impl Unit {
    /// Whether the unit stands for `c`.
    pub open spec fn takes(self, c: char) -> bool {
        match self {
            Unit::Digit => is_digit(c),
            Unit::Space => is_space(c),
            Unit::Ink => !is_space(c),
            Unit::Dot => c != '\n',
            Unit::Among(ranges) => within(ranges, c),
            Unit::Except(x) => c != x,
        }
    }

    /// How the unit is written.
    pub open spec fn text(self) -> Seq<char> {
        match self {
            Unit::Digit => seq!['\\', 'd'],
            Unit::Space => seq!['\\', 's'],
            Unit::Ink => seq!['\\', 'S'],
            Unit::Dot => seq!['.'],
            Unit::Among(ranges) => seq!['['] + ranges_text(ranges) + seq![']'],
            Unit::Except(x) => seq!['[', '^', x, ']'],
        }
    }

    /// Whether the unit can be written: what is special between brackets does not stand there.
    pub open spec fn is_readable(self) -> bool {
        match self {
            Unit::Among(ranges) => ranges.len() > 0 && forall|i: int|
                0 <= i < ranges.len() ==> stands_in_brackets((#[trigger] ranges[i]).0)
                    && stands_in_brackets(ranges[i].1),
            Unit::Except(x) => stands_in_brackets(x),
            _ => true,
        }
    }
}

/// Whether `c` is within one of the ranges.
pub open spec fn within(ranges: Seq<(char, char)>, c: char) -> bool {
    exists|i: int| 0 <= i < ranges.len() && (#[trigger] ranges[i]).0 <= c <= ranges[i].1
}

/// Whether a character means itself between brackets.
pub open spec fn stands_in_brackets(c: char) -> bool {
    c == '.' || (!is_meta(c) && c != ':')
}

/// A range, or the one character of it.
pub open spec fn range_text(range: (char, char)) -> Seq<char> {
    if range.0 == range.1 {
        seq![range.0]
    } else {
        seq![range.0, '-', range.1]
    }
}

pub open spec fn ranges_text(ranges: Seq<(char, char)>) -> Seq<char>
    decreases ranges.len(),
{
    if ranges.len() == 0 {
        Seq::empty()
    } else {
        range_text(ranges[0]) + ranges_text(ranges.skip(1))
    }
}

// ---------------------------------------------------------------------------
// Repetition
// ---------------------------------------------------------------------------

/// How often something stands.
pub enum Count {
    /// Once.
    One,
    /// `+`
    OneOrMore,
    /// `*`
    AnyNumber,
    /// `{n}`
    Times(nat),
    /// `{n,m}`
    Between(nat, nat),
}

impl Count {
    pub open spec fn allows(self, n: nat) -> bool {
        match self {
            Count::One => n == 1,
            Count::OneOrMore => n >= 1,
            Count::AnyNumber => true,
            Count::Times(k) => n == k,
            Count::Between(least, most) => least <= n <= most,
        }
    }

    pub open spec fn text(self) -> Seq<char> {
        match self {
            Count::One => Seq::empty(),
            Count::OneOrMore => seq!['+'],
            Count::AnyNumber => seq!['*'],
            Count::Times(k) => seq!['{'] + decimal(k) + seq!['}'],
            Count::Between(least, most) => seq!['{'] + decimal(least) + seq![','] + decimal(most)
                + seq!['}'],
        }
    }
}

/// A piece of a regular expression.
pub enum Bit {
    /// A text, escaped where it needs to be: it stands for itself.
    Text(Seq<char>),
    /// A text as it is: it stands for itself, with nothing special in it.
    Raw(Seq<char>),
    /// A unit, so many times.
    Many(Unit, Count),
}

impl Bit {
    /// Whether the bit stands for all of `s`.
    pub open spec fn fits(self, s: Seq<char>) -> bool {
        match self {
            Bit::Text(t) => s == t,
            Bit::Raw(t) => s == t,
            Bit::Many(unit, count) => count.allows(s.len()) && forall|i: int|
                0 <= i < s.len() ==> unit.takes(#[trigger] s[i]),
        }
    }

    pub open spec fn text(self) -> Seq<char> {
        match self {
            Bit::Text(t) => escaped(t),
            Bit::Raw(t) => t,
            Bit::Many(unit, count) => unit.text() + count.text(),
        }
    }

    pub open spec fn is_readable(self) -> bool {
        match self {
            Bit::Text(t) => true,
            Bit::Raw(t) => forall|i: int|
                0 <= i < t.len() ==> !is_meta(#[trigger] t[i]) || t[i] == '-',
            Bit::Many(unit, count) => unit.is_readable(),
        }
    }
}

// ---------------------------------------------------------------------------
// One after the other
// ---------------------------------------------------------------------------

/// Whether the bits, one after the other, stand for all of `s`.
pub open spec fn bits_accept(bits: Seq<Bit>, s: Seq<char>) -> bool
    decreases bits.len(),
{
    if bits.len() == 0 {
        s.len() == 0
    } else {
        exists|n: int|
            0 <= n <= s.len() && bits[0].fits(s.take(n)) && bits_accept(
                bits.skip(1),
                #[trigger] s.skip(n),
            )
    }
}

pub open spec fn bits_text(bits: Seq<Bit>) -> Seq<char>
    decreases bits.len(),
{
    if bits.len() == 0 {
        Seq::empty()
    } else {
        bits[0].text() + bits_text(bits.skip(1))
    }
}

pub open spec fn bits_readable(bits: Seq<Bit>) -> bool {
    forall|i: int| 0 <= i < bits.len() ==> (#[trigger] bits[i]).is_readable()
}

/// Whether `s` is `k` texts one after the other, each of one of the alternatives.
pub open spec fn repeats(alternatives: Seq<Seq<Bit>>, k: nat, s: Seq<char>) -> bool
    decreases k,
{
    if k == 0 {
        s.len() == 0
    } else {
        exists|n: int|
            0 <= n <= s.len() && any_accepts(alternatives, s.take(n)) && repeats(
                alternatives,
                (k - 1) as nat,
                #[trigger] s.skip(n),
            )
    }
}

pub open spec fn any_accepts(alternatives: Seq<Seq<Bit>>, s: Seq<char>) -> bool {
    exists|i: int| 0 <= i < alternatives.len() && bits_accept(#[trigger] alternatives[i], s)
}

/// Whether `s` is so many texts of the alternatives as the count allows.
pub open spec fn repeats_by(alternatives: Seq<Seq<Bit>>, count: Count, s: Seq<char>) -> bool {
    exists|k: nat| count.allows(k) && #[trigger] repeats(alternatives, k, s)
}

/// The alternatives with a bar between them.
pub open spec fn alternatives_text(alternatives: Seq<Seq<Bit>>) -> Seq<char>
    decreases alternatives.len(),
{
    if alternatives.len() == 0 {
        Seq::empty()
    } else if alternatives.len() == 1 {
        bits_text(alternatives[0])
    } else {
        bits_text(alternatives[0]) + seq!['|'] + alternatives_text(alternatives.skip(1))
    }
}

/// A part of a regular expression.
pub enum Part {
    /// Bits one after the other.
    Run(Seq<Bit>),
    /// `(?:a|b)`, so many times.
    Group(Seq<Seq<Bit>>, Count),
    /// `(?s:.*)`: any text, line feeds and all.
    AnyText,
}

impl Part {
    /// Whether the part stands for all of `s`.
    pub open spec fn accepts(self, s: Seq<char>) -> bool {
        match self {
            Part::Run(bits) => bits_accept(bits, s),
            Part::Group(alternatives, count) => repeats_by(alternatives, count, s),
            Part::AnyText => true,
        }
    }

    pub open spec fn text(self) -> Seq<char> {
        match self {
            Part::Run(bits) => bits_text(bits),
            Part::Group(alternatives, count) => seq!['(', '?', ':'] + alternatives_text(
                alternatives,
            ) + seq![')'] + count.text(),
            Part::AnyText => seq!['(', '?', 's', ':', '.', '*', ')'],
        }
    }

    pub open spec fn is_readable(self) -> bool {
        match self {
            Part::Run(bits) => bits_readable(bits),
            Part::Group(alternatives, count) => forall|i: int|
                0 <= i < alternatives.len() ==> bits_readable(#[trigger] alternatives[i]),
            Part::AnyText => true,
        }
    }
}

/// Whether the parts, one after the other, stand for all of `s`.
pub open spec fn parts_accept(parts: Seq<Part>, s: Seq<char>) -> bool
    decreases parts.len(),
{
    if parts.len() == 0 {
        s.len() == 0
    } else {
        exists|n: int|
            0 <= n <= s.len() && parts[0].accepts(s.take(n)) && parts_accept(
                parts.skip(1),
                #[trigger] s.skip(n),
            )
    }
}

/// How the parts are written.
pub open spec fn parts_text(parts: Seq<Part>) -> Seq<char>
    decreases parts.len(),
{
    if parts.len() == 0 {
        Seq::empty()
    } else {
        parts[0].text() + parts_text(parts.skip(1))
    }
}

/// Whether `pattern` is how `parts` are written.
pub open spec fn reads_as(pattern: Seq<char>, parts: Seq<Part>) -> bool {
    &&& pattern == parts_text(parts)
    &&& forall|i: int| 0 <= i < parts.len() ==> (#[trigger] parts[i]).is_readable()
}

/// Whether `pattern` stands for all of `s`.
pub open spec fn matches_whole(pattern: Seq<char>, s: Seq<char>) -> bool {
    exists|parts: Seq<Part>| #[trigger] reads_as(pattern, parts) && parts_accept(parts, s)
}

/// Whether `pattern` stands for some text within `s`.
pub open spec fn finds(pattern: Seq<char>, s: Seq<char>) -> bool {
    exists|a: int, b: int|
        0 <= a <= b <= s.len() && matches_whole(pattern, #[trigger] s.subrange(a, b))
}

// ---------------------------------------------------------------------------
// Putting regular expressions together
// ---------------------------------------------------------------------------

pub proof fn lemma_bits_two(a: Seq<Bit>, b: Seq<Bit>, s: Seq<char>, t: Seq<char>)
    requires
        bits_accept(a, s),
        bits_accept(b, t),
    ensures
        bits_accept(a + b, s + t),
    decreases a.len(),
{
    if a.len() == 0 {
        assert(a + b =~= b);
        assert(s + t =~= t);
    } else {
        let n = choose|n: int|
            0 <= n <= s.len() && a[0].fits(s.take(n)) && bits_accept(
                a.skip(1),
                #[trigger] s.skip(n),
            );
        lemma_bits_two(a.skip(1), b, s.skip(n), t);
        assert((a + b).skip(1) =~= a.skip(1) + b);
        assert((s + t).skip(n) =~= s.skip(n) + t);
        assert((s + t).take(n) =~= s.take(n));
    }
}

pub proof fn lemma_bits_text_two(a: Seq<Bit>, b: Seq<Bit>)
    ensures
        bits_text(a + b) == bits_text(a) + bits_text(b),
    decreases a.len(),
{
    if a.len() == 0 {
        assert(a + b =~= b);
        assert(bits_text(a) + bits_text(b) =~= bits_text(b));
    } else {
        lemma_bits_text_two(a.skip(1), b);
        assert((a + b).skip(1) =~= a.skip(1) + b);
        assert(bits_text(a + b) =~= bits_text(a) + bits_text(b));
    }
}

pub proof fn lemma_one_bit(bit: Bit, s: Seq<char>)
    ensures
        bit.fits(s) ==> bits_accept(seq![bit], s),
        bits_accept(seq![bit], s) ==> bit.fits(s),
        bits_text(seq![bit]) == bit.text(),
{
    let bits = seq![bit];
    assert(bits.skip(1).len() == 0);
    assert(bits_text(bits.skip(1)).len() == 0);
    assert(bits_text(bits) =~= bit.text());
    let n = s.len() as int;
    assert(s.take(n) =~= s);
    assert(s.skip(n).len() == 0);
    if bit.fits(s) {
        assert(bits_accept(bits.skip(1), s.skip(n)));
    }
    if bits_accept(bits, s) {
        let m = choose|m: int|
            0 <= m <= s.len() && bits[0].fits(s.take(m)) && bits_accept(
                bits.skip(1),
                #[trigger] s.skip(m),
            );
        assert(s.skip(m).len() == 0);
        assert(s.take(m) =~= s);
    }
}

pub proof fn lemma_parts_two(a: Seq<Part>, b: Seq<Part>, s: Seq<char>, t: Seq<char>)
    requires
        parts_accept(a, s),
        parts_accept(b, t),
    ensures
        parts_accept(a + b, s + t),
    decreases a.len(),
{
    if a.len() == 0 {
        assert(a + b =~= b);
        assert(s + t =~= t);
    } else {
        let n = choose|n: int|
            0 <= n <= s.len() && a[0].accepts(s.take(n)) && parts_accept(
                a.skip(1),
                #[trigger] s.skip(n),
            );
        lemma_parts_two(a.skip(1), b, s.skip(n), t);
        assert((a + b).skip(1) =~= a.skip(1) + b);
        assert((s + t).skip(n) =~= s.skip(n) + t);
        assert((s + t).take(n) =~= s.take(n));
    }
}

pub proof fn lemma_parts_text_two(a: Seq<Part>, b: Seq<Part>)
    ensures
        parts_text(a + b) == parts_text(a) + parts_text(b),
    decreases a.len(),
{
    if a.len() == 0 {
        assert(a + b =~= b);
        assert(parts_text(a) + parts_text(b) =~= parts_text(b));
    } else {
        lemma_parts_text_two(a.skip(1), b);
        assert((a + b).skip(1) =~= a.skip(1) + b);
        assert(parts_text(a + b) =~= parts_text(a) + parts_text(b));
    }
}

/// Two expressions one after the other stand for their texts one after the other.
pub proof fn lemma_reads_two(
    p: Seq<char>,
    a: Seq<Part>,
    q: Seq<char>,
    b: Seq<Part>,
)
    requires
        reads_as(p, a),
        reads_as(q, b),
    ensures
        reads_as(p + q, a + b),
{
    lemma_parts_text_two(a, b);
    assert forall|i: int| 0 <= i < (a + b).len() implies (#[trigger] (a + b)[i]).is_readable() by {
        if i < a.len() {
            assert((a + b)[i] == a[i]);
        } else {
            assert((a + b)[i] == b[i - a.len()]);
        }
    }
}

pub proof fn lemma_one_part(part: Part, s: Seq<char>)
    ensures
        parts_text(seq![part]) == part.text(),
        part.is_readable() ==> reads_as(part.text(), seq![part]),
        part.accepts(s) <==> parts_accept(seq![part], s),
{
    let parts = seq![part];
    assert(parts.skip(1).len() == 0);
    assert(parts_text(parts.skip(1)).len() == 0);
    assert(parts_text(parts) =~= part.text());
    let n = s.len() as int;
    assert(s.take(n) =~= s);
    assert(s.skip(n).len() == 0);
    if part.accepts(s) {
        assert(parts_accept(parts.skip(1), s.skip(n)));
    }
    if parts_accept(parts, s) {
        let m = choose|m: int|
            0 <= m <= s.len() && parts[0].accepts(s.take(m)) && parts_accept(
                parts.skip(1),
                #[trigger] s.skip(m),
            );
        assert(s.skip(m).len() == 0);
        assert(s.take(m) =~= s);
    }
}

/// A text escaped stands for that text.
pub proof fn lemma_literal(s: Seq<char>)
    ensures
        bits_text(seq![Bit::Text(s)]) == escaped(s),
        bits_accept(seq![Bit::Text(s)], s),
        bits_readable(seq![Bit::Text(s)]),
{
    lemma_one_bit(Bit::Text(s), s);
}

/// One more time.
pub proof fn lemma_repeats_again(
    alternatives: Seq<Seq<Bit>>,
    k: nat,
    first: Seq<char>,
    rest: Seq<char>,
)
    requires
        any_accepts(alternatives, first),
        repeats(alternatives, k, rest),
    ensures
        repeats(alternatives, k + 1, first + rest),
{
    let s = first + rest;
    let n = first.len() as int;
    assert(s.take(n) =~= first);
    assert(s.skip(n) =~= rest);
}

/// Bits as an expression.
pub proof fn lemma_run(bits: Seq<Bit>, s: Seq<char>)
    requires
        bits_readable(bits),
    ensures
        reads_as(bits_text(bits), seq![Part::Run(bits)]),
        bits_accept(bits, s) <==> parts_accept(seq![Part::Run(bits)], s),
{
    lemma_one_part(Part::Run(bits), s);
}

} // verus!
