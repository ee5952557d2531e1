//! Shapes of the values that vary from one log line to the next.

use crate::pattern::escaped;
use crate::regexes::{
    alternatives_text, any_accepts, bits_accept, bits_text, lemma_bits_text_two, lemma_bits_two,
    lemma_one_bit, lemma_one_part, lemma_parts_two, lemma_repeats_again, parts_accept, parts_text,
    ranges_text, matches_whole, reads_as, repeats, repeats_by, stands_in_brackets, within, Bit, Count, Part, Unit,
};
use crate::text::{
    all_digits, char_is_digit, char_is_hex_digit, char_is_letter, chars_of, decimal, digits_value,
    is_digit, is_hex_digit, is_letter, lemma_span, lemma_span_is, not_char, parse_u64, run_from,
    span, split, strs, text_split,
};
use vstd::prelude::*;

verus! {

/// Value shapes that vary between two runs of the same log statement without changing what
/// the statement says, most specific first.
#[derive(Clone, Copy, PartialEq, Eq, Structural)]
pub enum ValueClass {
    Uuid,
    Ipv4,
    PrefixedHex,
    Integer,
    Decimal,
    BareHex,
    SingleQuoted,
    DoubleQuoted,
}

pub open spec fn all_hex(s: Seq<char>) -> bool {
    forall|i: int| 0 <= i < s.len() ==> is_hex_digit(#[trigger] s[i])
}

pub open spec fn is_integer(s: Seq<char>) -> bool {
    s.len() > 0 && all_digits(s)
}

/// The predicate "is neither a dot nor a comma".
pub open spec fn not_point() -> spec_fn(char) -> bool {
    |c: char| c != '.' && c != ','
}

pub open spec fn is_decimal(s: Seq<char>) -> bool {
    let n = span(s, not_point()) as int;
    n < s.len() && is_integer(s.take(n)) && is_integer(s.skip(n + 1))
}

pub open spec fn is_prefixed_hex(s: Seq<char>) -> bool {
    s.len() > 2 && s[0] == '0' && (s[1] == 'x' || s[1] == 'X') && all_hex(s.skip(2))
}

pub open spec fn has_digit(s: Seq<char>) -> bool {
    exists|i: int| 0 <= i < s.len() && is_digit(#[trigger] s[i])
}

pub open spec fn has_letter(s: Seq<char>) -> bool {
    exists|i: int| 0 <= i < s.len() && is_letter(#[trigger] s[i])
}

pub open spec fn is_bare_hex(s: Seq<char>) -> bool {
    s.len() >= 6 && all_hex(s) && has_digit(s) && has_letter(s)
}

pub open spec fn is_hex_group(s: Seq<char>, width: int) -> bool {
    s.len() == width && all_hex(s)
}

pub open spec fn is_uuid(s: Seq<char>) -> bool {
    let g = split(s, '-');
    g.len() == 5 && is_hex_group(g[0], 8) && is_hex_group(g[1], 4) && is_hex_group(g[2], 4)
        && is_hex_group(g[3], 4) && is_hex_group(g[4], 12)
}

pub open spec fn is_octet(s: Seq<char>) -> bool {
    is_integer(s) && s.len() <= 3 && digits_value(s) <= 255
}

pub open spec fn is_ipv4(s: Seq<char>) -> bool {
    let o = split(s, '.');
    o.len() == 4 && forall|i: int| 0 <= i < 4 ==> is_octet(#[trigger] o[i])
}

/// Whether `s` stands in quotes and holds no such quote within.
pub open spec fn is_quoted(s: Seq<char>, quote: char) -> bool {
    s.len() >= 2 && s[0] == quote && s.last() == quote && forall|i: int|
        1 <= i < s.len() - 1 ==> #[trigger] s[i] != quote
}

impl ValueClass {
    /// Whether a value has this shape.
    pub open spec fn covers(self, s: Seq<char>) -> bool {
        match self {
            ValueClass::Uuid => is_uuid(s),
            ValueClass::Ipv4 => is_ipv4(s),
            ValueClass::PrefixedHex => is_prefixed_hex(s),
            ValueClass::Integer => is_integer(s),
            ValueClass::Decimal => is_decimal(s),
            ValueClass::BareHex => is_bare_hex(s),
            ValueClass::SingleQuoted => is_quoted(s, '\''),
            ValueClass::DoubleQuoted => is_quoted(s, '"'),
        }
    }

    /// The regex that stands for this shape.
    pub open spec fn shape(self) -> Seq<char> {
        match self {
            ValueClass::Uuid => "[0-9a-fA-F]{8}(?:-[0-9a-fA-F]{4}){3}-[0-9a-fA-F]{12}"@,
            ValueClass::Ipv4 => "\\d{1,3}(?:\\.\\d{1,3}){3}"@,
            ValueClass::PrefixedHex => "0[xX][0-9a-fA-F]+"@,
            ValueClass::Integer => "\\d+"@,
            ValueClass::Decimal => "\\d+[.,]\\d+"@,
            ValueClass::BareHex => "[0-9a-fA-F]+"@,
            ValueClass::SingleQuoted => "'[^']*'"@,
            ValueClass::DoubleQuoted => "\"[^\"]*\""@,
        }
    }

    pub fn regex(self) -> (r: &'static str)
        ensures
            r@ == self.shape(),
    {
        match self {
            ValueClass::Uuid => "[0-9a-fA-F]{8}(?:-[0-9a-fA-F]{4}){3}-[0-9a-fA-F]{12}",
            ValueClass::Ipv4 => "\\d{1,3}(?:\\.\\d{1,3}){3}",
            ValueClass::PrefixedHex => "0[xX][0-9a-fA-F]+",
            ValueClass::Integer => "\\d+",
            ValueClass::Decimal => "\\d+[.,]\\d+",
            ValueClass::BareHex => "[0-9a-fA-F]+",
            ValueClass::SingleQuoted => "'[^']*'",
            ValueClass::DoubleQuoted => "\"[^\"]*\"",
        }
    }

    /// Whether `value` has this shape.
    pub fn belongs(self, value: &str) -> (r: bool)
        ensures
            r == self.covers(value@),
    {
        match self {
            ValueClass::Uuid => value_is_uuid(value),
            ValueClass::Ipv4 => value_is_ipv4(value),
            ValueClass::PrefixedHex => value_is_prefixed_hex(value),
            ValueClass::Integer => value_is_integer(value),
            ValueClass::Decimal => value_is_decimal(value),
            ValueClass::BareHex => value_is_bare_hex(value),
            ValueClass::SingleQuoted => value_is_quoted(value, '\''),
            ValueClass::DoubleQuoted => value_is_quoted(value, '"'),
        }
    }
}

/// Whether `chars[from..]` is all hex digits.
fn hex_from(chars: &Vec<char>, from: usize) -> (r: bool)
    requires
        from <= chars@.len(),
    ensures
        r == all_hex(chars@.skip(from as int)),
{
    let ghost rest = chars@.skip(from as int);
    let mut i: usize = from;
    while i < chars.len()
        invariant
            from <= i <= chars@.len(),
            rest == chars@.skip(from as int),
            forall|j: int| 0 <= j < i - from ==> is_hex_digit(#[trigger] rest[j]),
        decreases chars@.len() - i,
    {
        assert(rest[i - from] == chars@[i as int]);
        if !char_is_hex_digit(chars[i]) {
            return false;
        }
        i = i + 1;
    }
    true
}

fn value_is_integer(value: &str) -> (r: bool)
    ensures
        r == is_integer(value@),
{
    let chars = chars_of(value);
    for i in 0..chars.len()
        invariant
            chars@ == value@,
            forall|j: int| 0 <= j < i ==> is_digit(#[trigger] value@[j]),
    {
        if !char_is_digit(chars[i]) {
            return false;
        }
    }
    chars.len() > 0
}

fn value_is_decimal(value: &str) -> (r: bool)
    ensures
        r == is_decimal(value@),
{
    let chars = chars_of(value);
    let total: usize = chars.len();
    let f = |c: char| -> (b: bool)
        ensures
            b == (c != '.' && c != ','),
        { c != '.' && c != ',' };
    let n: usize = run_from(chars.as_slice(), 0, f, Ghost(not_point()));
    assert(value@.skip(0) == value@);
    if n >= total {
        return false;
    }
    let whole = value.substring_char(0, n);
    let fraction = value.substring_char(n + 1, total);
    assert(whole@ == value@.take(n as int));
    assert(fraction@ == value@.skip(n + 1));
    value_is_integer(whole) && value_is_integer(fraction)
}

fn value_is_prefixed_hex(value: &str) -> (r: bool)
    ensures
        r == is_prefixed_hex(value@),
{
    let chars = chars_of(value);
    if chars.len() <= 2 || chars[0] != '0' || (chars[1] != 'x' && chars[1] != 'X') {
        return false;
    }
    hex_from(&chars, 2)
}

fn value_is_bare_hex(value: &str) -> (r: bool)
    ensures
        r == is_bare_hex(value@),
{
    let chars = chars_of(value);
    if chars.len() < 6 || !hex_from(&chars, 0) {
        assert(value@.skip(0) == value@);
        return false;
    }
    assert(value@.skip(0) == value@);
    let mut digit = false;
    let mut letter = false;
    for i in 0..chars.len()
        invariant
            chars@ == value@,
            digit == (exists|j: int| 0 <= j < i && is_digit(#[trigger] value@[j])),
            letter == (exists|j: int| 0 <= j < i && is_letter(#[trigger] value@[j])),
    {
        let here_digit = char_is_digit(chars[i]);
        let here_letter = char_is_letter(chars[i]);
        assert(here_digit == is_digit(value@[i as int]));
        assert(here_letter == is_letter(value@[i as int]));
        digit = digit || here_digit;
        letter = letter || here_letter;
    }
    digit && letter
}

fn group_is_hex(group: &str, width: usize) -> (r: bool)
    ensures
        r == is_hex_group(group@, width as int),
{
    let chars = chars_of(group);
    assert(group@.skip(0) == group@);
    chars.len() == width && hex_from(&chars, 0)
}

fn value_is_uuid(value: &str) -> (r: bool)
    ensures
        r == is_uuid(value@),
{
    let groups = text_split(value, '-');
    let ghost g = split(value@, '-');
    assert(groups@.len() == g.len());
    if groups.len() != 5 {
        return false;
    }
    assert forall|i: int| 0 <= i < 5 implies groups@[i]@ == #[trigger] g[i] by {
        assert(strs(groups@)[i] == groups@[i]@);
    }
    group_is_hex(groups[0], 8) && group_is_hex(groups[1], 4) && group_is_hex(groups[2], 4)
        && group_is_hex(groups[3], 4) && group_is_hex(groups[4], 12)
}

fn value_is_octet(value: &str) -> (r: bool)
    ensures
        r == is_octet(value@),
{
    if !value_is_integer(value) || value.unicode_len() > 3 {
        return false;
    }
    match parse_u64(value) {
        Some(number) => number <= 255,
        None => false,
    }
}

fn value_is_ipv4(value: &str) -> (r: bool)
    ensures
        r == is_ipv4(value@),
{
    let octets = text_split(value, '.');
    let ghost o = split(value@, '.');
    assert(octets@.len() == o.len());
    if octets.len() != 4 {
        return false;
    }
    for i in 0..octets.len()
        invariant
            strs(octets@) == o,
            o == split(value@, '.'),
            octets@.len() == 4,
            forall|j: int| 0 <= j < i ==> is_octet(#[trigger] o[j]),
    {
        assert(o[i as int] == octets@[i as int]@);
        if !value_is_octet(octets[i]) {
            return false;
        }
    }
    true
}

fn value_is_quoted(value: &str, quote: char) -> (r: bool)
    ensures
        r == is_quoted(value@, quote),
{
    let chars = chars_of(value);
    let total: usize = chars.len();
    if total < 2 || chars[0] != quote || chars[total - 1] != quote {
        return false;
    }
    for i in 1..total - 1
        invariant
            chars@ == value@,
            total == chars@.len(),
            total >= 2,
            forall|j: int| 1 <= j < i ==> #[trigger] value@[j] != quote,
    {
        if chars[i] == quote {
            return false;
        }
    }
    true
}

pub open spec fn all_covered(class: ValueClass, values: Seq<Seq<char>>) -> bool {
    forall|i: int| 0 <= i < values.len() ==> class.covers(#[trigger] values[i])
}

pub open spec fn some_empty(values: Seq<Seq<char>>) -> bool {
    exists|i: int| 0 <= i < values.len() && (#[trigger] values[i]).len() == 0
}

/// The tightest class that covers every value, if there is one.
pub open spec fn class_of(values: Seq<Seq<char>>) -> Option<ValueClass> {
    if some_empty(values) {
        None
    } else if all_covered(ValueClass::Uuid, values) {
        Some(ValueClass::Uuid)
    } else if all_covered(ValueClass::Ipv4, values) {
        Some(ValueClass::Ipv4)
    } else if all_covered(ValueClass::PrefixedHex, values) {
        Some(ValueClass::PrefixedHex)
    } else if all_covered(ValueClass::Integer, values) {
        Some(ValueClass::Integer)
    } else if all_covered(ValueClass::Decimal, values) {
        Some(ValueClass::Decimal)
    } else if all_covered(ValueClass::BareHex, values) {
        Some(ValueClass::BareHex)
    } else if all_covered(ValueClass::SingleQuoted, values) {
        Some(ValueClass::SingleQuoted)
    } else if all_covered(ValueClass::DoubleQuoted, values) {
        Some(ValueClass::DoubleQuoted)
    } else {
        None
    }
}

fn covers_all(class: ValueClass, values: &[&str]) -> (r: bool)
    ensures
        r == all_covered(class, strs(values@)),
{
    for i in 0..values.len()
        invariant
            forall|j: int| 0 <= j < i ==> class.covers(#[trigger] strs(values@)[j]),
    {
        assert(strs(values@)[i as int] == values@[i as int]@);
        if !class.belongs(values[i]) {
            return false;
        }
    }
    true
}

/// The tightest class covering every value, or `None` when they share no shape.
pub fn value_class(values: &[&str]) -> (r: Option<ValueClass>)
    ensures
        r == class_of(strs(values@)),
{
    for i in 0..values.len()
        invariant
            forall|j: int| 0 <= j < i ==> (#[trigger] strs(values@)[j]).len() > 0,
    {
        assert(strs(values@)[i as int] == values@[i as int]@);
        if values[i].unicode_len() == 0 {
            return None;
        }
    }
    if covers_all(ValueClass::Uuid, values) {
        Some(ValueClass::Uuid)
    } else if covers_all(ValueClass::Ipv4, values) {
        Some(ValueClass::Ipv4)
    } else if covers_all(ValueClass::PrefixedHex, values) {
        Some(ValueClass::PrefixedHex)
    } else if covers_all(ValueClass::Integer, values) {
        Some(ValueClass::Integer)
    } else if covers_all(ValueClass::Decimal, values) {
        Some(ValueClass::Decimal)
    } else if covers_all(ValueClass::BareHex, values) {
        Some(ValueClass::BareHex)
    } else if covers_all(ValueClass::SingleQuoted, values) {
        Some(ValueClass::SingleQuoted)
    } else if covers_all(ValueClass::DoubleQuoted, values) {
        Some(ValueClass::DoubleQuoted)
    } else {
        None
    }
}

// ---------------------------------------------------------------------------
// Laws
// ---------------------------------------------------------------------------

/// The hex digits.
pub open spec fn hex_unit() -> Unit {
    Unit::Among(seq![('0', '9'), ('a', 'f'), ('A', 'F')])
}

/// One of two characters.
pub open spec fn either(a: char, b: char) -> Unit {
    Unit::Among(seq![(a, a), (b, b)])
}

pub open spec fn hex_bit(count: Count) -> Bit {
    Bit::Many(hex_unit(), count)
}

pub open spec fn digit_bit(count: Count) -> Bit {
    Bit::Many(Unit::Digit, count)
}

/// A dash and a group of hex digits, as a UUID goes on.
pub open spec fn dashed(width: nat) -> Seq<Bit> {
    seq![Bit::Raw(seq!['-']), hex_bit(Count::Times(width))]
}

/// A dot and a number of up to three digits, as an address goes on.
pub open spec fn dotted() -> Seq<Bit> {
    seq![Bit::Text(seq!['.']), digit_bit(Count::Between(1, 3))]
}

pub open spec fn quoted_bits(quote: char) -> Seq<Bit> {
    seq![
        Bit::Raw(seq![quote]),
        Bit::Many(Unit::Except(quote), Count::AnyNumber),
        Bit::Raw(seq![quote]),
    ]
}

/// The expression that a shape is to be read as.
pub open spec fn shape_parts(class: ValueClass) -> Seq<Part> {
    match class {
        ValueClass::Uuid => seq![
            Part::Run(seq![hex_bit(Count::Times(8))]),
            Part::Group(seq![dashed(4)], Count::Times(3)),
            Part::Run(dashed(12)),
        ],
        ValueClass::Ipv4 => seq![
            Part::Run(seq![digit_bit(Count::Between(1, 3))]),
            Part::Group(seq![dotted()], Count::Times(3)),
        ],
        ValueClass::PrefixedHex => seq![
            Part::Run(
                seq![
                    Bit::Raw(seq!['0']),
                    Bit::Many(either('x', 'X'), Count::One),
                    hex_bit(Count::OneOrMore),
                ],
            ),
        ],
        ValueClass::Integer => seq![Part::Run(seq![digit_bit(Count::OneOrMore)])],
        ValueClass::Decimal => seq![
            Part::Run(
                seq![
                    digit_bit(Count::OneOrMore),
                    Bit::Many(either('.', ','), Count::One),
                    digit_bit(Count::OneOrMore),
                ],
            ),
        ],
        ValueClass::BareHex => seq![Part::Run(seq![hex_bit(Count::OneOrMore)])],
        ValueClass::SingleQuoted => seq![Part::Run(quoted_bits('\''))],
        ValueClass::DoubleQuoted => seq![Part::Run(quoted_bits('"'))],
    }
}

proof fn lemma_hex_unit(c: char)
    ensures
        hex_unit().takes(c) <==> is_hex_digit(c),
{
    let ranges = seq![('0', '9'), ('a', 'f'), ('A', 'F')];
    assert(ranges[0] == ('0', '9') && ranges[1] == ('a', 'f') && ranges[2] == ('A', 'F'));
    assert(hex_unit() == Unit::Among(ranges));
    if hex_unit().takes(c) {
        let i = choose|i: int|
            0 <= i < ranges.len() && (#[trigger] ranges[i]).0 <= c <= ranges[i].1;
        assert(i == 0 || i == 1 || i == 2);
        assert(is_hex_digit(c));
    }
    if is_digit(c) {
        assert(ranges[0].0 <= c <= ranges[0].1);
    } else if 'a' <= c && c <= 'f' {
        assert(ranges[1].0 <= c <= ranges[1].1);
    } else if 'A' <= c && c <= 'F' {
        assert(ranges[2].0 <= c <= ranges[2].1);
    }
    if is_hex_digit(c) {
        assert(within(ranges, c));
    }
}

proof fn lemma_hex_bit(count: Count, s: Seq<char>)
    ensures
        hex_bit(count).fits(s) <==> count.allows(s.len()) && all_hex(s),
{
    assert forall|i: int| 0 <= i < s.len() implies (hex_unit().takes(#[trigger] s[i])
        <==> is_hex_digit(s[i])) by {
        lemma_hex_unit(s[i]);
    }
}

proof fn lemma_hex_text()
    ensures
        hex_unit().text() == "[0-9a-fA-F]"@,
        hex_unit().is_readable(),
{
    reveal_strlit("[0-9a-fA-F]");
    let ranges = seq![('0', '9'), ('a', 'f'), ('A', 'F')];
    let r1 = ranges.skip(1);
    let r2 = r1.skip(1);
    assert(r1[0] == ('a', 'f') && r2[0] == ('A', 'F') && r2.skip(1).len() == 0);
    assert(ranges_text(r2.skip(1)) =~= Seq::<char>::empty());
    assert(ranges_text(r2) =~= seq!['A', '-', 'F']);
    assert(ranges_text(r1) =~= seq!['a', '-', 'f', 'A', '-', 'F']);
    assert(ranges_text(ranges) =~= seq!['0', '-', '9', 'a', '-', 'f', 'A', '-', 'F']);
    assert(hex_unit().text() =~= "[0-9a-fA-F]"@);
}

proof fn lemma_pair_text(a: char, b: char)
    requires
        stands_in_brackets(a),
        stands_in_brackets(b),
    ensures
        either(a, b).text() == seq!['[', a, b, ']'],
        either(a, b).is_readable(),
        forall|c: char| #[trigger] either(a, b).takes(c) <==> c == a || c == b,
{
    let ranges = seq![(a, a), (b, b)];
    let r1 = ranges.skip(1);
    assert(ranges[0] == (a, a) && ranges[1] == (b, b));
    assert(r1[0] == (b, b) && r1.skip(1).len() == 0);
    assert(ranges_text(r1.skip(1)) =~= Seq::<char>::empty());
    assert(ranges_text(r1) =~= seq![b]);
    assert(ranges_text(ranges) =~= seq![a, b]);
    assert(either(a, b).text() =~= seq!['[', a, b, ']']);
}

proof fn lemma_counts()
    ensures
        Count::Times(3).text() == seq!['{', '3', '}'],
        Count::Times(4).text() == seq!['{', '4', '}'],
        Count::Times(8).text() == seq!['{', '8', '}'],
        Count::Times(12).text() == seq!['{', '1', '2', '}'],
        Count::Between(1, 3).text() == seq!['{', '1', ',', '3', '}'],
{
    assert(decimal(1) =~= seq!['1']);
    assert(decimal(3) =~= seq!['3']);
    assert(decimal(4) =~= seq!['4']);
    assert(decimal(8) =~= seq!['8']);
    assert(decimal(12) =~= seq!['1', '2']);
    assert(Count::Times(3).text() =~= seq!['{', '3', '}']);
    assert(Count::Times(4).text() =~= seq!['{', '4', '}']);
    assert(Count::Times(8).text() =~= seq!['{', '8', '}']);
    assert(Count::Times(12).text() =~= seq!['{', '1', '2', '}']);
    assert(Count::Between(1, 3).text() =~= seq!['{', '1', ',', '3', '}']);
}

proof fn lemma_two_bits_text(a: Bit, b: Bit)
    ensures
        bits_text(seq![a, b]) == a.text() + b.text(),
{
    assert(seq![a, b] =~= seq![a] + seq![b]);
    lemma_bits_text_two(seq![a], seq![b]);
    lemma_one_bit(a, Seq::empty());
    lemma_one_bit(b, Seq::empty());
}

proof fn lemma_three_bits_text(a: Bit, b: Bit, c: Bit)
    ensures
        bits_text(seq![a, b, c]) == a.text() + b.text() + c.text(),
{
    assert(seq![a, b, c] =~= seq![a, b] + seq![c]);
    lemma_bits_text_two(seq![a, b], seq![c]);
    lemma_two_bits_text(a, b);
    lemma_one_bit(c, Seq::empty());
}

/// Every shape is written as the expression that it is to be read as.
proof fn lemma_shapes_are_read(class: ValueClass)
    ensures
        reads_as(class.shape(), shape_parts(class)),
{
    lemma_hex_text();
    lemma_counts();
    let parts = shape_parts(class);
    let none = Seq::<char>::empty();
    reveal_strlit("[0-9a-fA-F]");
    match class {
        ValueClass::Uuid => {
            reveal_strlit("[0-9a-fA-F]{8}(?:-[0-9a-fA-F]{4}){3}-[0-9a-fA-F]{12}");
            lemma_one_bit(hex_bit(Count::Times(8)), none);
            lemma_two_bits_text(Bit::Raw(seq!['-']), hex_bit(Count::Times(4)));
            lemma_two_bits_text(Bit::Raw(seq!['-']), hex_bit(Count::Times(12)));
            lemma_one_part(parts[2], none);
            assert(parts.skip(1).skip(1) =~= seq![parts[2]]);
            assert(alternatives_text(seq![dashed(4)]) == bits_text(dashed(4)));
            assert(parts.skip(1)[0] == parts[1]);
            assert(parts_text(parts.skip(1)) == parts[1].text() + parts_text(seq![parts[2]]));
            assert(parts_text(parts) =~= parts[0].text() + (parts[1].text() + parts[2].text()));
            assert(class.shape() =~= parts_text(parts));
        },
        ValueClass::Ipv4 => {
            reveal_strlit("\\d{1,3}(?:\\.\\d{1,3}){3}");
            lemma_one_bit(digit_bit(Count::Between(1, 3)), none);
            lemma_two_bits_text(Bit::Text(seq!['.']), digit_bit(Count::Between(1, 3)));
            assert(seq!['.'].drop_last() =~= none);
            assert(escaped(none) =~= none);
            assert(escaped(seq!['.']) =~= seq!['\\', '.']);
            lemma_one_part(parts[1], none);
            assert(parts.skip(1) =~= seq![parts[1]]);
            assert(alternatives_text(seq![dotted()]) == bits_text(dotted()));
            assert(parts_text(parts) =~= parts[0].text() + parts[1].text());
            assert(class.shape() =~= parts_text(parts));
        },
        ValueClass::PrefixedHex => {
            reveal_strlit("0[xX][0-9a-fA-F]+");
            lemma_pair_text('x', 'X');
            lemma_three_bits_text(
                Bit::Raw(seq!['0']),
                Bit::Many(either('x', 'X'), Count::One),
                hex_bit(Count::OneOrMore),
            );
            lemma_one_part(parts[0], none);
            assert(class.shape() =~= parts_text(parts));
        },
        ValueClass::Integer => {
            reveal_strlit("\\d+");
            lemma_one_bit(digit_bit(Count::OneOrMore), none);
            lemma_one_part(parts[0], none);
            assert(class.shape() =~= parts_text(parts));
        },
        ValueClass::Decimal => {
            reveal_strlit("\\d+[.,]\\d+");
            lemma_pair_text('.', ',');
            lemma_three_bits_text(
                digit_bit(Count::OneOrMore),
                Bit::Many(either('.', ','), Count::One),
                digit_bit(Count::OneOrMore),
            );
            lemma_one_part(parts[0], none);
            assert(class.shape() =~= parts_text(parts));
        },
        ValueClass::BareHex => {
            reveal_strlit("[0-9a-fA-F]+");
            lemma_one_bit(hex_bit(Count::OneOrMore), none);
            lemma_one_part(parts[0], none);
            assert(class.shape() =~= parts_text(parts));
        },
        ValueClass::SingleQuoted => {
            reveal_strlit("'[^']*'");
            lemma_three_bits_text(
                Bit::Raw(seq!['\'']),
                Bit::Many(Unit::Except('\''), Count::AnyNumber),
                Bit::Raw(seq!['\'']),
            );
            lemma_one_part(parts[0], none);
            assert(class.shape() =~= parts_text(parts));
        },
        ValueClass::DoubleQuoted => {
            reveal_strlit("\"[^\"]*\"");
            lemma_three_bits_text(
                Bit::Raw(seq!['"']),
                Bit::Many(Unit::Except('"'), Count::AnyNumber),
                Bit::Raw(seq!['"']),
            );
            lemma_one_part(parts[0], none);
            assert(class.shape() =~= parts_text(parts));
        },
    }
}

proof fn lemma_two_bits(a: Bit, b: Bit, s: Seq<char>)
    ensures
        bits_accept(seq![a, b], s) <==> exists|n: int|
            0 <= n <= s.len() && a.fits(s.take(n)) && b.fits(#[trigger] s.skip(n)),
{
    let bits = seq![a, b];
    assert(bits.skip(1) =~= seq![b]);
    assert forall|n: int| 0 <= n <= s.len() implies (bits_accept(bits.skip(1), #[trigger] s.skip(n))
        <==> b.fits(s.skip(n))) by {
        lemma_one_bit(b, s.skip(n));
    }
    if bits_accept(bits, s) {
        let n = choose|n: int|
            0 <= n <= s.len() && bits[0].fits(s.take(n)) && bits_accept(
                bits.skip(1),
                #[trigger] s.skip(n),
            );
        assert(a.fits(s.take(n)) && b.fits(s.skip(n)));
    }
    if exists|n: int| 0 <= n <= s.len() && a.fits(s.take(n)) && b.fits(#[trigger] s.skip(n)) {
        let n = choose|n: int|
            0 <= n <= s.len() && a.fits(s.take(n)) && b.fits(#[trigger] s.skip(n));
        assert(bits[0].fits(s.take(n)) && bits_accept(bits.skip(1), s.skip(n)));
    }
}

/// Whether `s` is a text for `a`, one for `b` and one for `c`, parted at `n` and `m`.
pub open spec fn parted(a: Bit, b: Bit, c: Bit, s: Seq<char>, n: int, m: int) -> bool {
    &&& 0 <= n <= m <= s.len()
    &&& a.fits(s.take(n))
    &&& b.fits(s.subrange(n, m))
    &&& c.fits(s.skip(m))
}

proof fn lemma_three_bits(a: Bit, b: Bit, c: Bit, s: Seq<char>)
    ensures
        bits_accept(seq![a, b, c], s) <==> exists|n: int, m: int| #[trigger]
            parted(a, b, c, s, n, m),
{
    let bits = seq![a, b, c];
    assert(bits.skip(1) =~= seq![b, c]);
    if bits_accept(bits, s) {
        let n = choose|n: int|
            0 <= n <= s.len() && bits[0].fits(s.take(n)) && bits_accept(
                bits.skip(1),
                #[trigger] s.skip(n),
            );
        let t = s.skip(n);
        lemma_two_bits(b, c, t);
        let k = choose|k: int| 0 <= k <= t.len() && b.fits(t.take(k)) && c.fits(#[trigger] t.skip(k));
        assert(t.take(k) =~= s.subrange(n, n + k));
        assert(t.skip(k) =~= s.skip(n + k));
        assert(parted(a, b, c, s, n, n + k));
    }
    if exists|n: int, m: int| #[trigger] parted(a, b, c, s, n, m) {
        let (n, m) = choose|n: int, m: int| #[trigger] parted(a, b, c, s, n, m);
        let t = s.skip(n);
        assert(t.take(m - n) =~= s.subrange(n, m));
        assert(t.skip(m - n) =~= s.skip(m));
        lemma_two_bits(b, c, t);
        assert(bits[0].fits(s.take(n)) && bits_accept(bits.skip(1), s.skip(n)));
    }
}

/// A text is its first piece, the separator and the rest, or that piece alone.
proof fn lemma_split_step(s: Seq<char>, sep: char)
    ensures
        split(s, sep).len() > 0,
        forall|i: int| 0 <= i < split(s, sep)[0].len() ==> #[trigger] split(s, sep)[0][i] != sep,
        split(s, sep).len() == 1 ==> split(s, sep)[0] == s,
        split(s, sep).len() > 1 ==> {
            let first = split(s, sep)[0];
            &&& first.len() < s.len()
            &&& s == first + seq![sep] + s.skip(first.len() as int + 1)
            &&& split(s.skip(first.len() as int + 1), sep) == split(s, sep).skip(1)
        },
{
    let n = span(s, not_char(sep)) as int;
    lemma_span(s, not_char(sep));
    assert forall|i: int| 0 <= i < n implies #[trigger] s[i] != sep by {
        assert(not_char(sep)(s[i]));
    }
    if n < s.len() {
        assert(split(s, sep)[0] == s.take(n));
        assert(s =~= s.take(n) + seq![sep] + s.skip(n + 1));
        assert(split(s, sep).skip(1) =~= split(s.skip(n + 1), sep));
        lemma_split_filled(s.skip(n + 1), sep);
    }
}

proof fn lemma_split_filled(s: Seq<char>, sep: char)
    ensures
        split(s, sep).len() > 0,
{
}

proof fn lemma_split_front(first: Seq<char>, sep: char, rest: Seq<char>)
    requires
        forall|i: int| 0 <= i < first.len() ==> #[trigger] first[i] != sep,
    ensures
        split(first + seq![sep] + rest, sep) == seq![first] + split(rest, sep),
        split(first, sep) == seq![first],
{
    let s = first + seq![sep] + rest;
    let n = first.len();
    assert forall|i: int| 0 <= i < n implies not_char(sep)(#[trigger] s[i]) by {
        assert(s[i] == first[i]);
    }
    lemma_span_is(s, not_char(sep), n);
    assert(s.take(n as int) =~= first);
    assert(s.skip(n as int + 1) =~= rest);
    assert forall|i: int| 0 <= i < n implies not_char(sep)(#[trigger] first[i]) by {}
    lemma_span_is(first, not_char(sep), n);
}

proof fn lemma_dashed(width: nat, s: Seq<char>)
    ensures
        bits_accept(dashed(width), s) <==> s.len() == width + 1 && s[0] == '-' && all_hex(s.skip(1)),
{
    let a = Bit::Raw(seq!['-']);
    let b = hex_bit(Count::Times(width));
    lemma_two_bits(a, b, s);
    if s.len() > 0 {
        lemma_hex_bit(Count::Times(width), s.skip(1));
        if s[0] == '-' {
            assert(s.take(1) =~= seq!['-']);
        }
    }
    if bits_accept(dashed(width), s) {
        let n = choose|n: int| 0 <= n <= s.len() && a.fits(s.take(n)) && b.fits(#[trigger] s.skip(n));
        assert(s.take(n).len() == 1);
        assert(s.take(n)[0] == '-');
    } else if s.len() > 0 && s[0] == '-' && s.len() == width + 1 && all_hex(s.skip(1)) {
        assert(a.fits(s.take(1)) && b.fits(s.skip(1)));
    }
}

proof fn lemma_dotted(s: Seq<char>)
    ensures
        bits_accept(dotted(), s) <==> 2 <= s.len() <= 4 && s[0] == '.' && all_digits(s.skip(1)),
{
    let a = Bit::Text(seq!['.']);
    let b = digit_bit(Count::Between(1, 3));
    lemma_two_bits(a, b, s);
    if s.len() > 0 && s[0] == '.' {
        assert(s.take(1) =~= seq!['.']);
    }
    if bits_accept(dotted(), s) {
        let n = choose|n: int| 0 <= n <= s.len() && a.fits(s.take(n)) && b.fits(#[trigger] s.skip(n));
        assert(s.take(n).len() == 1);
        assert(s.take(n)[0] == '.');
    } else if 2 <= s.len() <= 4 && s[0] == '.' && all_digits(s.skip(1)) {
        assert(a.fits(s.take(1)) && b.fits(s.skip(1)));
    }
}

proof fn lemma_alone(alternative: Seq<Bit>, s: Seq<char>)
    ensures
        any_accepts(seq![alternative], s) <==> bits_accept(alternative, s),
{
    let all = seq![alternative];
    assert(all[0] == alternative);
}

/// Three times over is three texts one after the other.
pub open spec fn in_threes(alternative: Seq<Bit>, s: Seq<char>, n: int, m: int) -> bool {
    &&& 0 <= n <= m <= s.len()
    &&& bits_accept(alternative, s.take(n))
    &&& bits_accept(alternative, s.subrange(n, m))
    &&& bits_accept(alternative, s.skip(m))
}

proof fn lemma_three_times(alternative: Seq<Bit>, s: Seq<char>)
    ensures
        Part::Group(seq![alternative], Count::Times(3)).accepts(s) <==> exists|n: int, m: int|
            #[trigger] in_threes(alternative, s, n, m),
{
    let all = seq![alternative];
    let none = Seq::<char>::empty();
    if Part::Group(all, Count::Times(3)).accepts(s) {
        let k = choose|k: nat| Count::Times(3).allows(k) && #[trigger] repeats(all, k, s);
        assert(repeats(all, 3, s));
        let n = choose|n: int|
            0 <= n <= s.len() && any_accepts(all, s.take(n)) && repeats(
                all,
                2,
                #[trigger] s.skip(n),
            );
        let t = s.skip(n);
        assert(repeats(all, 2, t));
        let k2 = choose|k: int|
            0 <= k <= t.len() && any_accepts(all, t.take(k)) && repeats(
                all,
                1,
                #[trigger] t.skip(k),
            );
        let u = t.skip(k2);
        assert(repeats(all, 1, u));
        let k3 = choose|k: int|
            0 <= k <= u.len() && any_accepts(all, u.take(k)) && repeats(
                all,
                0,
                #[trigger] u.skip(k),
            );
        assert(u.skip(k3).len() == 0);
        assert(u.take(k3) =~= s.skip(n + k2));
        assert(t.take(k2) =~= s.subrange(n, n + k2));
        lemma_alone(alternative, s.take(n));
        lemma_alone(alternative, s.subrange(n, n + k2));
        lemma_alone(alternative, s.skip(n + k2));
        assert(in_threes(alternative, s, n, n + k2));
    }
    if exists|n: int, m: int| #[trigger] in_threes(alternative, s, n, m) {
        let (n, m) = choose|n: int, m: int| #[trigger] in_threes(alternative, s, n, m);
        lemma_alone(alternative, s.take(n));
        lemma_alone(alternative, s.subrange(n, m));
        lemma_alone(alternative, s.skip(m));
        assert(repeats(all, 0, none));
        lemma_repeats_again(all, 0, s.skip(m), none);
        assert(s.skip(m) + none =~= s.skip(m));
        lemma_repeats_again(all, 1, s.subrange(n, m), s.skip(m));
        assert(s.subrange(n, m) + s.skip(m) =~= s.skip(n));
        lemma_repeats_again(all, 2, s.take(n), s.skip(n));
        assert(s.take(n) + s.skip(n) =~= s);
        assert(Count::Times(3).allows(3nat) && repeats(all, 3nat, s));
        assert(repeats_by(all, Count::Times(3), s));
    }
}

proof fn lemma_two_parts(a: Part, b: Part, s: Seq<char>)
    ensures
        parts_accept(seq![a, b], s) <==> exists|n: int|
            0 <= n <= s.len() && a.accepts(s.take(n)) && b.accepts(#[trigger] s.skip(n)),
{
    let parts = seq![a, b];
    assert(parts.skip(1) =~= seq![b]);
    assert forall|n: int| 0 <= n <= s.len() implies (parts_accept(
        parts.skip(1),
        #[trigger] s.skip(n),
    ) <==> b.accepts(s.skip(n))) by {
        lemma_one_part(b, s.skip(n));
    }
    if parts_accept(parts, s) {
        let n = choose|n: int|
            0 <= n <= s.len() && parts[0].accepts(s.take(n)) && parts_accept(
                parts.skip(1),
                #[trigger] s.skip(n),
            );
        assert(a.accepts(s.take(n)) && b.accepts(s.skip(n)));
    }
    if exists|n: int| 0 <= n <= s.len() && a.accepts(s.take(n)) && b.accepts(#[trigger] s.skip(n)) {
        let n = choose|n: int|
            0 <= n <= s.len() && a.accepts(s.take(n)) && b.accepts(#[trigger] s.skip(n));
        assert(parts[0].accepts(s.take(n)) && parts_accept(parts.skip(1), s.skip(n)));
    }
}

proof fn lemma_hex_has_no_dash(s: Seq<char>)
    requires
        all_hex(s),
    ensures
        forall|i: int| 0 <= i < s.len() ==> #[trigger] s[i] != '-',
{
}

/// What a UUID is, place by place.
pub open spec fn uuid_places(s: Seq<char>) -> bool {
    &&& s.len() == 36
    &&& s[8] == '-' && s[13] == '-' && s[18] == '-' && s[23] == '-'
    &&& all_hex(s.take(8)) && all_hex(s.subrange(9, 13)) && all_hex(s.subrange(14, 18)) && all_hex(
        s.subrange(19, 23),
    ) && all_hex(s.skip(24))
}

pub proof fn lemma_uuid_places(s: Seq<char>)
    ensures
        is_uuid(s) <==> uuid_places(s),
{
    let g = split(s, '-');
    if is_uuid(s) {
        lemma_split_step(s, '-');
        let s1 = s.skip(9);
        lemma_split_step(s1, '-');
        let s2 = s1.skip(5);
        lemma_split_step(s2, '-');
        let s3 = s2.skip(5);
        lemma_split_step(s3, '-');
        let s4 = s3.skip(5);
        lemma_split_step(s4, '-');
        assert(split(s1, '-')[0] == g[1] && split(s2, '-')[0] == g[2] && split(s3, '-')[0] == g[3]
            && split(s4, '-')[0] == g[4]);
        assert(s =~= g[0] + seq!['-'] + s1);
        assert(s1 =~= g[1] + seq!['-'] + s2);
        assert(s2 =~= g[2] + seq!['-'] + s3);
        assert(s3 =~= g[3] + seq!['-'] + s4);
        assert(s.take(8) =~= g[0]);
        assert(s.subrange(9, 13) =~= g[1]);
        assert(s.subrange(14, 18) =~= g[2]);
        assert(s.subrange(19, 23) =~= g[3]);
        assert(s.skip(24) =~= g[4]);
        assert(s[13] == s1[4]);
        assert(s[18] == s2[4]);
        assert(s[23] == s3[4]);
    }
    if uuid_places(s) {
        lemma_hex_has_no_dash(s.take(8));
        lemma_hex_has_no_dash(s.subrange(9, 13));
        lemma_hex_has_no_dash(s.subrange(14, 18));
        lemma_hex_has_no_dash(s.subrange(19, 23));
        lemma_hex_has_no_dash(s.skip(24));
        lemma_split_front(s.take(8), '-', s.skip(9));
        lemma_split_front(s.subrange(9, 13), '-', s.skip(14));
        lemma_split_front(s.subrange(14, 18), '-', s.skip(19));
        lemma_split_front(s.subrange(19, 23), '-', s.skip(24));
        lemma_split_front(s.skip(24), '-', s);
        assert(s =~= s.take(8) + seq!['-'] + s.skip(9));
        assert(s.skip(9) =~= s.subrange(9, 13) + seq!['-'] + s.skip(14));
        assert(s.skip(14) =~= s.subrange(14, 18) + seq!['-'] + s.skip(19));
        assert(s.skip(19) =~= s.subrange(19, 23) + seq!['-'] + s.skip(24));
        assert(g =~= seq![
            s.take(8),
            s.subrange(9, 13),
            s.subrange(14, 18),
            s.subrange(19, 23),
            s.skip(24),
        ]);
    }
}

proof fn lemma_uuid_read(s: Seq<char>)
    ensures
        is_uuid(s) <==> parts_accept(shape_parts(ValueClass::Uuid), s),
{
    lemma_uuid_places(s);
    let parts = shape_parts(ValueClass::Uuid);
    let first = Part::Run(seq![hex_bit(Count::Times(8))]);
    let group = Part::Group(seq![dashed(4)], Count::Times(3));
    let last = Part::Run(dashed(12));
    assert(parts.skip(1) =~= seq![group, last]);
    if uuid_places(s) {
        let head = s.take(8);
        let mid = s.subrange(8, 23);
        let end = s.skip(23);
        lemma_hex_bit(Count::Times(8), head);
        lemma_one_bit(hex_bit(Count::Times(8)), head);
        assert(mid.take(5).skip(1) =~= s.subrange(9, 13));
        assert(mid.subrange(5, 10).skip(1) =~= s.subrange(14, 18));
        assert(mid.skip(10).skip(1) =~= s.subrange(19, 23));
        lemma_dashed(4, mid.take(5));
        lemma_dashed(4, mid.subrange(5, 10));
        lemma_dashed(4, mid.skip(10));
        assert(in_threes(dashed(4), mid, 5, 10));
        lemma_three_times(dashed(4), mid);
        assert(end.skip(1) =~= s.skip(24));
        lemma_dashed(12, end);
        let rest = s.skip(8);
        lemma_two_parts(group, last, rest);
        assert(rest.take(15) =~= mid);
        assert(rest.skip(15) =~= end);
        assert(parts[0].accepts(s.take(8)) && parts_accept(parts.skip(1), s.skip(8)));
    }
    if parts_accept(parts, s) {
        let n = choose|n: int|
            0 <= n <= s.len() && parts[0].accepts(s.take(n)) && parts_accept(
                parts.skip(1),
                #[trigger] s.skip(n),
            );
        lemma_hex_bit(Count::Times(8), s.take(n));
        lemma_one_bit(hex_bit(Count::Times(8)), s.take(n));
        assert(n == 8);
        let rest = s.skip(8);
        lemma_two_parts(group, last, rest);
        let m = choose|m: int|
            0 <= m <= rest.len() && group.accepts(rest.take(m)) && last.accepts(
                #[trigger] rest.skip(m),
            );
        let mid = rest.take(m);
        lemma_three_times(dashed(4), mid);
        let (x, y) = choose|x: int, y: int| #[trigger] in_threes(dashed(4), mid, x, y);
        lemma_dashed(4, mid.take(x));
        lemma_dashed(4, mid.subrange(x, y));
        lemma_dashed(4, mid.skip(y));
        assert(x == 5 && y == 10 && m == 15);
        lemma_dashed(12, rest.skip(15));
        assert(s.subrange(9, 13) =~= mid.take(5).skip(1));
        assert(s.subrange(14, 18) =~= mid.subrange(5, 10).skip(1));
        assert(s.subrange(19, 23) =~= mid.skip(10).skip(1));
        assert(s.skip(24) =~= rest.skip(15).skip(1));
        assert(s[8] == mid.take(5)[0]);
        assert(s[13] == mid.subrange(5, 10)[0]);
        assert(s[18] == mid.skip(10)[0]);
        assert(s[23] == rest.skip(15)[0]);
    }
}

proof fn lemma_digits_have_no_dot(s: Seq<char>)
    requires
        all_digits(s),
    ensures
        forall|i: int| 0 <= i < s.len() ==> #[trigger] s[i] != '.',
{
}

/// What an address is, number by number: up to three digits each, and a dot before the later
/// three.
pub open spec fn address_places(s: Seq<char>, a: int, b: int, c: int) -> bool {
    &&& 1 <= a <= 3 && a + 2 <= b <= a + 4 && b + 2 <= c <= b + 4 && c + 2 <= s.len() <= c + 4
    &&& s[a] == '.' && s[b] == '.' && s[c] == '.'
    &&& all_digits(s.take(a)) && all_digits(s.subrange(a + 1, b)) && all_digits(
        s.subrange(b + 1, c),
    ) && all_digits(s.skip(c + 1))
}

proof fn lemma_address_split(s: Seq<char>, a: int, b: int, c: int)
    requires
        address_places(s, a, b, c),
    ensures
        split(s, '.') == seq![s.take(a), s.subrange(a + 1, b), s.subrange(b + 1, c), s.skip(c + 1)],
{
    lemma_digits_have_no_dot(s.take(a));
    lemma_digits_have_no_dot(s.subrange(a + 1, b));
    lemma_digits_have_no_dot(s.subrange(b + 1, c));
    lemma_digits_have_no_dot(s.skip(c + 1));
    lemma_split_front(s.take(a), '.', s.skip(a + 1));
    lemma_split_front(s.subrange(a + 1, b), '.', s.skip(b + 1));
    lemma_split_front(s.subrange(b + 1, c), '.', s.skip(c + 1));
    lemma_split_front(s.skip(c + 1), '.', s);
    assert(s =~= s.take(a) + seq!['.'] + s.skip(a + 1));
    assert(s.skip(a + 1) =~= s.subrange(a + 1, b) + seq!['.'] + s.skip(b + 1));
    assert(s.skip(b + 1) =~= s.subrange(b + 1, c) + seq!['.'] + s.skip(c + 1));
    assert(split(s, '.') =~= seq![
        s.take(a),
        s.subrange(a + 1, b),
        s.subrange(b + 1, c),
        s.skip(c + 1),
    ]);
}

proof fn lemma_address_accepted(s: Seq<char>, a: int, b: int, c: int)
    requires
        address_places(s, a, b, c),
    ensures
        parts_accept(shape_parts(ValueClass::Ipv4), s),
{
    let first = Part::Run(seq![digit_bit(Count::Between(1, 3))]);
    let group = Part::Group(seq![dotted()], Count::Times(3));
    lemma_two_parts(first, group, s);
    lemma_one_bit(digit_bit(Count::Between(1, 3)), s.take(a));
    let mid = s.skip(a);
    let x = b - a;
    let y = c - a;
    assert(mid.take(x).skip(1) =~= s.subrange(a + 1, b));
    assert(mid.subrange(x, y).skip(1) =~= s.subrange(b + 1, c));
    assert(mid.skip(y).skip(1) =~= s.skip(c + 1));
    lemma_dotted(mid.take(x));
    lemma_dotted(mid.subrange(x, y));
    lemma_dotted(mid.skip(y));
    assert(in_threes(dotted(), mid, x, y));
    lemma_three_times(dotted(), mid);
    assert(first.accepts(s.take(a)) && group.accepts(s.skip(a)));
}

proof fn lemma_address_taken(s: Seq<char>) -> (places: (int, int, int))
    requires
        parts_accept(shape_parts(ValueClass::Ipv4), s),
    ensures
        address_places(s, places.0, places.1, places.2),
{
    let first = Part::Run(seq![digit_bit(Count::Between(1, 3))]);
    let group = Part::Group(seq![dotted()], Count::Times(3));
    lemma_two_parts(first, group, s);
    let a = choose|n: int|
        0 <= n <= s.len() && first.accepts(s.take(n)) && group.accepts(#[trigger] s.skip(n));
    lemma_one_bit(digit_bit(Count::Between(1, 3)), s.take(a));
    let mid = s.skip(a);
    lemma_three_times(dotted(), mid);
    let (x, y) = choose|x: int, y: int| #[trigger] in_threes(dotted(), mid, x, y);
    lemma_dotted(mid.take(x));
    lemma_dotted(mid.subrange(x, y));
    lemma_dotted(mid.skip(y));
    let b = a + x;
    let c = a + y;
    assert(s.subrange(a + 1, b) =~= mid.take(x).skip(1));
    assert(s.subrange(b + 1, c) =~= mid.subrange(x, y).skip(1));
    assert(s.skip(c + 1) =~= mid.skip(y).skip(1));
    assert(s[a] == mid.take(x)[0]);
    assert(s[b] == mid.subrange(x, y)[0]);
    assert(s[c] == mid.skip(y)[0]);
    assert forall|i: int| 0 <= i < s.take(a).len() implies is_digit(#[trigger] s.take(a)[i]) by {
        assert(Unit::Digit.takes(s.take(a)[i]));
    }
    (a, b, c)
}

proof fn lemma_address_read(s: Seq<char>)
    ensures
        is_ipv4(s) ==> parts_accept(shape_parts(ValueClass::Ipv4), s),
        parts_accept(shape_parts(ValueClass::Ipv4), s) && (forall|i: int|
            0 <= i < 4 ==> digits_value(#[trigger] split(s, '.')[i]) <= 255) ==> is_ipv4(s),
{
    if is_ipv4(s) {
        lemma_address_first(s);
        let (a, b, c) = choose|a: int, b: int, c: int| #[trigger] address_places(s, a, b, c);
        lemma_address_accepted(s, a, b, c);
    }
    if parts_accept(shape_parts(ValueClass::Ipv4), s) {
        let places = lemma_address_taken(s);
        lemma_address_split(s, places.0, places.1, places.2);
    }
}

proof fn lemma_quoted_read(quote: char, s: Seq<char>)
    ensures
        is_quoted(s, quote) <==> bits_accept(quoted_bits(quote), s),
{
    let q = Bit::Raw(seq![quote]);
    let inner = Bit::Many(Unit::Except(quote), Count::AnyNumber);
    lemma_three_bits(q, inner, q, s);
    if is_quoted(s, quote) {
        let m = s.len() - 1;
        assert(s.take(1) =~= seq![quote]);
        assert(s.skip(m) =~= seq![quote]);
        assert(parted(q, inner, q, s, 1, m));
    }
    if bits_accept(quoted_bits(quote), s) {
        let (n, m) = choose|n: int, m: int| #[trigger] parted(q, inner, q, s, n, m);
        assert(s.take(n).len() == 1 && s.take(n)[0] == quote);
        assert(s.skip(m).len() == 1 && s.skip(m)[0] == quote);
        assert forall|i: int| 1 <= i < s.len() - 1 implies #[trigger] s[i] != quote by {
            assert(Unit::Except(quote).takes(s.subrange(n, m)[i - 1]));
        }
    }
}

proof fn lemma_prefixed_read(s: Seq<char>)
    ensures
        is_prefixed_hex(s) <==> parts_accept(shape_parts(ValueClass::PrefixedHex), s),
{
    let a = Bit::Raw(seq!['0']);
    let b = Bit::Many(either('x', 'X'), Count::One);
    let c = hex_bit(Count::OneOrMore);
    let bits = seq![a, b, c];
    lemma_pair_text('x', 'X');
    lemma_three_bits(a, b, c, s);
    lemma_one_part(Part::Run(bits), s);
    if is_prefixed_hex(s) {
        assert(s.take(1) =~= seq!['0']);
        lemma_hex_bit(Count::OneOrMore, s.skip(2));
        assert(either('x', 'X').takes(s.subrange(1, 2)[0]));
        assert(parted(a, b, c, s, 1, 2));
    }
    if bits_accept(bits, s) {
        let (n, m) = choose|n: int, m: int| #[trigger] parted(a, b, c, s, n, m);
        assert(s.take(n).len() == 1 && s.take(n)[0] == '0');
        assert(s.subrange(n, m).len() == 1);
        assert(either('x', 'X').takes(s.subrange(n, m)[0]));
        lemma_hex_bit(Count::OneOrMore, s.skip(2));
    }
}

proof fn lemma_decimal_read(s: Seq<char>)
    ensures
        is_decimal(s) <==> parts_accept(shape_parts(ValueClass::Decimal), s),
{
    let a = digit_bit(Count::OneOrMore);
    let b = Bit::Many(either('.', ','), Count::One);
    let bits = seq![a, b, a];
    lemma_pair_text('.', ',');
    lemma_three_bits(a, b, a, s);
    lemma_one_part(Part::Run(bits), s);
    if is_decimal(s) {
        let n = span(s, not_point()) as int;
        lemma_span(s, not_point());
        assert(!not_point()(s[n]));
        assert(either('.', ',').takes(s.subrange(n, n + 1)[0]));
        assert(parted(a, b, a, s, n, n + 1));
    }
    if bits_accept(bits, s) {
        let (n, m) = choose|n: int, m: int| #[trigger] parted(a, b, a, s, n, m);
        assert(s.subrange(n, m).len() == 1);
        assert(either('.', ',').takes(s.subrange(n, m)[0]));
        assert forall|i: int| 0 <= i < n implies not_point()(#[trigger] s[i]) by {
            assert(Unit::Digit.takes(s.take(n)[i]));
        }
        lemma_span_is(s, not_point(), n as nat);
        assert forall|i: int| 0 <= i < s.take(n).len() implies is_digit(#[trigger] s.take(n)[i]) by {
            assert(Unit::Digit.takes(s.take(n)[i]));
        }
        assert forall|i: int| 0 <= i < s.skip(m).len() implies is_digit(#[trigger] s.skip(m)[i]) by {
            assert(Unit::Digit.takes(s.skip(m)[i]));
        }
    }
}

/// The regex of a class stands for every value that the class covers, and for no other, but that
/// the numbers of an address may not exceed 255 and that bare hex must be long enough and mixed
/// to be told from a word or a number.
pub proof fn shapes_stand_for_their_values(class: ValueClass, s: Seq<char>)
    ensures
        class.covers(s) ==> matches_whole(class.shape(), s),
        reads_as(class.shape(), shape_parts(class)),
        parts_accept(shape_parts(class), s) && (class == ValueClass::Ipv4 ==> forall|i: int|
            0 <= i < 4 ==> digits_value(#[trigger] split(s, '.')[i]) <= 255) && (class
            == ValueClass::BareHex ==> s.len() >= 6 && has_digit(s) && has_letter(s))
            ==> class.covers(s),
{
    lemma_shapes_are_read(class);
    let parts = shape_parts(class);
    match class {
        ValueClass::Uuid => lemma_uuid_read(s),
        ValueClass::Ipv4 => lemma_address_read(s),
        ValueClass::PrefixedHex => lemma_prefixed_read(s),
        ValueClass::Integer => {
            lemma_one_bit(digit_bit(Count::OneOrMore), s);
            lemma_one_part(parts[0], s);
            if parts_accept(parts, s) {
                assert forall|i: int| 0 <= i < s.len() implies is_digit(#[trigger] s[i]) by {
                    assert(Unit::Digit.takes(s[i]));
                }
            }
        },
        ValueClass::Decimal => lemma_decimal_read(s),
        ValueClass::BareHex => {
            lemma_hex_bit(Count::OneOrMore, s);
            lemma_one_bit(hex_bit(Count::OneOrMore), s);
            lemma_one_part(parts[0], s);
        },
        ValueClass::SingleQuoted => {
            lemma_quoted_read('\'', s);
            lemma_one_part(parts[0], s);
        },
        ValueClass::DoubleQuoted => {
            lemma_quoted_read('"', s);
            lemma_one_part(parts[0], s);
        },
    }
}

/// No value has two shapes, so values that share one are given it.
pub proof fn values_of_one_shape_are_given_it(class: ValueClass, values: Seq<Seq<char>>)
    requires
        values.len() > 0,
        all_covered(class, values),
    ensures
        class_of(values) == Some(class),
{
    let v = values[0];
    assert(class.covers(v));
    lemma_uuid_places(v);
    assert forall|d: ValueClass| #[trigger] d.covers(v) implies d == class by {
        lemma_one_shape(class, d, v);
    }
    assert forall|i: int| 0 <= i < values.len() implies (#[trigger] values[i]).len() > 0 by {
        assert(class.covers(values[i]));
        lemma_uuid_places(values[i]);
        if class == ValueClass::Ipv4 {
            lemma_address_first(values[i]);
        }
    }
    assert forall|d: ValueClass| #[trigger] all_covered(d, values) implies d == class by {
        assert(d.covers(values[0]));
    }
}

/// Where the first of several pieces ends.
proof fn lemma_split_at(s: Seq<char>, sep: char) -> (n: int)
    requires
        split(s, sep).len() > 1,
    ensures
        0 <= n < s.len(),
        s[n] == sep,
        split(s, sep)[0] == s.take(n),
        split(s.skip(n + 1), sep) == split(s, sep).skip(1),
{
    lemma_split_step(s, sep);
    let n = split(s, sep)[0].len() as int;
    let first = split(s, sep)[0];
    assert((first + seq![sep] + s.skip(n + 1))[n] == sep);
    assert((first + seq![sep] + s.skip(n + 1)).take(n) =~= first);
    n
}

pub proof fn lemma_address_first(s: Seq<char>)
    requires
        is_ipv4(s),
    ensures
        s.len() >= 7,
        is_digit(s[0]),
        exists|a: int, b: int, c: int| #[trigger] address_places(s, a, b, c),
{
    let o = split(s, '.');
    assert(is_octet(o[0]) && is_octet(o[1]) && is_octet(o[2]) && is_octet(o[3]));
    let a = lemma_split_at(s, '.');
    let s1 = s.skip(a + 1);
    let x = lemma_split_at(s1, '.');
    let s2 = s1.skip(x + 1);
    let y = lemma_split_at(s2, '.');
    let s3 = s2.skip(y + 1);
    assert(split(s3, '.').len() == 1);
    lemma_split_step(s3, '.');
    let b = a + 1 + x;
    let c = b + 1 + y;
    lemma_address_joined(s, a, x, y, s1, s2, s3, o);
    assert(address_places(s, a, b, c));
    assert(s.take(a)[0] == s[0]);
}

proof fn lemma_address_joined(
    s: Seq<char>,
    a: int,
    x: int,
    y: int,
    s1: Seq<char>,
    s2: Seq<char>,
    s3: Seq<char>,
    o: Seq<Seq<char>>,
)
    requires
        0 <= a < s.len(),
        s[a] == '.',
        s1 == s.skip(a + 1),
        0 <= x < s1.len(),
        s1[x] == '.',
        s2 == s1.skip(x + 1),
        0 <= y < s2.len(),
        s2[y] == '.',
        s3 == s2.skip(y + 1),
        o.len() == 4,
        o[0] == s.take(a),
        o[1] == s1.take(x),
        o[2] == s2.take(y),
        o[3] == s3,
        is_octet(o[0]),
        is_octet(o[1]),
        is_octet(o[2]),
        is_octet(o[3]),
    ensures
        address_places(s, a, a + 1 + x, a + x + y + 2),
{
    let b = a + 1 + x;
    let c = b + 1 + y;
    assert(s.subrange(a + 1, b) =~= s1.take(x));
    assert(s.subrange(b + 1, c) =~= s2.take(y));
    assert(s.skip(c + 1) =~= s3);
    assert(s[b] == s1[x]);
    assert(s[c] == s2[y]);
}

proof fn lemma_one_shape(c: ValueClass, d: ValueClass, v: Seq<char>)
    requires
        c.covers(v),
        d.covers(v),
    ensures
        c == d,
{
    lemma_uuid_places(v);
    if is_ipv4(v) {
        lemma_address_first(v);
        let (x, y, z) = choose|x: int, y: int, z: int| #[trigger] address_places(v, x, y, z);
        assert(!is_digit(v[x]) && !is_hex_digit(v[x]));
        assert(!is_digit(v[y]));
        if is_decimal(v) {
            let n = span(v, not_point()) as int;
            lemma_span(v, not_point());
            assert(n <= x) by {
                if n > x {
                    assert(not_point()(v[x]));
                }
            }
            assert(v.skip(n + 1)[y - n - 1] == v[y]);
        }
        if is_prefixed_hex(v) {
            assert(v.skip(2)[y - 2] == v[y]);
        }
    }
    if is_uuid(v) {
        assert(!is_hex_digit(v[8]) && !is_digit(v[8]));
        assert(v.take(8)[0] == v[0]);
        assert(is_hex_digit(v[0]));
        if is_ipv4(v) {
            let (x, y, z) = choose|x: int, y: int, z: int| #[trigger] address_places(v, x, y, z);
            assert(v.len() <= 15);
        }
        if is_prefixed_hex(v) {
            assert(v.skip(2)[6] == v[8]);
        }
        if is_decimal(v) {
            let n = span(v, not_point()) as int;
            lemma_span(v, not_point());
            if n < 8 {
                assert(v.take(8)[n] == v[n]);
                assert(is_hex_digit(v[n]));
                assert(!not_point()(v[n]));
            } else if n == 8 {
                assert(!not_point()(v[n]));
            } else {
                assert(v.take(n)[8] == v[8]);
            }
        }
    }
    if is_decimal(v) {
        let n = span(v, not_point()) as int;
        lemma_span(v, not_point());
        assert(!not_point()(v[n]));
        assert(!is_digit(v[n]) && !is_hex_digit(v[n]));
        assert(v.take(n)[0] == v[0]);
        assert(is_digit(v[0]));
        if is_prefixed_hex(v) {
            assert(n > 0);
            if n >= 2 {
                assert(v.take(n)[1] == v[1]);
            }
        }
    }
    if is_prefixed_hex(v) {
        assert(!is_digit(v[1]) && !is_hex_digit(v[1]));
    }
    if is_bare_hex(v) {
        let k = choose|k: int| 0 <= k < v.len() && is_letter(#[trigger] v[k]);
        assert(!is_digit(v[k]));
        assert(is_hex_digit(v[0]));
    }
}

} // verus!
