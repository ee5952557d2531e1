//! Text primitives over the characters of a string.
//!
//! Every function here is stated over `Seq<char>`, the view of `str` and `String`.

use vstd::prelude::*;
use vstd::utf8::encode_utf8;

verus! {

/// `String::push` appends one character.
pub assume_specification[ String::push ](s: &mut String, c: char)
    ensures
        final(s)@ == old(s)@.push(c),
;

/// `==` on `str` holds exactly when both hold the same characters.
#[verifier::external_body]
pub(crate) fn same_text(a: &str, b: &str) -> (r: bool)
    ensures
        r == (a@ == b@),
{
    a == b
}

/// The name of what `str::to_lowercase` gives for a text.
pub uninterp spec fn lowercase_of(s: Seq<char>) -> Seq<char>;

/// `str::to_lowercase` on the whole text. Of ASCII text it makes the capital letters small and
/// leaves the rest; the mapping of other characters is only named.
#[verifier::external_body]
pub(crate) fn lowercase(s: &str) -> (r: String)
    ensures
        r@ == lowercase_of(s@),
        is_ascii(s@) ==> r@ == lowered(s@),
{
    s.to_lowercase()
}

/// The name of what `{:?}` writes for a text: quoted, with escapes.
pub uninterp spec fn debug_quoted(s: Seq<char>) -> Seq<char>;

/// The `Debug` form of `str`; the escaping itself is only named.
#[verifier::external_body]
pub(crate) fn debug_text(s: &str) -> (r: String)
    ensures
        r@ == debug_quoted(s@),
{
    format!("{s:?}")
}

/// The name of what `String::from_utf8_lossy` reads from bytes.
pub uninterp spec fn lossy_of(bytes: Seq<u8>) -> Seq<char>;

/// `String::from_utf8_lossy`. The bytes of a text give that text; how it replaces what is no
/// UTF-8 is only named.
#[verifier::external_body]
pub(crate) fn lossy_text(bytes: &[u8]) -> (r: String)
    ensures
        r@ == lossy_of(bytes@),
        forall|s: Seq<char>| bytes@ == #[trigger] encode_utf8(s) ==> r@ == s,
{
    String::from_utf8_lossy(bytes).into_owned()
}

// ---------------------------------------------------------------------------
// Characters
// ---------------------------------------------------------------------------

/// The characters with the Unicode property `White_Space`.
pub open spec fn is_space(c: char) -> bool {
    let n = c as u32;
    ||| 0x09 <= n <= 0x0d
    ||| n == 0x20
    ||| n == 0x85
    ||| n == 0xa0
    ||| n == 0x1680
    ||| 0x2000 <= n <= 0x200a
    ||| n == 0x2028
    ||| n == 0x2029
    ||| n == 0x202f
    ||| n == 0x205f
    ||| n == 0x3000
}

pub open spec fn is_digit(c: char) -> bool {
    '0' <= c && c <= '9'
}

pub open spec fn is_hex_digit(c: char) -> bool {
    is_digit(c) || ('a' <= c && c <= 'f') || ('A' <= c && c <= 'F')
}

pub open spec fn is_letter(c: char) -> bool {
    ('a' <= c && c <= 'z') || ('A' <= c && c <= 'Z')
}

pub open spec fn is_ascii(s: Seq<char>) -> bool {
    forall|i: int| 0 <= i < s.len() ==> (#[trigger] s[i]) as u32 <= 127
}

/// A capital letter made small; every other character stays.
pub open spec fn small_letter(c: char) -> char {
    if 'A' <= c && c <= 'Z' {
        (c as u32 + 32) as char
    } else {
        c
    }
}

/// The text with its capital letters (of the English alphabet) made small.
pub open spec fn lowered(s: Seq<char>) -> Seq<char> {
    s.map_values(|c: char| small_letter(c))
}

pub open spec fn is_alphanumeric(c: char) -> bool {
    is_letter(c) || is_digit(c)
}

pub fn char_is_space(c: char) -> (r: bool)
    ensures
        r == is_space(c),
{
    let n: u32 = c as u32;
    (0x09 <= n && n <= 0x0d) || n == 0x20 || n == 0x85 || n == 0xa0 || n == 0x1680 || (0x2000 <= n
        && n <= 0x200a) || n == 0x2028 || n == 0x2029 || n == 0x202f || n == 0x205f || n == 0x3000
}

pub fn char_is_digit(c: char) -> (r: bool)
    ensures
        r == is_digit(c),
{
    '0' <= c && c <= '9'
}

pub fn char_is_hex_digit(c: char) -> (r: bool)
    ensures
        r == is_hex_digit(c),
{
    char_is_digit(c) || ('a' <= c && c <= 'f') || ('A' <= c && c <= 'F')
}

pub fn char_is_letter(c: char) -> (r: bool)
    ensures
        r == is_letter(c),
{
    ('a' <= c && c <= 'z') || ('A' <= c && c <= 'Z')
}

pub fn char_is_alphanumeric(c: char) -> (r: bool)
    ensures
        r == is_alphanumeric(c),
{
    char_is_letter(c) || char_is_digit(c)
}

/// The predicate "is white space".
pub open spec fn space() -> spec_fn(char) -> bool {
    |c: char| is_space(c)
}

/// The predicate "is not white space".
pub open spec fn ink() -> spec_fn(char) -> bool {
    |c: char| !is_space(c)
}

/// The predicate "is not `c`".
pub open spec fn not_char(c: char) -> spec_fn(char) -> bool {
    |x: char| x != c
}

/// The predicate "is `c`".
pub open spec fn is_char(c: char) -> spec_fn(char) -> bool {
    |x: char| x == c
}

// ---------------------------------------------------------------------------
// Between strings and characters
// ---------------------------------------------------------------------------

pub fn chars_of(s: &str) -> (r: Vec<char>)
    ensures
        r@ == s@,
{
    let mut out: Vec<char> = Vec::new();
    for c in it: s.chars()
        invariant
            it.seq() == s@,
            out@ == s@.take(it.index() as int),
    {
        out.push(c);
        assert(s@.take(it.index() as int + 1) == s@.take(it.index() as int).push(c));
    }
    out
}

/// The characters `from..to` as a string.
pub fn string_of(chars: &[char], from: usize, to: usize) -> (r: String)
    requires
        from <= to <= chars@.len(),
    ensures
        r@ == chars@.subrange(from as int, to as int),
{
    let mut out = String::new();
    let mut i: usize = from;
    while i < to
        invariant
            from <= i <= to <= chars@.len(),
            out@ == chars@.subrange(from as int, i as int),
        decreases to - i,
    {
        out.push(chars[i]);
        assert(chars@.subrange(from as int, i + 1) == chars@.subrange(from as int, i as int).push(
            chars@[i as int],
        ));
        i = i + 1;
    }
    out
}

/// The views of a list of strings.
pub open spec fn texts(v: Seq<String>) -> Seq<Seq<char>> {
    v.map_values(|s: String| s@)
}

/// The views of a list of string slices.
pub open spec fn strs(v: Seq<&str>) -> Seq<Seq<char>> {
    v.map_values(|s: &str| s@)
}

/// The view of an optional string.
pub open spec fn opt_text(o: Option<String>) -> Option<Seq<char>> {
    match o {
        Some(s) => Some(s@),
        None => None,
    }
}

/// The view of an optional string slice.
pub open spec fn opt_str(o: Option<&str>) -> Option<Seq<char>> {
    match o {
        Some(s) => Some(s@),
        None => None,
    }
}

pub fn same_option(a: &Option<String>, b: &Option<String>) -> (r: bool)
    ensures
        r == (opt_text(*a) == opt_text(*b)),
{
    match (a, b) {
        (Some(x), Some(y)) => same_text(x.as_str(), y.as_str()),
        (None, None) => true,
        _ => false,
    }
}

/// Whether `list` holds the text `s`.
pub fn list_has(list: &[String], s: &str) -> (r: bool)
    ensures
        r == texts(list@).contains(s@),
{
    for i in 0..list.len()
        invariant
            forall|j: int| 0 <= j < i ==> list@[j]@ != s@,
    {
        if same_text(list[i].as_str(), s) {
            assert(texts(list@)[i as int] == s@);
            return true;
        }
    }
    assert forall|j: int| 0 <= j < texts(list@).len() implies texts(list@)[j] != s@ by {}
    false
}

// ---------------------------------------------------------------------------
// Runs of characters
// ---------------------------------------------------------------------------

/// How many characters at the start of `s` satisfy `p`, before the first that does not.
pub open spec fn span(s: Seq<char>, p: spec_fn(char) -> bool) -> nat
    decreases s.len(),
{
    if s.len() > 0 && p(s[0]) {
        1 + span(s.skip(1), p)
    } else {
        0
    }
}

/// How many characters at the end of `s` satisfy `p`, after the last that does not.
pub open spec fn span_end(s: Seq<char>, p: spec_fn(char) -> bool) -> nat
    decreases s.len(),
{
    if s.len() > 0 && p(s.last()) {
        1 + span_end(s.drop_last(), p)
    } else {
        0
    }
}

pub proof fn lemma_span(s: Seq<char>, p: spec_fn(char) -> bool)
    ensures
        span(s, p) <= s.len(),
        forall|i: int| 0 <= i < span(s, p) ==> p(#[trigger] s[i]),
        span(s, p) < s.len() ==> !p(s[span(s, p) as int]),
    decreases s.len(),
{
    if s.len() > 0 && p(s[0]) {
        let t = s.skip(1);
        lemma_span(t, p);
        assert forall|i: int| 0 <= i < span(s, p) implies p(#[trigger] s[i]) by {
            if i > 0 {
                assert(t[i - 1] == s[i]);
            }
        }
    }
}

pub proof fn lemma_span_is(s: Seq<char>, p: spec_fn(char) -> bool, n: nat)
    requires
        n <= s.len(),
        forall|i: int| 0 <= i < n ==> p(#[trigger] s[i]),
        n < s.len() ==> !p(s[n as int]),
    ensures
        span(s, p) == n,
{
    lemma_span(s, p);
    if span(s, p) < n {
        assert(p(s[span(s, p) as int]));
    }
    if n < span(s, p) {
        assert(p(s[n as int]));
    }
}

pub proof fn lemma_span_end(s: Seq<char>, p: spec_fn(char) -> bool)
    ensures
        span_end(s, p) <= s.len(),
        forall|i: int| s.len() - span_end(s, p) <= i < s.len() ==> p(#[trigger] s[i]),
        span_end(s, p) < s.len() ==> !p(s[s.len() - span_end(s, p) - 1]),
    decreases s.len(),
{
    if s.len() > 0 && p(s.last()) {
        let t = s.drop_last();
        lemma_span_end(t, p);
        assert forall|i: int| s.len() - span_end(s, p) <= i < s.len() implies p(
            #[trigger] s[i],
        ) by {
            if i < s.len() - 1 {
                assert(t[i] == s[i]);
            }
        }
    }
}

pub proof fn lemma_span_end_is(s: Seq<char>, p: spec_fn(char) -> bool, n: nat)
    requires
        n <= s.len(),
        forall|i: int| s.len() - n <= i < s.len() ==> p(#[trigger] s[i]),
        n < s.len() ==> !p(s[s.len() - n - 1]),
    ensures
        span_end(s, p) == n,
{
    lemma_span_end(s, p);
    if span_end(s, p) < n {
        assert(p(s[s.len() - span_end(s, p) - 1]));
    }
    if n < span_end(s, p) {
        assert(p(s[s.len() - n - 1]));
    }
}

/// The length of the run of `p` that starts at `from`.
pub(crate) fn run_from<F: Fn(char) -> bool>(
    chars: &[char],
    from: usize,
    f: F,
    Ghost(p): Ghost<spec_fn(char) -> bool>,
) -> (n: usize)
    requires
        from <= chars@.len(),
        forall|c: char| #[trigger] f.requires((c,)),
        forall|c: char, b: bool| #[trigger] f.ensures((c,), b) ==> b == p(c),
    ensures
        n == span(chars@.skip(from as int), p),
        from + n <= chars@.len(),
{
    let ghost rest = chars@.skip(from as int);
    let mut i: usize = from;
    while i < chars.len()
        invariant
            from <= i <= chars@.len(),
            rest == chars@.skip(from as int),
            forall|j: int| 0 <= j < i - from ==> p(#[trigger] rest[j]),
            forall|c: char| #[trigger] f.requires((c,)),
            forall|c: char, b: bool| #[trigger] f.ensures((c,), b) ==> b == p(c),
        ensures
            from <= i <= chars@.len(),
            i < chars@.len() ==> !p(rest[i - from]),
            forall|j: int| 0 <= j < i - from ==> p(#[trigger] rest[j]),
        decreases chars@.len() - i,
    {
        assert(rest[i - from] == chars@[i as int]);
        if !f(chars[i]) {
            break;
        }
        i = i + 1;
    }
    proof {
        lemma_span_is(rest, p, (i - from) as nat);
    }
    i - from
}

/// The length of the run of `p` that ends at `to`.
pub(crate) fn run_before<F: Fn(char) -> bool>(
    chars: &[char],
    to: usize,
    f: F,
    Ghost(p): Ghost<spec_fn(char) -> bool>,
) -> (n: usize)
    requires
        to <= chars@.len(),
        forall|c: char| #[trigger] f.requires((c,)),
        forall|c: char, b: bool| #[trigger] f.ensures((c,), b) ==> b == p(c),
    ensures
        n == span_end(chars@.take(to as int), p),
        n <= to,
{
    let ghost rest = chars@.take(to as int);
    let mut i: usize = to;
    while i > 0
        invariant
            i <= to <= chars@.len(),
            rest == chars@.take(to as int),
            forall|j: int| i <= j < to ==> p(#[trigger] rest[j]),
            forall|c: char| #[trigger] f.requires((c,)),
            forall|c: char, b: bool| #[trigger] f.ensures((c,), b) ==> b == p(c),
        ensures
            i <= to,
            i > 0 ==> !p(rest[i - 1]),
            forall|j: int| i <= j < to ==> p(#[trigger] rest[j]),
        decreases i,
    {
        assert(rest[i - 1] == chars@[i - 1]);
        if !f(chars[i - 1]) {
            break;
        }
        i = i - 1;
    }
    proof {
        lemma_span_end_is(rest, p, (to - i) as nat);
    }
    to - i
}

// ---------------------------------------------------------------------------
// Trimming
// ---------------------------------------------------------------------------

pub open spec fn trim_start_by(s: Seq<char>, p: spec_fn(char) -> bool) -> Seq<char> {
    s.skip(span(s, p) as int)
}

pub open spec fn trim_end_by(s: Seq<char>, p: spec_fn(char) -> bool) -> Seq<char> {
    s.take(s.len() - span_end(s, p))
}

/// `s` without the white space around it.
pub open spec fn trimmed(s: Seq<char>) -> Seq<char> {
    trim_end_by(trim_start_by(s, space()), space())
}

/// Whether nothing but white space is in `s`.
pub open spec fn is_blank(s: Seq<char>) -> bool {
    trimmed(s).len() == 0
}

pub(crate) fn trim_start_with<'a, F: Fn(char) -> bool>(
    s: &'a str,
    f: F,
    Ghost(p): Ghost<spec_fn(char) -> bool>,
) -> (r: &'a str)
    requires
        forall|c: char| #[trigger] f.requires((c,)),
        forall|c: char, b: bool| #[trigger] f.ensures((c,), b) ==> b == p(c),
    ensures
        r@ == trim_start_by(s@, p),
{
    let chars = chars_of(s);
    let n: usize = run_from(chars.as_slice(), 0, f, Ghost(p));
    assert(s@.skip(0) == s@);
    let r = s.substring_char(n, chars.len());
    assert(r@ == s@.skip(n as int));
    r
}

pub(crate) fn trim_end_with<'a, F: Fn(char) -> bool>(
    s: &'a str,
    f: F,
    Ghost(p): Ghost<spec_fn(char) -> bool>,
) -> (r: &'a str)
    requires
        forall|c: char| #[trigger] f.requires((c,)),
        forall|c: char, b: bool| #[trigger] f.ensures((c,), b) ==> b == p(c),
    ensures
        r@ == trim_end_by(s@, p),
{
    let chars = chars_of(s);
    let n: usize = run_before(chars.as_slice(), chars.len(), f, Ghost(p));
    assert(s@.take(s@.len() as int) == s@);
    let r = s.substring_char(0, chars.len() - n);
    assert(r@ == s@.take(s@.len() - n));
    r
}

pub fn trim<'a>(s: &'a str) -> (r: &'a str)
    ensures
        r@ == trimmed(s@),
{
    let is_white = |c: char| -> (b: bool)
        ensures
            b == is_space(c),
        { char_is_space(c) };
    let start = trim_start_with(s, is_white, Ghost(space()));
    trim_end_with(start, is_white, Ghost(space()))
}

/// Whether `s` holds nothing but white space.
pub fn blank(s: &str) -> (r: bool)
    ensures
        r == is_blank(s@),
{
    let t = trim(s);
    t.unicode_len() == 0
}

/// Every leading `c` taken off.
pub fn trim_start_char<'a>(s: &'a str, c: char) -> (r: &'a str)
    ensures
        r@ == trim_start_by(s@, is_char(c)),
{
    let f = |x: char| -> (b: bool)
        ensures
            b == (x == c),
        { x == c };
    trim_start_with(s, f, Ghost(is_char(c)))
}

/// Every trailing `c` taken off.
pub fn trim_end_char<'a>(s: &'a str, c: char) -> (r: &'a str)
    ensures
        r@ == trim_end_by(s@, is_char(c)),
{
    let f = |x: char| -> (b: bool)
        ensures
            b == (x == c),
        { x == c };
    trim_end_with(s, f, Ghost(is_char(c)))
}

// ---------------------------------------------------------------------------
// Prefixes, suffixes and search
// ---------------------------------------------------------------------------

pub open spec fn starts_with(s: Seq<char>, prefix: Seq<char>) -> bool {
    prefix.len() <= s.len() && s.take(prefix.len() as int) == prefix
}

pub open spec fn ends_with(s: Seq<char>, suffix: Seq<char>) -> bool {
    suffix.len() <= s.len() && s.skip(s.len() - suffix.len()) == suffix
}

/// Where `needle` first occurs in `s` at or after `from`.
pub open spec fn find_from(s: Seq<char>, needle: Seq<char>, from: int) -> Option<int>
    decreases s.len() + 1 - from,
{
    if from < 0 || from + needle.len() > s.len() {
        None
    } else if s.subrange(from, from + needle.len()) == needle {
        Some(from)
    } else {
        find_from(s, needle, from + 1)
    }
}

/// Where `needle` first occurs in `s`.
pub open spec fn find(s: Seq<char>, needle: Seq<char>) -> Option<int> {
    find_from(s, needle, 0)
}

/// The text on either side of the first `sep`.
pub open spec fn split_once(s: Seq<char>, sep: Seq<char>) -> Option<(Seq<char>, Seq<char>)> {
    match find(s, sep) {
        Some(i) => Some((s.take(i), s.skip(i + sep.len()))),
        None => None,
    }
}

pub open spec fn strip_prefix(s: Seq<char>, prefix: Seq<char>) -> Option<Seq<char>> {
    if starts_with(s, prefix) {
        Some(s.skip(prefix.len() as int))
    } else {
        None
    }
}

pub open spec fn strip_suffix(s: Seq<char>, suffix: Seq<char>) -> Option<Seq<char>> {
    if ends_with(s, suffix) {
        Some(s.take(s.len() - suffix.len()))
    } else {
        None
    }
}

/// Whether `needle` stands in `chars` at `at`.
pub(crate) fn stands_at(chars: &[char], needle: &[char], at: usize) -> (r: bool)
    requires
        at + needle@.len() <= chars@.len(),
    ensures
        r == (chars@.subrange(at as int, at + needle@.len()) == needle@),
{
    let ghost here = chars@.subrange(at as int, at + needle@.len());
    let total: usize = chars.len();
    let mut i: usize = 0;
    while i < needle.len()
        invariant
            total == chars@.len(),
            i <= needle@.len(),
            at + needle@.len() <= chars@.len(),
            here == chars@.subrange(at as int, at + needle@.len()),
            forall|j: int| 0 <= j < i ==> here[j] == needle@[j],
        decreases needle@.len() - i,
    {
        if chars[at + i] != needle[i] {
            assert(here[i as int] != needle@[i as int]);
            return false;
        }
        i = i + 1;
    }
    assert(here =~= needle@);
    true
}

pub fn text_starts_with(s: &str, prefix: &str) -> (r: bool)
    ensures
        r == starts_with(s@, prefix@),
{
    let chars = chars_of(s);
    let needle = chars_of(prefix);
    if needle.len() > chars.len() {
        return false;
    }
    assert(s@.take(prefix@.len() as int) == s@.subrange(0, 0 + prefix@.len() as int));
    stands_at(chars.as_slice(), needle.as_slice(), 0)
}

pub fn text_ends_with(s: &str, suffix: &str) -> (r: bool)
    ensures
        r == ends_with(s@, suffix@),
{
    let chars = chars_of(s);
    let needle = chars_of(suffix);
    if needle.len() > chars.len() {
        return false;
    }
    let at: usize = chars.len() - needle.len();
    assert(s@.skip(at as int) == s@.subrange(at as int, at + suffix@.len()));
    stands_at(chars.as_slice(), needle.as_slice(), at)
}

pub fn text_strip_prefix<'a>(s: &'a str, prefix: &str) -> (r: Option<&'a str>)
    ensures
        opt_str(r) == strip_prefix(s@, prefix@),
{
    if !text_starts_with(s, prefix) {
        return None;
    }
    let rest = s.substring_char(prefix.unicode_len(), s.unicode_len());
    assert(rest@ == s@.skip(prefix@.len() as int));
    Some(rest)
}

pub fn text_strip_suffix<'a>(s: &'a str, suffix: &str) -> (r: Option<&'a str>)
    ensures
        opt_str(r) == strip_suffix(s@, suffix@),
{
    if !text_ends_with(s, suffix) {
        return None;
    }
    let rest = s.substring_char(0, s.unicode_len() - suffix.unicode_len());
    assert(rest@ == s@.take(s@.len() - suffix@.len()));
    Some(rest)
}

proof fn lemma_find_from(s: Seq<char>, needle: Seq<char>, from: int, to: int)
    requires
        0 <= from <= to,
        forall|k: int|
            from <= k < to && k + needle.len() <= s.len() ==> s.subrange(k, #[trigger] (k
                + needle.len())) != needle,
    ensures
        to + needle.len() > s.len() ==> find_from(s, needle, from) is None,
        to + needle.len() <= s.len() ==> find_from(s, needle, from) == find_from(s, needle, to),
    decreases to - from,
{
    if from < to {
        if from + needle.len() <= s.len() {
            let k = from;
            assert(s.subrange(k, k + needle.len()) != needle);
        }
        lemma_find_from(s, needle, from + 1, to);
    }
}

/// The position of the first `needle` at or after `from`.
pub(crate) fn position_from(chars: &[char], needle: &[char], from: usize) -> (r: Option<usize>)
    requires
        from <= chars@.len(),
    ensures
        match r {
            Some(i) => find_from(chars@, needle@, from as int) == Some(i as int) && from <= i && i
                + needle@.len() <= chars@.len(),
            None => find_from(chars@, needle@, from as int) is None,
        },
{
    let mut i: usize = from;
    while i <= chars.len() && needle.len() <= chars.len() - i
        invariant
            from <= i <= chars@.len() + 1,
            forall|k: int|
                from <= k < i && k + needle@.len() <= chars@.len() ==> chars@.subrange(
                    k,
                    #[trigger] (k + needle@.len()),
                ) != needle@,
        decreases chars@.len() + 1 - i,
    {
        if stands_at(chars, needle, i) {
            proof {
                lemma_find_from(chars@, needle@, from as int, i as int);
            }
            return Some(i);
        }
        if i == usize::MAX {
            assert(chars@.len() <= usize::MAX);
            proof {
                lemma_find_from(chars@, needle@, from as int, i as int + 1);
            }
            return None;
        }
        i = i + 1;
    }
    proof {
        lemma_find_from(chars@, needle@, from as int, i as int);
    }
    None
}

pub fn text_contains(s: &str, needle: &str) -> (r: bool)
    ensures
        r == find(s@, needle@) is Some,
{
    let chars = chars_of(s);
    let sought = chars_of(needle);
    position_from(chars.as_slice(), sought.as_slice(), 0).is_some()
}

pub fn text_split_once<'a>(s: &'a str, sep: &str) -> (r: Option<(&'a str, &'a str)>)
    ensures
        match r {
            Some((a, b)) => split_once(s@, sep@) == Some((a@, b@)),
            None => split_once(s@, sep@) is None,
        },
{
    let chars = chars_of(s);
    let sought = chars_of(sep);
    let total: usize = chars.len();
    match position_from(chars.as_slice(), sought.as_slice(), 0) {
        Some(i) => {
            let a = s.substring_char(0, i);
            let b = s.substring_char(i + sought.len(), total);
            assert(a@ == s@.take(i as int));
            assert(b@ == s@.skip(i + sep@.len()));
            Some((a, b))
        },
        None => None,
    }
}

// ---------------------------------------------------------------------------
// Pieces
// ---------------------------------------------------------------------------

/// The pieces between the `sep` characters; always at least one.
pub open spec fn split(s: Seq<char>, sep: char) -> Seq<Seq<char>>
    decreases s.len(),
{
    let n = span(s, not_char(sep)) as int;
    if n >= s.len() {
        seq![s]
    } else {
        seq![s.take(n)] + split(s.skip(n + 1), sep)
    }
}

/// The runs of characters between white space.
pub open spec fn words(s: Seq<char>) -> Seq<Seq<char>>
    decreases s.len(),
{
    let rest = trim_start_by(s, space());
    let n = span(rest, ink()) as int;
    if n == 0 {
        Seq::empty()
    } else {
        proof {
            lemma_span(s, space());
            lemma_span(rest, ink());
        }
        seq![rest.take(n)] + words(rest.skip(n))
    }
}

/// A line without the carriage return before its line feed.
pub open spec fn without_cr(s: Seq<char>) -> Seq<char> {
    if s.len() > 0 && s.last() == '\r' {
        s.drop_last()
    } else {
        s
    }
}

/// The lines of `s`: each ends at a line feed (or carriage return and line feed), the last
/// one at the end of the text.
pub open spec fn lines(s: Seq<char>) -> Seq<Seq<char>>
    decreases s.len(),
{
    let n = span(s, not_char('\n')) as int;
    if s.len() == 0 {
        Seq::empty()
    } else if n >= s.len() {
        seq![s]
    } else {
        seq![without_cr(s.take(n))] + lines(s.skip(n + 1))
    }
}

/// `parts` one after the other, with `sep` between them.
pub open spec fn join(parts: Seq<Seq<char>>, sep: Seq<char>) -> Seq<char>
    decreases parts.len(),
{
    if parts.len() == 0 {
        Seq::empty()
    } else if parts.len() == 1 {
        parts[0]
    } else {
        join(parts.drop_last(), sep) + sep + parts.last()
    }
}

pub fn text_split<'a>(s: &'a str, sep: char) -> (r: Vec<&'a str>)
    ensures
        strs(r@) == split(s@, sep),
{
    let chars = chars_of(s);
    let mut out: Vec<&'a str> = Vec::new();
    let mut from: usize = 0;
    let f = |x: char| -> (b: bool)
        ensures
            b == (x != sep),
        { x != sep };
    assert(s@.skip(0) == s@);
    let total: usize = chars.len();
    loop
        invariant
            chars@ == s@,
            total == s@.len(),
            from <= s@.len(),
            strs(out@) + split(s@.skip(from as int), sep) == split(s@, sep),
            forall|c: char| #[trigger] f.requires((c,)),
            forall|c: char, b: bool| #[trigger] f.ensures((c,), b) ==> b == (c != sep),
        decreases s@.len() - from,
    {
        let n: usize = run_from(chars.as_slice(), from, f, Ghost(not_char(sep)));
        let ghost rest = s@.skip(from as int);
        let piece = s.substring_char(from, from + n);
        let ghost before = strs(out@);
        out.push(piece);
        assert(strs(out@) == before.push(piece@));
        assert(piece@ == rest.take(n as int));
        if from + n >= total {
            assert(rest.take(n as int) == rest);
            assert(before + seq![rest] == before.push(rest));
            return out;
        }
        assert(rest.skip(n + 1) == s@.skip(from + n + 1));
        assert(before + (seq![rest.take(n as int)] + split(rest.skip(n + 1), sep)) == before.push(
            rest.take(n as int),
        ) + split(rest.skip(n + 1), sep));
        from = from + n + 1;
    }
}

pub fn text_words<'a>(s: &'a str) -> (r: Vec<&'a str>)
    ensures
        strs(r@) == words(s@),
{
    let chars = chars_of(s);
    let mut out: Vec<&'a str> = Vec::new();
    let mut from: usize = 0;
    let white = |x: char| -> (b: bool)
        ensures
            b == is_space(x),
        { char_is_space(x) };
    let inked = |x: char| -> (b: bool)
        ensures
            b == !is_space(x),
        { !char_is_space(x) };
    assert(s@.skip(0) == s@);
    let total: usize = chars.len();
    loop
        invariant
            chars@ == s@,
            total == s@.len(),
            from <= s@.len(),
            strs(out@) + words(s@.skip(from as int)) == words(s@),
            forall|c: char| #[trigger] white.requires((c,)),
            forall|c: char, b: bool| #[trigger] white.ensures((c,), b) ==> b == is_space(c),
            forall|c: char| #[trigger] inked.requires((c,)),
            forall|c: char, b: bool| #[trigger] inked.ensures((c,), b) ==> b == !is_space(c),
        decreases s@.len() - from,
    {
        let ghost rest = s@.skip(from as int);
        let gap: usize = run_from(chars.as_slice(), from, white, Ghost(space()));
        let start: usize = from + gap;
        let n: usize = run_from(chars.as_slice(), start, inked, Ghost(ink()));
        let ghost inner = trim_start_by(rest, space());
        assert(inner == s@.skip(start as int));
        if n == 0 {
            assert(strs(out@) + Seq::<Seq<char>>::empty() == strs(out@));
            return out;
        }
        let piece = s.substring_char(start, start + n);
        let ghost before = strs(out@);
        out.push(piece);
        assert(strs(out@) == before.push(piece@));
        assert(piece@ == inner.take(n as int));
        assert(inner.skip(n as int) == s@.skip(start + n));
        assert(before + (seq![inner.take(n as int)] + words(inner.skip(n as int))) == before.push(
            inner.take(n as int),
        ) + words(inner.skip(n as int)));
        from = start + n;
    }
}

pub fn text_lines<'a>(s: &'a str) -> (r: Vec<&'a str>)
    ensures
        strs(r@) == lines(s@),
{
    let chars = chars_of(s);
    let mut out: Vec<&'a str> = Vec::new();
    let mut from: usize = 0;
    let f = |x: char| -> (b: bool)
        ensures
            b == (x != '\n'),
        { x != '\n' };
    assert(s@.skip(0) == s@);
    while from < chars.len()
        invariant
            chars@ == s@,
            from <= s@.len(),
            strs(out@) + lines(s@.skip(from as int)) == lines(s@),
            forall|c: char| #[trigger] f.requires((c,)),
            forall|c: char, b: bool| #[trigger] f.ensures((c,), b) ==> b == (c != '\n'),
        decreases s@.len() - from,
    {
        let n: usize = run_from(chars.as_slice(), from, f, Ghost(not_char('\n')));
        let ghost rest = s@.skip(from as int);
        let ghost before = strs(out@);
        if from + n >= chars.len() {
            let piece = s.substring_char(from, chars.len());
            assert(piece@ == rest);
            out.push(piece);
            assert(strs(out@) == before.push(rest));
            assert(before + seq![rest] == before.push(rest));
            return out;
        }
        let ghost line = rest.take(n as int);
        let mut to: usize = from + n;
        if n > 0 && chars[to - 1] == '\r' {
            to = to - 1;
        }
        let piece = s.substring_char(from, to);
        assert(n > 0 ==> line.last() == s@[from + n - 1]);
        assert(piece@ == without_cr(line));
        out.push(piece);
        assert(strs(out@) == before.push(piece@));
        assert(rest.skip(n + 1) == s@.skip(from + n + 1));
        assert(before + (seq![without_cr(line)] + lines(rest.skip(n + 1))) == before.push(
            without_cr(line),
        ) + lines(rest.skip(n + 1)));
        from = from + n + 1;
    }
    assert(s@.skip(from as int).len() == 0);
    assert(strs(out@) + Seq::<Seq<char>>::empty() == strs(out@));
    out
}

pub fn join_strs(parts: &[&str], sep: &str) -> (r: String)
    ensures
        r@ == join(strs(parts@), sep@),
{
    let mut out = String::new();
    let ghost all = strs(parts@);
    for i in 0..parts.len()
        invariant
            all == strs(parts@),
            out@ == join(all.take(i as int), sep@),
    {
        let ghost more = all.take(i + 1);
        assert(more.drop_last() == all.take(i as int));
        assert(more.last() == parts@[i as int]@);
        if i > 0 {
            out.append(sep);
        } else {
            assert(Seq::<char>::empty() + parts@[0]@ == parts@[0]@);
        }
        out.append(parts[i]);
    }
    assert(all.take(parts@.len() as int) == all);
    out
}

pub fn join_strings(parts: &[String], sep: &str) -> (r: String)
    ensures
        r@ == join(texts(parts@), sep@),
{
    let mut out = String::new();
    let ghost all = texts(parts@);
    for i in 0..parts.len()
        invariant
            all == texts(parts@),
            out@ == join(all.take(i as int), sep@),
    {
        let ghost more = all.take(i + 1);
        assert(more.drop_last() == all.take(i as int));
        assert(more.last() == parts@[i as int]@);
        if i > 0 {
            out.append(sep);
        } else {
            assert(Seq::<char>::empty() + parts@[0]@ == parts@[0]@);
        }
        out.append(parts[i].as_str());
    }
    assert(all.take(parts@.len() as int) == all);
    out
}

// ---------------------------------------------------------------------------
// Order
// ---------------------------------------------------------------------------

/// The dictionary order of texts by code point, which is also the order of their UTF-8 bytes.
pub open spec fn text_less(a: Seq<char>, b: Seq<char>) -> bool
    decreases a.len(),
{
    if b.len() == 0 {
        false
    } else if a.len() == 0 {
        true
    } else if a[0] != b[0] {
        a[0] < b[0]
    } else {
        text_less(a.skip(1), b.skip(1))
    }
}

pub fn is_text_less(a: &str, b: &str) -> (r: bool)
    ensures
        r == text_less(a@, b@),
{
    let x = chars_of(a);
    let y = chars_of(b);
    let mut i: usize = 0;
    assert(a@.skip(0) == a@ && b@.skip(0) == b@);
    while i < x.len() && i < y.len()
        invariant
            x@ == a@,
            y@ == b@,
            i <= a@.len(),
            i <= b@.len(),
            text_less(a@, b@) == text_less(a@.skip(i as int), b@.skip(i as int)),
        decreases a@.len() - i,
    {
        if x[i] != y[i] {
            return x[i] < y[i];
        }
        assert(a@.skip(i as int).skip(1) == a@.skip(i + 1));
        assert(b@.skip(i as int).skip(1) == b@.skip(i + 1));
        i = i + 1;
    }
    i < y.len()
}

pub proof fn lemma_text_less_irreflexive(a: Seq<char>)
    ensures
        !text_less(a, a),
    decreases a.len(),
{
    if a.len() > 0 {
        lemma_text_less_irreflexive(a.skip(1));
    }
}

pub proof fn lemma_text_less_transitive(a: Seq<char>, b: Seq<char>, c: Seq<char>)
    requires
        text_less(a, b),
        text_less(b, c),
    ensures
        text_less(a, c),
    decreases a.len(),
{
    if a.len() > 0 && a[0] == b[0] && b[0] == c[0] {
        lemma_text_less_transitive(a.skip(1), b.skip(1), c.skip(1));
    }
}

pub proof fn lemma_text_less_total(a: Seq<char>, b: Seq<char>)
    requires
        !text_less(a, b),
        !text_less(b, a),
    ensures
        a == b,
    decreases a.len(),
{
    if a.len() > 0 && b.len() > 0 {
        lemma_text_less_total(a.skip(1), b.skip(1));
        assert(a == seq![a[0]] + a.skip(1));
        assert(b == seq![b[0]] + b.skip(1));
    } else {
        assert(a =~= b);
    }
}

// ---------------------------------------------------------------------------
// Numbers
// ---------------------------------------------------------------------------

pub open spec fn digit_char(d: int) -> char {
    if d == 0 {
        '0'
    } else if d == 1 {
        '1'
    } else if d == 2 {
        '2'
    } else if d == 3 {
        '3'
    } else if d == 4 {
        '4'
    } else if d == 5 {
        '5'
    } else if d == 6 {
        '6'
    } else if d == 7 {
        '7'
    } else if d == 8 {
        '8'
    } else {
        '9'
    }
}

/// A hexadecimal digit.
pub open spec fn hex_digit(d: int) -> char {
    if d < 10 {
        ('0' as int + d) as char
    } else {
        ('a' as int + d - 10) as char
    }
}

pub fn hex_char(d: u8) -> (c: char)
    requires
        d < 16,
    ensures
        c == hex_digit(d as int),
        is_hex_digit(c),
{
    if d < 10 {
        (48 + d) as char
    } else {
        (97 + (d - 10)) as char
    }
}

/// The decimal digits of `n`, without leading zeros.
pub open spec fn decimal(n: nat) -> Seq<char>
    decreases n,
{
    if n < 10 {
        seq![digit_char(n as int)]
    } else {
        decimal(n / 10).push(digit_char((n % 10) as int))
    }
}

fn char_of_digit(d: u64) -> (c: char)
    requires
        d < 10,
    ensures
        c == digit_char(d as int),
{
    match d {
        0 => '0',
        1 => '1',
        2 => '2',
        3 => '3',
        4 => '4',
        5 => '5',
        6 => '6',
        7 => '7',
        8 => '8',
        _ => '9',
    }
}

pub fn decimal_text(n: u64) -> (r: String)
    ensures
        r@ == decimal(n as nat),
    decreases n,
{
    if n < 10 {
        let mut s = String::new();
        s.push(char_of_digit(n));
        assert(s@ == seq![digit_char(n as int)]);
        s
    } else {
        let mut s = decimal_text(n / 10);
        s.push(char_of_digit(n % 10));
        s
    }
}

/// The number that a run of digits stands for.
pub open spec fn digits_value(s: Seq<char>) -> nat
    decreases s.len(),
{
    if s.len() == 0 {
        0
    } else {
        digits_value(s.drop_last()) * 10 + (s.last() as u32 - '0' as u32) as nat
    }
}

pub open spec fn all_digits(s: Seq<char>) -> bool {
    forall|i: int| 0 <= i < s.len() ==> is_digit(#[trigger] s[i])
}

proof fn lemma_digits_value_monotone(s: Seq<char>, n: int)
    requires
        all_digits(s),
        0 <= n <= s.len(),
    ensures
        digits_value(s.take(n)) <= digits_value(s),
    decreases s.len(),
{
    if n < s.len() {
        assert(all_digits(s.drop_last()));
        lemma_digits_value_monotone(s.drop_last(), n);
        assert(s.drop_last().take(n) == s.take(n));
    } else {
        assert(s.take(n) == s);
    }
}

/// What a digit run reads as when it must fit in 64 bits.
pub open spec fn read_u64(s: Seq<char>) -> Option<u64> {
    if s.len() > 0 && all_digits(s) && digits_value(s) <= u64::MAX {
        Some(digits_value(s) as u64)
    } else {
        None
    }
}

pub fn parse_u64(s: &str) -> (r: Option<u64>)
    ensures
        r == read_u64(s@),
{
    let chars = chars_of(s);
    if chars.len() == 0 {
        return None;
    }
    for i in 0..chars.len()
        invariant
            chars@ == s@,
            forall|j: int| 0 <= j < i ==> is_digit(#[trigger] s@[j]),
    {
        if !char_is_digit(chars[i]) {
            return None;
        }
    }
    let mut value: u64 = 0;
    for i in 0..chars.len()
        invariant
            chars@ == s@,
            all_digits(s@),
            value == digits_value(s@.take(i as int)),
    {
        let ghost more = s@.take(i + 1);
        assert(more.drop_last() == s@.take(i as int));
        proof {
            lemma_digits_value_monotone(s@, i + 1);
        }
        let c = chars[i];
        assert(is_digit(s@[i as int]));
        let d: u64 = (c as u32 - '0' as u32) as u64;
        assert(digits_value(more) == value * 10 + d);
        match value.checked_mul(10) {
            None => {
                return None;
            },
            Some(scaled) => {
                match scaled.checked_add(d) {
                    None => {
                        return None;
                    },
                    Some(next) => {
                        value = next;
                    },
                }
            },
        }
    }
    assert(s@.take(s@.len() as int) == s@);
    Some(value)
}

// ---------------------------------------------------------------------------
// Laws
// ---------------------------------------------------------------------------

/// Whether `needle` stands at `at` in `s`.
pub open spec fn reads_at(s: Seq<char>, needle: Seq<char>, at: int) -> bool {
    &&& 0 <= at <= s.len() - needle.len()
    &&& forall|i: int| 0 <= i < needle.len() ==> s[at + i] == #[trigger] needle[i]
}

proof fn lemma_stands(s: Seq<char>, needle: Seq<char>, at: int)
    requires
        0 <= at <= s.len() - needle.len(),
    ensures
        reads_at(s, needle, at) <==> s.subrange(at, at + needle.len()) == needle,
{
    let there = s.subrange(at, at + needle.len());
    if reads_at(s, needle, at) {
        assert(there =~= needle);
    }
    if there == needle {
        assert forall|i: int| 0 <= i < needle.len() implies s[at + i] == #[trigger] needle[i] by {
            assert(there[i] == s[at + i]);
        }
    }
}

proof fn lemma_found_from(s: Seq<char>, needle: Seq<char>, from: int)
    requires
        0 <= from,
    ensures
        match find_from(s, needle, from) {
            Some(at) => from <= at && reads_at(s, needle, at) && forall|k: int|
                from <= k < at ==> !#[trigger] reads_at(s, needle, k),
            None => forall|k: int| from <= k ==> !#[trigger] reads_at(s, needle, k),
        },
    decreases s.len() + 1 - from,
{
    if from + needle.len() <= s.len() {
        lemma_stands(s, needle, from);
        if s.subrange(from, from + needle.len()) != needle {
            lemma_found_from(s, needle, from + 1);
        }
    }
}

/// What is found is the first place where the text stands, and nothing is found exactly where it
/// stands nowhere.
pub proof fn the_first_place_is_found(s: Seq<char>, needle: Seq<char>)
    ensures
        match find(s, needle) {
            Some(at) => reads_at(s, needle, at) && forall|k: int|
                0 <= k < at ==> !#[trigger] reads_at(s, needle, k),
            None => forall|k: int| !#[trigger] reads_at(s, needle, k),
        },
{
    lemma_found_from(s, needle, 0);
}

/// A text is cut at the first separator, which is all that is left out.
pub proof fn a_text_is_cut_at_the_first_separator(s: Seq<char>, sep: Seq<char>)
    ensures
        match split_once(s, sep) {
            Some((before, after)) => s == before + sep + after && forall|k: int|
                0 <= k < before.len() ==> !#[trigger] reads_at(s, sep, k),
            None => forall|k: int| !#[trigger] reads_at(s, sep, k),
        },
{
    the_first_place_is_found(s, sep);
    if let Some(at) = find(s, sep) {
        lemma_stands(s, sep, at);
        assert(s =~= s.take(at) + s.subrange(at, at + sep.len()) + s.skip(at + sep.len()));
    }
}

/// A text comes before another exactly where it is a proper start of it, or where the first
/// character in which they differ is the smaller.
pub proof fn texts_are_ordered_by_their_first_difference(a: Seq<char>, b: Seq<char>)
    ensures
        text_less(a, b) <==> ((a.len() < b.len() && b.take(a.len() as int) == a) || exists|k: int|
            0 <= k < a.len() && k < b.len() && #[trigger] differ_first(a, b, k) && a[k] < b[k]),
    decreases a.len(),
{
    if a.len() > 0 && b.len() > 0 {
        let x = a.skip(1);
        let y = b.skip(1);
        texts_are_ordered_by_their_first_difference(x, y);
        if a[0] == b[0] {
            if b.take(a.len() as int) == a && a.len() < b.len() {
                assert(y.take(x.len() as int) =~= b.take(a.len() as int).skip(1));
            }
            if x.len() < y.len() && y.take(x.len() as int) == x {
                assert(b.take(a.len() as int) =~= a) by {
                    assert forall|i: int| 0 <= i < a.len() implies b[i] == a[i] by {
                        if i > 0 {
                            assert(y.take(x.len() as int)[i - 1] == x[i - 1]);
                        }
                    }
                }
            }
            if exists|k: int|
                0 <= k < a.len() && k < b.len() && #[trigger] differ_first(a, b, k) && a[k] < b[k] {
                let k = choose|k: int|
                    0 <= k < a.len() && k < b.len() && #[trigger] differ_first(a, b, k) && a[k]
                        < b[k];
                assert(k > 0);
                assert forall|i: int| 0 <= i < k - 1 implies x[i] == y[i] by {
                    assert(a[i + 1] == b[i + 1]);
                }
                assert(differ_first(x, y, k - 1));
            }
            if exists|k: int|
                0 <= k < x.len() && k < y.len() && #[trigger] differ_first(x, y, k) && x[k] < y[k] {
                let k = choose|k: int|
                    0 <= k < x.len() && k < y.len() && #[trigger] differ_first(x, y, k) && x[k]
                        < y[k];
                assert forall|i: int| 0 <= i < k + 1 implies a[i] == b[i] by {
                    if i > 0 {
                        assert(x[i - 1] == y[i - 1]);
                    }
                }
                assert(differ_first(a, b, k + 1));
            }
        } else {
            assert(differ_first(a, b, 0));
            if a.len() < b.len() && b.take(a.len() as int) == a {
                assert(b.take(a.len() as int)[0] == a[0]);
            }
            if exists|k: int|
                0 <= k < a.len() && k < b.len() && #[trigger] differ_first(a, b, k) && a[k] < b[k] {
                let k = choose|k: int|
                    0 <= k < a.len() && k < b.len() && #[trigger] differ_first(a, b, k) && a[k]
                        < b[k];
                if k > 0 {
                    assert(a[0] == b[0]);
                }
            }
        }
    } else if a.len() == 0 && b.len() > 0 {
        assert(b.take(0) =~= a);
    }
}

/// Whether two texts agree up to `k` and differ there.
pub open spec fn differ_first(a: Seq<char>, b: Seq<char>, k: int) -> bool {
    &&& a[k] != b[k]
    &&& forall|i: int| 0 <= i < k ==> a[i] == b[i]
}

proof fn lemma_digit_char(d: int)
    requires
        0 <= d < 10,
    ensures
        is_digit(digit_char(d)),
        digit_char(d) as int == '0' as int + d,
{
}

/// A number reads back as the number that was written, and is written in digits alone, the
/// units last.
pub proof fn numbers_read_as_they_are_written(n: nat)
    ensures
        decimal(n).len() > 0,
        all_digits(decimal(n)),
        digits_value(decimal(n)) == n,
        n <= u64::MAX ==> read_u64(decimal(n)) == Some(n as u64),
        decimal(n).last() as int == '0' as int + n % 10,
    decreases n,
{
    lemma_digit_char((n % 10) as int);
    if n < 10 {
        assert(decimal(n).drop_last() =~= Seq::empty());
        assert(digits_value(Seq::empty()) == 0);
    } else {
        numbers_read_as_they_are_written(n / 10);
        let head = decimal(n / 10);
        assert(decimal(n).drop_last() =~= head);
        assert forall|i: int| 0 <= i < decimal(n).len() implies is_digit(
            #[trigger] decimal(n)[i],
        ) by {
            if i < head.len() {
                assert(decimal(n)[i] == head[i]);
            }
        }
    }
}

/// What is trimmed off a text is white space, and none is left at its ends.
pub proof fn trimming_takes_off_the_white_space(s: Seq<char>)
    ensures
        exists|a: int, b: int|
            0 <= a <= b <= s.len() && trimmed(s) == #[trigger] s.subrange(a, b) && (forall|i: int|
                0 <= i < a || b <= i < s.len() ==> is_space(#[trigger] s[i])),
        trimmed(s).len() > 0 ==> !is_space(trimmed(s)[0]) && !is_space(trimmed(s).last()),
        is_blank(s) <==> forall|i: int| 0 <= i < s.len() ==> is_space(#[trigger] s[i]),
{
    let a = span(s, space()) as int;
    let t = trim_start_by(s, space());
    lemma_span(s, space());
    lemma_span_end(t, space());
    let b = s.len() - span_end(t, space());
    if a == s.len() {
        assert(span_end(t, space()) == 0);
    } else {
        assert(t[0] == s[a]);
        assert(!space()(s[a]));
        if span_end(t, space()) == t.len() {
            assert(space()(t[0]));
        }
    }
    assert(trimmed(s) =~= s.subrange(a, b));
    assert forall|i: int| 0 <= i < a || b <= i < s.len() implies is_space(#[trigger] s[i]) by {
        if i < a {
            assert(space()(s[i]));
        } else {
            assert(space()(t[i - a]));
        }
    }
    if trimmed(s).len() > 0 {
        assert(!is_space(s[a]));
        assert(!space()(t[t.len() - span_end(t, space()) - 1]));
    }
}

proof fn lemma_join_from_the_front(parts: Seq<Seq<char>>, sep: Seq<char>)
    requires
        parts.len() >= 2,
    ensures
        join(parts, sep) == parts[0] + sep + join(parts.skip(1), sep),
    decreases parts.len(),
{
    let rest = parts.skip(1);
    if parts.len() == 2 {
        assert(join(parts.drop_last(), sep) == parts[0]);
        assert(join(rest, sep) == parts[1]);
    } else {
        let inner = parts.drop_last();
        lemma_join_from_the_front(inner, sep);
        assert(inner.skip(1) =~= rest.drop_last());
        assert(join(parts, sep) =~= parts[0] + sep + (join(rest.drop_last(), sep) + sep
            + rest.last()));
    }
}

/// A text is split at every separator and nowhere else: no part has one in it, and with the
/// separators between them the parts are the text.
pub proof fn a_text_is_split_at_every_separator(s: Seq<char>, sep: char)
    ensures
        split(s, sep).len() > 0,
        join(split(s, sep), seq![sep]) == s,
        forall|i: int| 0 <= i < split(s, sep).len() ==> !(#[trigger] split(s, sep)[i]).contains(sep),
    decreases s.len(),
{
    let p = not_char(sep);
    let n = span(s, p) as int;
    lemma_span(s, p);
    let first = s.take(n);
    assert forall|k: int| 0 <= k < first.len() implies first[k] != sep by {
        assert(p(s[k]));
    }
    if n < s.len() {
        let rest = s.skip(n + 1);
        a_text_is_split_at_every_separator(rest, sep);
        let all = split(s, sep);
        assert(all.skip(1) =~= split(rest, sep));
        lemma_join_from_the_front(all, seq![sep]);
        assert(s[n] == sep);
        assert(s =~= first + seq![sep] + rest);
        assert forall|i: int| 0 <= i < all.len() implies !(#[trigger] all[i]).contains(sep) by {
            if i > 0 {
                assert(all[i] == split(rest, sep)[i - 1]);
            }
        }
    } else {
        assert(first =~= s);
        assert(split(s, sep) =~= seq![s]);
    }
}

/// A text without the separator is one part, and a separator parts what is before it from what
/// is behind it.
pub proof fn a_separator_parts_a_text(a: Seq<char>, sep: char, b: Seq<char>)
    requires
        !a.contains(sep),
    ensures
        split(a, sep) == seq![a],
        split(a + seq![sep] + b, sep) == seq![a] + split(b, sep),
        split_once(a + seq![sep] + b, seq![sep]) == Some((a, b)),
        find(a, seq![sep]) is None,
{
    let p = not_char(sep);
    let s = a + seq![sep] + b;
    let n = a.len() as int;
    assert forall|k: int| 0 <= k < n implies p(#[trigger] a[k]) by {
        assert(a.contains(a[k]));
    }
    lemma_span_is(a, p, a.len());
    assert forall|k: int| 0 <= k < n implies p(#[trigger] s[k]) by {
        assert(p(a[k]));
    }
    assert(s[n] == sep);
    lemma_span_is(s, p, a.len());
    assert(s.take(n) =~= a);
    assert(s.skip(n + 1) =~= b);
    let one = seq![sep];
    the_first_place_is_found(s, one);
    the_first_place_is_found(a, one);
    assert(reads_at(s, one, n)) by {
        assert forall|i: int| 0 <= i < one.len() implies s[n + i] == #[trigger] one[i] by {
            assert(i == 0);
        }
    }
    let at = find(s, one)->0;
    if at < n {
        assert(s[at + 0] == one[0]);
        assert(p(s[at]));
    }
    if at > n {
        assert(!reads_at(s, one, n));
    }
    if let Some(k) = find(a, one) {
        assert(a[k + 0] == one[0]);
        assert(p(a[k]));
    }
}

/// White space parts words, and a run without any is one word.
pub proof fn words_are_parted_by_white_space(a: Seq<char>, gap: char, b: Seq<char>)
    requires
        is_space(gap),
    ensures
        words(a + seq![gap] + b) == words(a) + words(b),
        (forall|i: int| 0 <= i < a.len() ==> !is_space(#[trigger] a[i])) && a.len() > 0 ==> words(a)
            == seq![a],
        (forall|i: int| 0 <= i < a.len() ==> is_space(#[trigger] a[i])) ==> words(a) == Seq::<
            Seq<char>,
        >::empty(),
    decreases a.len(),
{
    let s = a + seq![gap] + b;
    let m = span(a, space()) as int;
    lemma_span(a, space());
    let rest = trim_start_by(a, space());
    let n = span(rest, ink()) as int;
    lemma_span(rest, ink());
    if m == a.len() {
        // Nothing but white space is in front.
        let k = span(b, space());
        lemma_span(b, space());
        assert forall|i: int| 0 <= i < m + 1 + k implies space()(#[trigger] s[i]) by {
            if i < m {
                assert(s[i] == a[i]);
                assert(space()(a[i]));
            } else if i > m {
                assert(s[i] == b[i - m - 1]);
                assert(space()(b[i - m - 1]));
            }
        }
        if k < b.len() {
            assert(s[m + 1 + k] == b[k as int]);
        }
        lemma_span_is(s, space(), (m + 1 + k) as nat);
        assert(trim_start_by(s, space()) =~= trim_start_by(b, space()));
        assert(words(s) =~= words(b));
        assert(words(a) =~= Seq::empty());
        assert(words(a) + words(b) =~= words(b));
        if a.len() > 0 {
            assert(space()(a[0]));
        }
    } else {
        assert forall|i: int| 0 <= i < m implies space()(#[trigger] s[i]) by {
            assert(s[i] == a[i]);
            assert(space()(a[i]));
        }
        assert(s[m] == a[m]);
        lemma_span_is(s, space(), m as nat);
        let whole = trim_start_by(s, space());
        assert(whole =~= rest + seq![gap] + b);
        assert forall|i: int| 0 <= i < n implies ink()(#[trigger] whole[i]) by {
            assert(whole[i] == rest[i]);
            assert(ink()(rest[i]));
        }
        if n < rest.len() {
            assert(whole[n] == rest[n]);
        } else {
            assert(whole[n] == gap);
        }
        lemma_span_is(whole, ink(), n as nat);
        assert(rest[0] == a[m]);
        assert(n > 0);
        assert(whole.take(n) =~= rest.take(n));
        assert(whole.skip(n) =~= rest.skip(n) + seq![gap] + b);
        words_are_parted_by_white_space(rest.skip(n), gap, b);
        assert(words(s) =~= seq![rest.take(n)] + (words(rest.skip(n)) + words(b)));
        assert(words(a) =~= seq![rest.take(n)] + words(rest.skip(n)));
        if forall|i: int| 0 <= i < a.len() ==> !is_space(#[trigger] a[i]) {
            if m > 0 {
                assert(space()(a[0]));
            }
            assert(rest =~= a);
            if n < a.len() {
                assert(!ink()(a[n]));
            }
            assert(rest.skip(n) =~= Seq::empty());
            assert(rest.take(n) =~= a);
        }
    }
}

/// The parts of two texts with a separator between them are those of the one and then those of
/// the other.
pub proof fn texts_split_apart_at_a_separator(a: Seq<char>, sep: char, b: Seq<char>)
    ensures
        split(a + seq![sep] + b, sep) == split(a, sep) + split(b, sep),
    decreases a.len(),
{
    let p = not_char(sep);
    let s = a + seq![sep] + b;
    let n = span(a, p) as int;
    lemma_span(a, p);
    if n >= a.len() {
        assert(!a.contains(sep)) by {
            if a.contains(sep) {
                let k = choose|k: int| 0 <= k < a.len() && a[k] == sep;
                assert(p(a[k]));
            }
        }
        a_separator_parts_a_text(a, sep, b);
    } else {
        let first = a.take(n);
        let rest = a.skip(n + 1);
        assert(!first.contains(sep)) by {
            if first.contains(sep) {
                let k = choose|k: int| 0 <= k < first.len() && first[k] == sep;
                assert(p(a[k]));
            }
        }
        assert(a[n] == sep);
        assert(a =~= first + seq![sep] + rest);
        let more = rest + seq![sep] + b;
        assert(s =~= first + seq![sep] + more);
        a_separator_parts_a_text(first, sep, more);
        a_separator_parts_a_text(first, sep, rest);
        texts_split_apart_at_a_separator(rest, sep, b);
        assert(split(s, sep) =~= seq![first] + (split(rest, sep) + split(b, sep)));
        assert(split(a, sep) + split(b, sep) =~= seq![first] + split(rest, sep) + split(b, sep));
    }
}

} // verus!
