//! Regular expressions, reached from plain text to plain values.

use crate::text::{opt_text, texts};
use vstd::prelude::*;

verus! {

/// A character that `regex::escape` puts a backslash before.
pub open spec fn is_meta(c: char) -> bool {
    c == '\\' || c == '.' || c == '+' || c == '*' || c == '?' || c == '(' || c == ')' || c == '|'
        || c == '[' || c == ']' || c == '{' || c == '}' || c == '^' || c == '$' || c == '#' || c
        == '&' || c == '-' || c == '~'
}

/// `s` with a backslash before every meta character.
pub open spec fn escaped(s: Seq<char>) -> Seq<char>
    decreases s.len(),
{
    if s.len() == 0 {
        Seq::empty()
    } else if is_meta(s.last()) {
        escaped(s.drop_last()).push('\\').push(s.last())
    } else {
        escaped(s.drop_last()).push(s.last())
    }
}

/// `regex::escape`: the text with a backslash before each of the crate's meta characters.
#[verifier::external_body]
pub(crate) fn escape(text: &str) -> (r: String)
    ensures
        r@ == escaped(text@),
{
    regex::escape(text)
}

/// The name of the message with which `regex::Regex::new` refuses a pattern, if it does.
pub uninterp spec fn pattern_error(pattern: Seq<char>) -> Option<Seq<char>>;

/// Whether `regex::Regex::new` accepts the pattern.
pub open spec fn is_pattern(pattern: Seq<char>) -> bool {
    pattern_error(pattern) is None
}

/// `regex::Regex::new`: the text of its error, or nothing where the pattern compiles. Which
/// patterns compile is the crate's own grammar, and is left unsaid.
#[verifier::external_body]
pub(crate) fn check_pattern(pattern: &str) -> (r: Option<String>)
    ensures
        opt_text(r) == pattern_error(pattern@),
{
    regex::Regex::new(pattern).err().map(|error| error.to_string())
}

/// The name of what `Regex::is_match` says of a pattern and a text.
pub uninterp spec fn pattern_matches(pattern: Seq<char>, text: Seq<char>) -> bool;

/// `Regex::is_match` of a pattern that compiles; one that does not matches nothing.
#[verifier::external_body]
pub(crate) fn matches_pattern(pattern: &str, text: &str) -> (r: bool)
    ensures
        r == pattern_matches(pattern@, text@),
        !is_pattern(pattern@) ==> !r,
{
    match regex::Regex::new(pattern) {
        Ok(regex) => regex.is_match(text),
        Err(_) => false,
    }
}

/// A named group of a match, with its text where the group took part.
pub struct Group {
    pub name: String,
    pub value: Option<String>,
}

/// The first match of a pattern in a text: its named groups in the order of the pattern, and
/// the text that follows the match.
pub struct Captures {
    pub groups: Vec<Group>,
    pub rest: String,
}

pub open spec fn group_view(g: Group) -> (Seq<char>, Option<Seq<char>>) {
    (g.name@, opt_text(g.value))
}

impl View for Captures {
    type V = (Seq<(Seq<char>, Option<Seq<char>>)>, Seq<char>);

    open spec fn view(&self) -> Self::V {
        (self.groups@.map_values(|g: Group| group_view(g)), self.rest@)
    }
}

pub open spec fn captures_view(
    c: Option<Captures>,
) -> Option<(Seq<(Seq<char>, Option<Seq<char>>)>, Seq<char>)> {
    match c {
        Some(c) => Some(c@),
        None => None,
    }
}

/// The name of the first match that `Regex::captures` finds: named groups, and the text after.
pub uninterp spec fn pattern_captures(
    pattern: Seq<char>,
    text: Seq<char>,
) -> Option<(Seq<(Seq<char>, Option<Seq<char>>)>, Seq<char>)>;

/// `Regex::captures` with `Regex::capture_names`; a pattern that does not compile finds nothing.
#[verifier::external_body]
pub(crate) fn capture(pattern: &str, text: &str) -> (r: Option<Captures>)
    ensures
        captures_view(r) == pattern_captures(pattern@, text@),
        !is_pattern(pattern@) ==> r is None,
{
    let regex = regex::Regex::new(pattern).ok()?;
    let found = regex.captures(text)?;
    let rest = text[found.get(0)?.end()..].to_string();
    let mut groups = Vec::new();
    for name in regex.capture_names().flatten() {
        let value = found.name(name).map(|part| part.as_str().to_string());
        groups.push(Group { name: name.to_string(), value });
    }
    Some(Captures { groups, rest })
}

/// What a group took part with, by its name.
pub open spec fn group_value(
    groups: Seq<(Seq<char>, Option<Seq<char>>)>,
    name: Seq<char>,
) -> Option<Seq<char>>
    decreases groups.len(),
{
    if groups.len() == 0 {
        None
    } else if groups[0].0 == name {
        groups[0].1
    } else {
        group_value(groups.skip(1), name)
    }
}

impl Captures {
    /// The text of the group called `name`.
    pub fn get(&self, name: &str) -> (r: Option<&String>)
        ensures
            match r {
                Some(s) => group_value(self@.0, name@) == Some(s@),
                None => group_value(self@.0, name@) is None,
            },
    {
        let ghost all = self@.0;
        assert(all.skip(0) == all);
        for i in 0..self.groups.len()
            invariant
                all == self@.0,
                group_value(all, name@) == group_value(all.skip(i as int), name@),
        {
            assert(all.skip(i as int)[0] == group_view(self.groups@[i as int]));
            assert(all.skip(i as int).skip(1) == all.skip(i + 1));
            if crate::text::same_text(self.groups[i].name.as_str(), name) {
                return self.groups[i].value.as_ref();
            }
        }
        None
    }
}

/// The escaped form of each text.
pub open spec fn escaped_all(v: Seq<Seq<char>>) -> Seq<Seq<char>> {
    v.map_values(|s: Seq<char>| escaped(s))
}

/// Each text escaped, in order.
pub fn escape_all(v: &[&str]) -> (r: Vec<String>)
    ensures
        texts(r@) == escaped_all(crate::text::strs(v@)),
{
    let mut out: Vec<String> = Vec::new();
    for i in 0..v.len()
        invariant
            texts(out@) == escaped_all(crate::text::strs(v@)).take(i as int),
    {
        let e = escape(v[i]);
        let ghost before = texts(out@);
        out.push(e);
        assert(texts(out@) == before.push(e@));
    }
    out
}

// ---------------------------------------------------------------------------
// Laws
// ---------------------------------------------------------------------------

/// A group is found by its name: what is given is what the first of that name took part with, and
/// nothing where no group has it.
pub proof fn a_group_is_found_by_its_name(
    groups: Seq<(Seq<char>, Option<Seq<char>>)>,
    name: Seq<char>,
    k: int,
)
    requires
        0 <= k <= groups.len(),
        forall|i: int| 0 <= i < k ==> (#[trigger] groups[i]).0 != name,
    ensures
        k == groups.len() ==> group_value(groups, name) is None,
        k < groups.len() && groups[k].0 == name ==> group_value(groups, name) == groups[k].1,
    decreases groups.len(),
{
    if k > 0 {
        let rest = groups.skip(1);
        assert(groups[0].0 != name);
        assert forall|i: int| 0 <= i < k - 1 implies (#[trigger] rest[i]).0 != name by {
            assert(rest[i] == groups[i + 1]);
        }
        a_group_is_found_by_its_name(rest, name, k - 1);
        if k < groups.len() {
            assert(rest[k - 1] == groups[k]);
        }
    }
}

/// Escaping keeps every character, and sets a backslash before it exactly where it means
/// something to a pattern.
pub proof fn escaping_sets_a_backslash_before_meta_characters(s: Seq<char>, c: char)
    ensures
        escaped(s.push(c)) == escaped(s) + (if is_meta(c) {
            seq!['\\', c]
        } else {
            seq![c]
        }),
        escaped(Seq::empty()) == Seq::<char>::empty(),
        is_meta('\\') && is_meta('.') && is_meta('*') && is_meta('+') && is_meta('?') && is_meta(
            '(',
        ) && is_meta(')') && is_meta('[') && is_meta(']') && is_meta('{') && is_meta('}')
            && is_meta('|') && is_meta('^') && is_meta('$'),
{
    assert(s.push(c).drop_last() =~= s);
    assert(escaped(s.push(c)) =~= escaped(s) + (if is_meta(c) {
        seq!['\\', c]
    } else {
        seq![c]
    }));
}

} // verus!
