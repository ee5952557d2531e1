//! Regex templates derived from selected messages.

use crate::pattern::{escape, escape_all, escaped, escaped_all};
use crate::regexes::{
    alternatives_text, any_accepts, bits_readable, finds, lemma_literal, lemma_one_bit,
    lemma_one_part, lemma_parts_two, lemma_reads_two, lemma_repeats_again, lemma_run,
    matches_whole, parts_accept, reads_as, repeats, repeats_by, Bit, Count, Part, Unit,
};
use crate::shapes::{
    all_covered, class_of, is_bare_hex, is_decimal, is_integer, is_ipv4, is_uuid,
    lemma_address_first, lemma_uuid_places, shapes_stand_for_their_values, value_class,
    values_of_one_shape_are_given_it, ValueClass,
};
use crate::text::{
    chars_of, ink, is_blank, is_digit, is_hex_digit, is_letter, is_space, join, join_strings,
    lemma_span, lemma_span_end, lemma_span_end_is, lemma_span_is, run_before, run_from, same_text,
    space, span, strs, text_words, texts, trim, trim_end_by, trim_start_by, trimmed, words,
};
use vstd::prelude::*;

verus! {

// ---------------------------------------------------------------------------
// Tokens
// ---------------------------------------------------------------------------

/// The tokens of each message.
pub open spec fn tokenized(messages: Seq<Seq<char>>) -> Seq<Seq<Seq<char>>> {
    messages.map_values(|m: Seq<char>| words(m))
}

/// The views of a list of token lists.
pub open spec fn lists_view(v: Seq<Vec<&str>>) -> Seq<Seq<Seq<char>>> {
    v.map_values(|t: Vec<&str>| strs(t@))
}

fn tokenize<'a>(messages: &[&'a str]) -> (r: Vec<Vec<&'a str>>)
    ensures
        lists_view(r@) == tokenized(strs(messages@)),
{
    let mut out: Vec<Vec<&'a str>> = Vec::new();
    for i in 0..messages.len()
        invariant
            lists_view(out@) == tokenized(strs(messages@)).take(i as int),
    {
        let tokens = text_words(messages[i]);
        let ghost before = lists_view(out@);
        out.push(tokens);
        assert(lists_view(out@) == before.push(strs(tokens@)));
    }
    out
}

// ---------------------------------------------------------------------------
// Longest common subsequence
// ---------------------------------------------------------------------------

/// Whether `part` is what remains of `whole` after leaving some tokens out.
pub open spec fn is_subsequence(part: Seq<Seq<char>>, whole: Seq<Seq<char>>) -> bool
    decreases whole.len(),
{
    if part.len() == 0 {
        true
    } else if whole.len() == 0 {
        false
    } else if part[0] == whole[0] {
        is_subsequence(part.skip(1), whole.skip(1))
    } else {
        is_subsequence(part, whole.skip(1))
    }
}

/// The longest common subsequence of two token lists; where two are equally long, the one that
/// passes over tokens of `left` first.
pub open spec fn lcs(left: Seq<Seq<char>>, right: Seq<Seq<char>>) -> Seq<Seq<char>>
    decreases left.len() + right.len(),
{
    if left.len() == 0 || right.len() == 0 {
        Seq::empty()
    } else if left[0] == right[0] {
        seq![left[0]] + lcs(left.skip(1), right.skip(1))
    } else {
        let a = lcs(left.skip(1), right);
        let b = lcs(left, right.skip(1));
        if a.len() >= b.len() {
            a
        } else {
            b
        }
    }
}

proof fn lemma_subsequence_weaken(part: Seq<Seq<char>>, whole: Seq<Seq<char>>)
    requires
        part.len() > 0,
        is_subsequence(part, whole),
    ensures
        is_subsequence(part.skip(1), whole),
    decreases whole.len(),
{
    if part[0] == whole[0] {
        if part.len() > 1 {
            if part.skip(1)[0] == whole[0] {
                lemma_subsequence_weaken(part.skip(1), whole.skip(1));
            }
        }
    } else {
        lemma_subsequence_weaken(part, whole.skip(1));
        if part.len() > 1 && part.skip(1)[0] == whole[0] {
            lemma_subsequence_weaken(part.skip(1), whole.skip(1));
        }
    }
}

proof fn lemma_subsequence_extend(part: Seq<Seq<char>>, whole: Seq<Seq<char>>)
    requires
        whole.len() > 0,
        is_subsequence(part, whole.skip(1)),
    ensures
        is_subsequence(part, whole),
{
    if part.len() > 0 && part[0] == whole[0] {
        lemma_subsequence_weaken(part, whole.skip(1));
    }
}

/// The longest common subsequence is a subsequence of both lists.
pub proof fn lcs_is_common(left: Seq<Seq<char>>, right: Seq<Seq<char>>)
    ensures
        is_subsequence(lcs(left, right), left),
        is_subsequence(lcs(left, right), right),
    decreases left.len() + right.len(),
{
    if left.len() > 0 && right.len() > 0 {
        if left[0] == right[0] {
            lcs_is_common(left.skip(1), right.skip(1));
            assert(lcs(left, right).skip(1) == lcs(left.skip(1), right.skip(1)));
        } else {
            lcs_is_common(left.skip(1), right);
            lcs_is_common(left, right.skip(1));
            lemma_subsequence_extend(lcs(left.skip(1), right), left);
            lemma_subsequence_extend(lcs(left, right.skip(1)), right);
        }
    }
}

/// No common subsequence is longer than the one derived.
pub proof fn lcs_is_longest(left: Seq<Seq<char>>, right: Seq<Seq<char>>, other: Seq<Seq<char>>)
    requires
        is_subsequence(other, left),
        is_subsequence(other, right),
    ensures
        other.len() <= lcs(left, right).len(),
    decreases left.len() + right.len(),
{
    if other.len() > 0 {
        if left[0] == right[0] {
            if other[0] == left[0] {
                lcs_is_longest(left.skip(1), right.skip(1), other.skip(1));
            } else {
                lemma_subsequence_weaken(other, left.skip(1));
                lemma_subsequence_weaken(other, right.skip(1));
                lcs_is_longest(left.skip(1), right.skip(1), other);
            }
        } else if other[0] == left[0] {
            lcs_is_longest(left, right.skip(1), other);
        } else {
            lcs_is_longest(left.skip(1), right, other);
        }
    }
}

/// Row `i` of the length table: at `j`, the length for the lists from `i` and from `j` on.
spec fn is_length_row(
    row: Seq<usize>,
    left: Seq<Seq<char>>,
    right: Seq<Seq<char>>,
    i: int,
) -> bool {
    &&& row.len() == right.len() + 1
    &&& forall|j: int|
        0 <= j <= right.len() ==> #[trigger] row[j] == lcs(left.skip(i), right.skip(j)).len()
}

proof fn lemma_lcs_len(left: Seq<Seq<char>>, right: Seq<Seq<char>>)
    ensures
        lcs(left, right).len() <= left.len(),
    decreases left.len() + right.len(),
{
    if left.len() > 0 && right.len() > 0 {
        if left[0] == right[0] {
            lemma_lcs_len(left.skip(1), right.skip(1));
        } else {
            lemma_lcs_len(left.skip(1), right);
            lemma_lcs_len(left, right.skip(1));
        }
    }
}

/// The row above `below`, for the token `left[i]`.
fn length_row(left: &[&str], right: &[&str], i: usize, below: &Vec<usize>) -> (row: Vec<usize>)
    requires
        i < left@.len(),
        is_length_row(below@, strs(left@), strs(right@), i + 1),
    ensures
        is_length_row(row@, strs(left@), strs(right@), i as int),
{
    let ghost l = strs(left@);
    let ghost r = strs(right@);
    let mut row: Vec<usize> = Vec::new();
    let mut k: usize = 0;
    while k < right.len()
        invariant
            k <= right@.len(),
            row@.len() == k,
        decreases right@.len() - k,
    {
        row.push(0);
        k = k + 1;
    }
    row.push(0);
    let total: usize = left.len();
    let mut j: usize = right.len();
    assert(l.skip(i as int).len() > 0);
    assert(lcs(l.skip(i as int), r.skip(j as int)).len() == 0);
    while j > 0
        invariant
            i < left@.len(),
            total == left@.len(),
            j <= right@.len(),
            l == strs(left@),
            r == strs(right@),
            is_length_row(below@, l, r, i + 1),
            row@.len() == r.len() + 1,
            forall|m: int|
                j <= m <= right@.len() ==> #[trigger] row@[m] == lcs(
                    l.skip(i as int),
                    r.skip(m),
                ).len(),
        decreases j,
    {
        j = j - 1;
        let ghost a = l.skip(i as int);
        let ghost b = r.skip(j as int);
        assert(a.skip(1) == l.skip(i + 1));
        assert(b.skip(1) == r.skip(j + 1));
        assert(a[0] == left@[i as int]@ && b[0] == right@[j as int]@);
        proof {
            lemma_lcs_len(a, b);
        }
        if same_text(left[i], right[j]) {
            assert(below@[j + 1] == lcs(a.skip(1), b.skip(1)).len());
            let v: usize = below[j + 1] + 1;
            row.set(j, v);
        } else {
            assert(below@[j as int] == lcs(a.skip(1), b).len());
            assert(row@[j + 1] == lcs(a, b.skip(1)).len());
            let v: usize = if below[j] >= row[j + 1] {
                below[j]
            } else {
                row[j + 1]
            };
            row.set(j, v);
        }
    }
    row
}

/// Longest common subsequence of two token slices, preserving order.
pub fn common_subsequence<'a>(left: &[&'a str], right: &[&'a str]) -> (out: Vec<&'a str>)
    ensures
        strs(out@) == lcs(strs(left@), strs(right@)),
{
    let ghost l = strs(left@);
    let ghost r = strs(right@);
    let mut last: Vec<usize> = Vec::new();
    let mut k: usize = 0;
    while k < right.len()
        invariant
            k <= right@.len(),
            last@.len() == k,
            forall|m: int| 0 <= m < k ==> last@[m] == 0,
        decreases right@.len() - k,
    {
        last.push(0);
        k = k + 1;
    }
    last.push(0);
    assert(is_length_row(last@, l, r, left@.len() as int)) by {
        assert(l.skip(left@.len() as int).len() == 0);
    }
    // `table[k]` is the row of the token `left.len() - k`.
    let mut table: Vec<Vec<usize>> = Vec::new();
    table.push(last);
    let mut n: usize = 0;
    while n < left.len()
        invariant
            n <= left@.len(),
            l == strs(left@),
            r == strs(right@),
            table@.len() == n + 1,
            forall|m: int|
                0 <= m <= n ==> is_length_row((#[trigger] table@[m])@, l, r, left@.len() - m),
        decreases left@.len() - n,
    {
        let row = length_row(left, right, left.len() - n - 1, &table[n]);
        table.push(row);
        n = n + 1;
    }
    let total: usize = left.len();
    let mut i: usize = 0;
    let mut j: usize = 0;
    let mut out: Vec<&'a str> = Vec::new();
    assert(l.skip(0) == l && r.skip(0) == r);
    while i < left.len() && j < right.len()
        invariant
            i <= left@.len(),
            j <= right@.len(),
            total == left@.len(),
            l == strs(left@),
            r == strs(right@),
            table@.len() == total + 1,
            forall|m: int|
                0 <= m <= total ==> is_length_row((#[trigger] table@[m])@, l, r, total - m),
            strs(out@) + lcs(l.skip(i as int), r.skip(j as int)) == lcs(l, r),
        decreases left@.len() - i + right@.len() - j,
    {
        let ghost a = l.skip(i as int);
        let ghost b = r.skip(j as int);
        assert(a.skip(1) == l.skip(i + 1));
        assert(b.skip(1) == r.skip(j + 1));
        assert(a[0] == left@[i as int]@ && b[0] == right@[j as int]@);
        if same_text(left[i], right[j]) {
            let ghost before = strs(out@);
            out.push(left[i]);
            assert(strs(out@) == before.push(a[0]));
            assert(before + (seq![a[0]] + lcs(a.skip(1), b.skip(1))) == before.push(a[0]) + lcs(
                a.skip(1),
                b.skip(1),
            ));
            i = i + 1;
            j = j + 1;
        } else {
            let below: &Vec<usize> = &table[total - i - 1];
            let here: &Vec<usize> = &table[total - i];
            assert(is_length_row(below@, l, r, i + 1));
            assert(is_length_row(here@, l, r, i as int));
            assert(below@[j as int] == lcs(a.skip(1), b).len());
            assert(here@[j + 1] == lcs(a, b.skip(1)).len());
            if below[j] >= here[j + 1] {
                i = i + 1;
            } else {
                j = j + 1;
            }
        }
    }
    assert(lcs(l.skip(i as int), r.skip(j as int)) =~= Seq::<Seq<char>>::empty());
    assert(strs(out@) + Seq::<Seq<char>>::empty() == strs(out@));
    out
}

/// The tokens common to every list, in order, folded from the first list on.
pub open spec fn common_tokens(lists: Seq<Seq<Seq<char>>>) -> Seq<Seq<char>>
    decreases lists.len(),
{
    if lists.len() == 0 {
        Seq::empty()
    } else if lists.len() == 1 {
        lists[0]
    } else {
        lcs(common_tokens(lists.drop_last()), lists.last())
    }
}

fn tokens_in_common<'a>(lists: &Vec<Vec<&'a str>>) -> (r: Vec<&'a str>)
    ensures
        strs(r@) == common_tokens(lists_view(lists@)),
{
    let ghost all = lists_view(lists@);
    if lists.len() == 0 {
        return Vec::new();
    }
    let mut acc: Vec<&'a str> = Vec::new();
    let count: usize = lists[0].len();
    for k in 0..count
        invariant
            lists@.len() > 0,
            count == lists@[0]@.len(),
            acc@ == lists@[0]@.take(k as int),
    {
        acc.push(lists[0][k]);
    }
    assert(acc@ == lists@[0]@);
    let mut i: usize = 1;
    assert(all.take(1).len() == 1 && all.take(1)[0] == strs(lists@[0]@));
    while i < lists.len()
        invariant
            1 <= i <= lists@.len(),
            all == lists_view(lists@),
            strs(acc@) == common_tokens(all.take(i as int)),
        decreases lists@.len() - i,
    {
        assert(all.take(i + 1).drop_last() == all.take(i as int));
        assert(all.take(i + 1).last() == strs(lists@[i as int]@));
        let next = common_subsequence(acc.as_slice(), lists[i].as_slice());
        acc = next;
        i = i + 1;
    }
    assert(all.take(lists@.len() as int) == all);
    acc
}

/// Leaving tokens out twice is leaving tokens out.
proof fn lemma_subsequence_transitive(
    a: Seq<Seq<char>>,
    b: Seq<Seq<char>>,
    c: Seq<Seq<char>>,
)
    requires
        is_subsequence(a, b),
        is_subsequence(b, c),
    ensures
        is_subsequence(a, c),
    decreases c.len(),
{
    if a.len() > 0 && b.len() > 0 {
        if b[0] == c[0] {
            if a[0] == b[0] {
                lemma_subsequence_transitive(a.skip(1), b.skip(1), c.skip(1));
            } else {
                lemma_subsequence_transitive(a, b.skip(1), c.skip(1));
            }
        } else {
            lemma_subsequence_transitive(a, b, c.skip(1));
            if a[0] == c[0] {
                lemma_subsequence_weaken(a, c.skip(1));
            }
        }
    }
}

proof fn lemma_subsequence_of_itself(a: Seq<Seq<char>>)
    ensures
        is_subsequence(a, a),
    decreases a.len(),
{
    if a.len() > 0 {
        lemma_subsequence_of_itself(a.skip(1));
    }
}

/// The common tokens occur, in order, in every message they were taken from.
pub proof fn common_tokens_occur_in_every_list(lists: Seq<Seq<Seq<char>>>, i: int)
    requires
        0 <= i < lists.len(),
    ensures
        is_subsequence(common_tokens(lists), lists[i]),
    decreases lists.len(),
{
    if lists.len() == 1 {
        lemma_subsequence_of_itself(lists[0]);
    } else {
        let before = common_tokens(lists.drop_last());
        lcs_is_common(before, lists.last());
        if i < lists.len() - 1 {
            common_tokens_occur_in_every_list(lists.drop_last(), i);
            assert(lists.drop_last()[i] == lists[i]);
            lemma_subsequence_transitive(common_tokens(lists), before, lists[i]);
        }
    }
}

/// What stands for anything between two tokens of the messages. A plain dot matches no line
/// feed, so messages of several lines need one that does.
pub open spec fn anything(messages: Seq<Seq<char>>) -> Seq<char> {
    if exists|i: int| 0 <= i < messages.len() && (#[trigger] messages[i]).contains('\n') {
        "(?s:.*)"@
    } else {
        ".*"@
    }
}

fn anything_between(messages: &[&str]) -> (r: &'static str)
    ensures
        r@ == anything(strs(messages@)),
{
    for i in 0..messages.len()
        invariant
            forall|j: int| 0 <= j < i ==> !(#[trigger] strs(messages@)[j]).contains('\n'),
    {
        assert(strs(messages@)[i as int] == messages@[i as int]@);
        let chars = chars_of(messages[i]);
        for k in 0..chars.len()
            invariant
                chars@ == messages@[i as int]@,
                i < messages@.len(),
                forall|j: int| 0 <= j < k ==> chars@[j] != '\n',
        {
            if chars[k] == '\n' {
                assert(messages@[i as int]@[k as int] == '\n');
                assert(strs(messages@)[i as int].contains('\n'));
                return "(?s:.*)";
            }
        }
    }
    ".*"
}

/// The tokens common to all, with anything between them.
pub open spec fn subsequence_template(lists: Seq<Seq<Seq<char>>>, between: Seq<char>) -> Option<
    Seq<char>,
> {
    let common = common_tokens(lists);
    if common.len() == 0 {
        None
    } else {
        Some(join(escaped_all(common), between))
    }
}

fn subsequence_pattern(lists: &Vec<Vec<&str>>, between: &str) -> (r: Option<String>)
    ensures
        crate::text::opt_text(r) == subsequence_template(lists_view(lists@), between@),
{
    let common = tokens_in_common(lists);
    assert(strs(common@).len() == common@.len());
    if common.len() == 0 {
        return None;
    }
    let parts = escape_all(common.as_slice());
    Some(join_strings(parts.as_slice(), between))
}

// ---------------------------------------------------------------------------
// Leading tokens
// ---------------------------------------------------------------------------

/// Whether every list holds, at `n`, the token that the first one holds there.
pub open spec fn agree_at(lists: Seq<Seq<Seq<char>>>, n: int) -> bool {
    &&& n < lists[0].len()
    &&& forall|k: int|
        0 <= k < lists.len() ==> n < (#[trigger] lists[k]).len() && lists[k][n] == lists[0][n]
}

/// The first position at or after `n` where the lists do not all agree.
pub open spec fn shared_from(lists: Seq<Seq<Seq<char>>>, n: int) -> int
    decreases lists[0].len() - n,
{
    if agree_at(lists, n) {
        shared_from(lists, n + 1)
    } else {
        n
    }
}

/// The run of leading tokens every message opens with, then anything.
pub open spec fn prefix_template(lists: Seq<Seq<Seq<char>>>) -> Option<Seq<char>> {
    if lists.len() == 0 || shared_from(lists, 0) == 0 {
        None
    } else {
        Some(join(escaped_all(lists[0].take(shared_from(lists, 0))), "\\s+"@) + ".*"@)
    }
}

fn all_agree_at(lists: &Vec<Vec<&str>>, n: usize) -> (r: bool)
    requires
        lists@.len() > 0,
    ensures
        r == agree_at(lists_view(lists@), n as int),
{
    let ghost all = lists_view(lists@);
    assert(all[0] == strs(lists@[0]@));
    if n >= lists[0].len() {
        return false;
    }
    for k in 0..lists.len()
        invariant
            all == lists_view(lists@),
            lists@.len() > 0,
            all[0] == strs(lists@[0]@),
            n < lists@[0]@.len(),
            forall|m: int|
                0 <= m < k ==> n < (#[trigger] all[m]).len() && all[m][n as int] == all[0][n as int],
    {
        assert(all[k as int] == strs(lists@[k as int]@));
        if n >= lists[k].len() {
            return false;
        }
        assert(all[k as int][n as int] == lists@[k as int]@[n as int]@);
        assert(all[0][n as int] == lists@[0]@[n as int]@);
        if !same_text(lists[k][n], lists[0][n]) {
            return false;
        }
    }
    true
}

fn prefix_pattern(lists: &Vec<Vec<&str>>) -> (r: Option<String>)
    ensures
        crate::text::opt_text(r) == prefix_template(lists_view(lists@)),
{
    let ghost all = lists_view(lists@);
    if lists.len() == 0 {
        return None;
    }
    assert(all[0] == strs(lists@[0]@));
    let mut head: Vec<&str> = Vec::new();
    let width: usize = lists[0].len();
    let mut shared: usize = 0;
    while all_agree_at(lists, shared)
        invariant
            lists@.len() > 0,
            width == lists@[0]@.len(),
            all == lists_view(lists@),
            all[0] == strs(lists@[0]@),
            shared <= lists@[0]@.len(),
            head@ == lists@[0]@.take(shared as int),
            shared_from(all, 0) == shared_from(all, shared as int),
        decreases lists@[0]@.len() - shared,
    {
        head.push(lists[0][shared]);
        shared = shared + 1;
    }
    if shared == 0 {
        return None;
    }
    assert(strs(head@) == all[0].take(shared as int));
    let parts = escape_all(head.as_slice());
    let mut out = join_strings(parts.as_slice(), "\\s+");
    out.append(".*");
    Some(out)
}

// ---------------------------------------------------------------------------
// One token position
// ---------------------------------------------------------------------------

/// A token's regex, and whether it pins down any literal text. A template of nothing but
/// wildcards matches far more than the lines it came from, so callers refuse one.
pub struct TokenPattern {
    pub regex: String,
    pub anchored: bool,
}

impl View for TokenPattern {
    type V = (Seq<char>, bool);

    open spec fn view(&self) -> Self::V {
        (self.regex@, self.anchored)
    }
}

pub open spec fn all_same(column: Seq<Seq<char>>) -> bool {
    forall|i: int| 0 <= i < column.len() ==> #[trigger] column[i] == column[0]
}

fn tokens_all_same(column: &[&str]) -> (r: bool)
    requires
        column@.len() > 0,
    ensures
        r == all_same(strs(column@)),
{
    let ghost all = strs(column@);
    for i in 0..column.len()
        invariant
            column@.len() > 0,
            all == strs(column@),
            forall|j: int| 0 <= j < i ==> #[trigger] all[j] == all[0],
    {
        assert(all[i as int] == column@[i as int]@ && all[0] == column@[0]@);
        if !same_text(column[i], column[0]) {
            return false;
        }
    }
    true
}

/// The literal where all lines agree, else any run of non-space.
pub open spec fn wildcard_token(column: Seq<Seq<char>>) -> (Seq<char>, bool) {
    if all_same(column) {
        (escaped(column[0]), true)
    } else {
        ("\\S+"@, false)
    }
}

fn wildcard_column(column: &[&str]) -> (r: TokenPattern)
    requires
        column@.len() > 0,
    ensures
        r@ == wildcard_token(strs(column@)),
{
    assert(strs(column@)[0] == column@[0]@);
    if tokens_all_same(column) {
        return TokenPattern { regex: escape(column[0]), anchored: true };
    }
    TokenPattern { regex: "\\S+".to_string(), anchored: false }
}

/// Whether all values begin with the same `n` characters.
pub open spec fn same_start(values: Seq<Seq<char>>, n: int) -> bool {
    forall|k: int|
        0 <= k < values.len() ==> n <= (#[trigger] values[k]).len() && values[k].take(n)
            == values[0].take(n)
}

/// Whether all values end with the same `n` characters.
pub open spec fn same_end(values: Seq<Seq<char>>, n: int) -> bool {
    forall|k: int|
        0 <= k < values.len() ==> n <= (#[trigger] values[k]).len() && values[k].skip(
            values[k].len() - n,
        ) == values[0].skip(values[0].len() - n)
}

/// The length of the longest start shared by every value, counted on from `n`.
pub open spec fn shared_start(values: Seq<Seq<char>>, n: int) -> int
    decreases values[0].len() - n,
{
    if n < values[0].len() && same_start(values, n + 1) {
        shared_start(values, n + 1)
    } else {
        n
    }
}

/// The length of the longest end shared by every value, counted on from `n`.
pub open spec fn shared_end(values: Seq<Seq<char>>, n: int) -> int
    decreases values[0].len() - n,
{
    if n < values[0].len() && same_end(values, n + 1) {
        shared_end(values, n + 1)
    } else {
        n
    }
}

proof fn lemma_shared_start(values: Seq<Seq<char>>, n: int)
    requires
        values.len() > 0,
        0 <= n,
        same_start(values, n),
    ensures
        n <= shared_start(values, n) <= values[0].len(),
        same_start(values, shared_start(values, n)),
    decreases values[0].len() - n,
{
    if n < values[0].len() && same_start(values, n + 1) {
        lemma_shared_start(values, n + 1);
    }
}

proof fn lemma_shared_end(values: Seq<Seq<char>>, n: int)
    requires
        values.len() > 0,
        0 <= n,
        same_end(values, n),
    ensures
        n <= shared_end(values, n) <= values[0].len(),
        same_end(values, shared_end(values, n)),
    decreases values[0].len() - n,
{
    if n < values[0].len() && same_end(values, n + 1) {
        lemma_shared_end(values, n + 1);
    }
}

/// Each value without its first `n` characters.
pub open spec fn tails(values: Seq<Seq<char>>, n: int) -> Seq<Seq<char>> {
    values.map_values(|v: Seq<char>| v.skip(n))
}

/// Each value without its last `n` characters.
pub open spec fn heads(values: Seq<Seq<char>>, n: int) -> Seq<Seq<char>> {
    values.map_values(|v: Seq<char>| v.take(v.len() - n))
}

/// The regex for one token position across several lines: the literal where they agree, the
/// shape of the whole tokens, or the shape of what differs between a shared start and end.
pub open spec fn column_token(column: Seq<Seq<char>>) -> (Seq<char>, bool) {
    if all_same(column) {
        (escaped(column[0]), true)
    } else if class_of(column) is Some {
        (class_of(column)->0.shape(), false)
    } else {
        let head = shared_start(column, 0);
        let rests = tails(column, head);
        let foot = shared_end(rests, 0);
        match class_of(heads(rests, foot)) {
            None => ("\\S+"@, false),
            Some(class) => {
                let prefix = escaped(column[0].take(head));
                let suffix = escaped(rests[0].skip(rests[0].len() - foot));
                (prefix + class.shape() + suffix, prefix.len() > 0 || suffix.len() > 0)
            },
        }
    }
}

fn starts_agree(values: &[&str], n: usize) -> (r: bool)
    requires
        values@.len() > 0,
        n < strs(values@)[0].len(),
        same_start(strs(values@), n as int),
    ensures
        r == same_start(strs(values@), n + 1),
{
    let ghost all = strs(values@);
    assert(all[0] == values@[0]@);
    let first = values[0].get_char(n);
    for k in 0..values.len()
        invariant
            values@.len() > 0,
            all == strs(values@),
            all[0] == values@[0]@,
            n < all[0].len(),
            first == all[0][n as int],
            same_start(all, n as int),
            forall|m: int|
                0 <= m < k ==> n + 1 <= (#[trigger] all[m]).len() && all[m].take(n + 1)
                    == all[0].take(n + 1),
    {
        assert(all[k as int] == values@[k as int]@);
        let ghost v = all[k as int];
        if n >= values[k].unicode_len() {
            return false;
        }
        let c = values[k].get_char(n);
        assert(v.take(n + 1) == v.take(n as int).push(v[n as int]));
        assert(all[0].take(n + 1) == all[0].take(n as int).push(all[0][n as int]));
        if c != first {
            assert(v.take(n + 1)[n as int] != all[0].take(n + 1)[n as int]);
            return false;
        }
    }
    true
}

fn ends_agree(values: &[&str], n: usize) -> (r: bool)
    requires
        values@.len() > 0,
        n < strs(values@)[0].len(),
        same_end(strs(values@), n as int),
    ensures
        r == same_end(strs(values@), n + 1),
{
    let ghost all = strs(values@);
    assert(all[0] == values@[0]@);
    let ghost f = all[0];
    let first_len: usize = values[0].unicode_len();
    let first = values[0].get_char(first_len - n - 1);
    for k in 0..values.len()
        invariant
            values@.len() > 0,
            all == strs(values@),
            all[0] == values@[0]@,
            f == all[0],
            n < f.len(),
            first == f[f.len() - n - 1],
            same_end(all, n as int),
            forall|m: int|
                0 <= m < k ==> n + 1 <= (#[trigger] all[m]).len() && all[m].skip(
                    all[m].len() - (n + 1),
                ) == f.skip(f.len() - (n + 1)),
    {
        assert(all[k as int] == values@[k as int]@);
        let ghost v = all[k as int];
        let len: usize = values[k].unicode_len();
        if n >= len {
            return false;
        }
        let c = values[k].get_char(len - n - 1);
        assert(v.skip(v.len() - (n + 1)) == seq![v[v.len() - n - 1]] + v.skip(v.len() - n));
        assert(f.skip(f.len() - (n + 1)) == seq![f[f.len() - n - 1]] + f.skip(f.len() - n));
        if c != first {
            assert(v.skip(v.len() - (n + 1))[0] != f.skip(f.len() - (n + 1))[0]);
            return false;
        }
    }
    true
}

/// The number of leading characters that every value shares.
fn common_prefix_len(values: &[&str]) -> (r: usize)
    requires
        values@.len() > 0,
    ensures
        r == shared_start(strs(values@), 0),
        same_start(strs(values@), r as int),
{
    let ghost all = strs(values@);
    assert(all[0] == values@[0]@);
    let len: usize = values[0].unicode_len();
    let mut n: usize = 0;
    assert forall|k: int| 0 <= k < all.len() implies (#[trigger] all[k]).take(0) == all[0].take(
        0,
    ) by {}
    while n < len && starts_agree(values, n)
        invariant
            values@.len() > 0,
            all == strs(values@),
            all[0].len() == len,
            n <= len,
            same_start(all, n as int),
            shared_start(all, 0) == shared_start(all, n as int),
        decreases len - n,
    {
        n = n + 1;
    }
    n
}

/// The number of trailing characters that every value shares.
fn common_suffix_len(values: &[&str]) -> (r: usize)
    requires
        values@.len() > 0,
    ensures
        r == shared_end(strs(values@), 0),
        same_end(strs(values@), r as int),
{
    let ghost all = strs(values@);
    assert(all[0] == values@[0]@);
    let len: usize = values[0].unicode_len();
    let mut n: usize = 0;
    assert forall|k: int| 0 <= k < all.len() implies (#[trigger] all[k]).skip(all[k].len() - 0)
        == all[0].skip(all[0].len() - 0) by {}
    while n < len && ends_agree(values, n)
        invariant
            values@.len() > 0,
            all == strs(values@),
            all[0].len() == len,
            n <= len,
            same_end(all, n as int),
            shared_end(all, 0) == shared_end(all, n as int),
        decreases len - n,
    {
        n = n + 1;
    }
    n
}

/// The regex for one token position across every selected line.
fn column_pattern(column: &[&str]) -> (r: TokenPattern)
    requires
        column@.len() > 0,
    ensures
        r@ == column_token(strs(column@)),
{
    let ghost all = strs(column@);
    assert(all[0] == column@[0]@);
    if tokens_all_same(column) {
        return TokenPattern { regex: escape(column[0]), anchored: true };
    }
    if let Some(class) = value_class(column) {
        return TokenPattern { regex: class.regex().to_string(), anchored: false };
    }
    let head: usize = common_prefix_len(column);
    let mut rests: Vec<&str> = Vec::new();
    for i in 0..column.len()
        invariant
            all == strs(column@),
            same_start(all, head as int),
            strs(rests@) == tails(all, head as int).take(i as int),
    {
        assert(all[i as int] == column@[i as int]@);
        let rest = column[i].substring_char(head, column[i].unicode_len());
        assert(rest@ == all[i as int].skip(head as int));
        let ghost before = strs(rests@);
        rests.push(rest);
        assert(strs(rests@) == before.push(rest@));
    }
    assert(strs(rests@) == tails(all, head as int));
    let foot: usize = common_suffix_len(rests.as_slice());
    let ghost ends = strs(rests@);
    let mut cores: Vec<&str> = Vec::new();
    for i in 0..rests.len()
        invariant
            ends == strs(rests@),
            same_end(ends, foot as int),
            strs(cores@) == heads(ends, foot as int).take(i as int),
    {
        assert(ends[i as int] == rests@[i as int]@);
        let core = rests[i].substring_char(0, rests[i].unicode_len() - foot);
        assert(core@ == ends[i as int].take(ends[i as int].len() - foot));
        let ghost before = strs(cores@);
        cores.push(core);
        assert(strs(cores@) == before.push(core@));
    }
    assert(strs(cores@) == heads(ends, foot as int));
    match value_class(cores.as_slice()) {
        None => TokenPattern { regex: "\\S+".to_string(), anchored: false },
        Some(class) => {
            let start = column[0].substring_char(0, head);
            assert(start@ == all[0].take(head as int));
            assert(ends[0] == rests@[0]@);
            let len: usize = rests[0].unicode_len();
            let end = rests[0].substring_char(len - foot, len);
            assert(end@ == ends[0].skip(ends[0].len() - foot));
            let prefix = escape(start);
            let suffix = escape(end);
            let anchored = prefix.as_str().unicode_len() > 0 || suffix.as_str().unicode_len() > 0;
            let mut regex = prefix;
            regex.append(class.regex());
            regex.append(suffix.as_str());
            TokenPattern { regex, anchored }
        },
    }
}

// ---------------------------------------------------------------------------
// A lone line
// ---------------------------------------------------------------------------

/// Punctuation that clings to a value without being part of it: `id=42,` is a `42`.
pub open spec fn is_affix(c: char) -> bool {
    c == ',' || c == ';' || c == ':' || c == '=' || c == '(' || c == ')' || c == '[' || c == ']'
        || c == '{' || c == '}' || c == '<' || c == '>' || c == '!' || c == '?' || c == '#'
}

pub open spec fn affix() -> spec_fn(char) -> bool {
    |c: char| is_affix(c)
}

fn char_is_affix(c: char) -> (r: bool)
    ensures
        r == is_affix(c),
{
    c == ',' || c == ';' || c == ':' || c == '=' || c == '(' || c == ')' || c == '[' || c == ']'
        || c == '{' || c == '}' || c == '<' || c == '>' || c == '!' || c == '?' || c == '#'
}

/// The template of `token` when a value starts at `offset` or later in its body.
///
/// A value starts the token or follows punctuation, and reaches to the end of the body, so the
/// longest one is taken.
pub open spec fn lone_from(token: Seq<char>, lead: int, body: Seq<char>, offset: int) -> (
    Seq<char>,
    bool,
)
    decreases body.len() - offset,
{
    if offset >= body.len() {
        (escaped(token), true)
    } else if (offset == 0 || is_affix(body[offset - 1])) && class_of(
        seq![body.skip(offset)],
    ) is Some {
        let class = class_of(seq![body.skip(offset)])->0;
        let head = escaped(token.take(lead + offset));
        let tail = escaped(token.skip(lead + body.len()));
        (head + class.shape() + tail, head.len() > 0 || tail.len() > 0)
    } else {
        lone_from(token, lead, body, offset + 1)
    }
}

/// The regex for one token of a lone line: the value inside it gives way, the rest stays.
pub open spec fn lone_token(token: Seq<char>) -> (Seq<char>, bool) {
    let lead = span(token, affix()) as int;
    let body = trim_end_by(token.skip(lead), affix());
    lone_from(token, lead, body, 0)
}

fn lone_token_pattern(token: &str) -> (r: TokenPattern)
    ensures
        r@ == lone_token(token@),
{
    let chars = chars_of(token);
    let total: usize = chars.len();
    let f = |c: char| -> (b: bool)
        ensures
            b == is_affix(c),
        { char_is_affix(c) };
    let lead: usize = run_from(chars.as_slice(), 0, f, Ghost(affix()));
    assert(token@.skip(0) == token@);
    let after = token.substring_char(lead, total);
    assert(after@ == token@.skip(lead as int));
    let rest = chars_of(after);
    let trail: usize = run_before(rest.as_slice(), rest.len(), f, Ghost(affix()));
    assert(after@.take(after@.len() as int) == after@);
    let end: usize = rest.len() - trail;
    let body = after.substring_char(0, end);
    assert(body@ == trim_end_by(after@, affix()));
    let mut offset: usize = 0;
    while offset < end
        invariant
            offset <= end,
            end == body@.len(),
            lead + end <= total,
            total == token@.len(),
            chars@ == token@,
            body@ == token@.skip(lead as int).take(end as int),
            lone_token(token@) == lone_from(token@, lead as int, body@, offset as int),
        decreases end - offset,
    {
        let after_affix = if offset == 0 {
            true
        } else {
            let c = chars[lead + offset - 1];
            assert(c == body@[offset - 1]);
            char_is_affix(c)
        };
        if after_affix {
            let core = body.substring_char(offset, end);
            assert(core@ == body@.skip(offset as int));
            let lone = vec![core];
            assert(strs(lone@) =~= seq![core@]);
            if let Some(class) = value_class(lone.as_slice()) {
                let before = token.substring_char(0, lead + offset);
                let behind = token.substring_char(lead + end, total);
                assert(before@ == token@.take(lead + offset));
                assert(behind@ == token@.skip(lead + body@.len()));
                let head = escape(before);
                let tail = escape(behind);
                let anchored = head.as_str().unicode_len() > 0 || tail.as_str().unicode_len() > 0;
                let mut regex = head;
                regex.append(class.regex());
                regex.append(tail.as_str());
                return TokenPattern { regex, anchored };
            }
        }
        offset = offset + 1;
    }
    TokenPattern { regex: escape(token), anchored: true }
}

// ---------------------------------------------------------------------------
// Aligned templates
// ---------------------------------------------------------------------------

/// The tokens that stand at `i` in each list.
pub open spec fn column(lists: Seq<Seq<Seq<char>>>, i: int) -> Seq<Seq<char>> {
    lists.map_values(|tokens: Seq<Seq<char>>| tokens[i])
}

/// The regex for one column: typed or not, of one line or of several.
pub open spec fn token_template(col: Seq<Seq<char>>, typed: bool) -> (Seq<char>, bool) {
    if !typed {
        wildcard_token(col)
    } else if col.len() == 1 {
        lone_token(col[0])
    } else {
        column_token(col)
    }
}

pub open spec fn token_templates(lists: Seq<Seq<Seq<char>>>, typed: bool) -> Seq<
    (Seq<char>, bool),
> {
    Seq::new(lists[0].len(), |i: int| token_template(column(lists, i), typed))
}

pub open spec fn some_anchored(parts: Seq<(Seq<char>, bool)>) -> bool {
    exists|i: int| 0 <= i < parts.len() && (#[trigger] parts[i]).1
}

pub open spec fn regexes(parts: Seq<(Seq<char>, bool)>) -> Seq<Seq<char>> {
    parts.map_values(|p: (Seq<char>, bool)| p.0)
}

/// White space between the token patterns, but only if at least one holds literal text.
pub open spec fn joined_tokens(parts: Seq<(Seq<char>, bool)>) -> Option<Seq<char>> {
    if some_anchored(parts) {
        Some(join(regexes(parts), "\\s+"@))
    } else {
        None
    }
}

pub open spec fn same_width(lists: Seq<Seq<Seq<char>>>) -> bool {
    forall|k: int| 0 <= k < lists.len() ==> (#[trigger] lists[k]).len() == lists[0].len()
}

/// Every message read as the same template, token position by token position; nothing when
/// they have different token counts or only wildcards would be left.
pub open spec fn aligned_template(lists: Seq<Seq<Seq<char>>>, typed: bool) -> Option<Seq<char>> {
    if lists.len() == 0 || lists[0].len() == 0 || !same_width(lists) {
        None
    } else {
        joined_tokens(token_templates(lists, typed))
    }
}

pub open spec fn token_views(parts: Seq<TokenPattern>) -> Seq<(Seq<char>, bool)> {
    parts.map_values(|p: TokenPattern| p@)
}

fn join_tokens(parts: &Vec<TokenPattern>) -> (r: Option<String>)
    ensures
        crate::text::opt_text(r) == joined_tokens(token_views(parts@)),
{
    let ghost all = token_views(parts@);
    let mut anchored = false;
    let mut bodies: Vec<String> = Vec::new();
    for i in 0..parts.len()
        invariant
            all == token_views(parts@),
            anchored == (exists|j: int| 0 <= j < i && (#[trigger] all[j]).1),
            texts(bodies@) == regexes(all).take(i as int),
    {
        let ghost was = anchored;
        let here = parts[i].anchored;
        assert(all[i as int] == parts@[i as int]@);
        anchored = anchored || here;
        assert(anchored == (exists|j: int| 0 <= j < i + 1 && (#[trigger] all[j]).1)) by {
            if was {
                let j = choose|j: int| 0 <= j < i && (#[trigger] all[j]).1;
                assert(0 <= j < i + 1 && all[j].1);
            }
        }
        let ghost before = texts(bodies@);
        bodies.push(parts[i].regex.clone());
        assert(texts(bodies@) == before.push(parts@[i as int].regex@));
    }
    assert(texts(bodies@) == regexes(all));
    if !anchored {
        return None;
    }
    Some(join_strings(bodies.as_slice(), "\\s+"))
}

fn aligned_pattern(lists: &Vec<Vec<&str>>, typed: bool) -> (r: Option<String>)
    ensures
        crate::text::opt_text(r) == aligned_template(lists_view(lists@), typed),
{
    let ghost all = lists_view(lists@);
    if lists.len() == 0 {
        return None;
    }
    assert(all[0] == strs(lists@[0]@));
    let width: usize = lists[0].len();
    if width == 0 {
        return None;
    }
    for k in 0..lists.len()
        invariant
            lists@.len() > 0,
            all == lists_view(lists@),
            width == all[0].len(),
            forall|m: int| 0 <= m < k ==> (#[trigger] all[m]).len() == width,
    {
        assert(all[k as int] == strs(lists@[k as int]@));
        if lists[k].len() != width {
            return None;
        }
    }
    let mut parts: Vec<TokenPattern> = Vec::new();
    for i in 0..width
        invariant
            lists@.len() > 0,
            all == lists_view(lists@),
            width == all[0].len(),
            same_width(all),
            token_views(parts@) == token_templates(all, typed).take(i as int),
    {
        let mut col: Vec<&str> = Vec::new();
        for k in 0..lists.len()
            invariant
                i < width,
                all == lists_view(lists@),
                width == all[0].len(),
                same_width(all),
                strs(col@) == column(all, i as int).take(k as int),
        {
            assert(all[k as int] == strs(lists@[k as int]@));
            let ghost before = strs(col@);
            assert(all[k as int].len() == width);
            col.push(lists[k][i]);
            assert(strs(col@) == before.push(all[k as int][i as int]));
        }
        assert(strs(col@) == column(all, i as int));
        let part = if !typed {
            wildcard_column(col.as_slice())
        } else if lists.len() == 1 {
            assert(strs(col@)[0] == col@[0]@);
            lone_token_pattern(col[0])
        } else {
            column_pattern(col.as_slice())
        };
        let ghost before = token_views(parts@);
        parts.push(part);
        assert(token_views(parts@) == before.push(part@));
    }
    assert(token_views(parts@) == token_templates(all, typed));
    join_tokens(&parts)
}

// ---------------------------------------------------------------------------
// Literal alternation
// ---------------------------------------------------------------------------

/// The distinct non-blank messages, trimmed, in first-seen order.
pub open spec fn distinct_messages(messages: Seq<Seq<char>>) -> Seq<Seq<char>>
    decreases messages.len(),
{
    if messages.len() == 0 {
        Seq::empty()
    } else {
        let seen = distinct_messages(messages.drop_last());
        let last = trimmed(messages.last());
        if last.len() == 0 || seen.contains(last) {
            seen
        } else {
            seen.push(last)
        }
    }
}

/// `(?:one|two)` over the distinct messages.
pub open spec fn literal_template(messages: Seq<Seq<char>>) -> Seq<char> {
    "(?:"@ + join(escaped_all(distinct_messages(messages)), "|"@) + ")"@
}

fn strs_have(list: &Vec<&str>, s: &str) -> (r: bool)
    ensures
        r == strs(list@).contains(s@),
{
    for i in 0..list.len()
        invariant
            forall|j: int| 0 <= j < i ==> list@[j]@ != s@,
    {
        if same_text(list[i], s) {
            assert(strs(list@)[i as int] == s@);
            return true;
        }
    }
    assert forall|j: int| 0 <= j < strs(list@).len() implies strs(list@)[j] != s@ by {}
    false
}

fn literal_alternation(messages: &[&str]) -> (r: String)
    ensures
        r@ == literal_template(strs(messages@)),
{
    let ghost all = strs(messages@);
    let mut seen: Vec<&str> = Vec::new();
    for i in 0..messages.len()
        invariant
            all == strs(messages@),
            strs(seen@) == distinct_messages(all.take(i as int)),
    {
        assert(all.take(i + 1).drop_last() == all.take(i as int));
        assert(all.take(i + 1).last() == messages@[i as int]@);
        let last = trim(messages[i]);
        if last.unicode_len() > 0 && !strs_have(&seen, last) {
            let ghost before = strs(seen@);
            seen.push(last);
            assert(strs(seen@) == before.push(last@));
        }
    }
    assert(all.take(messages@.len() as int) == all);
    let parts = escape_all(seen.as_slice());
    let body = join_strings(parts.as_slice(), "|");
    let mut out = "(?:".to_string();
    out.append(body.as_str());
    out.append(")");
    out
}

// ---------------------------------------------------------------------------
// What is offered
// ---------------------------------------------------------------------------

/// One template offered for a selection, named by the strategy that built it.
#[derive(Debug, Clone, PartialEq, Eq)]
pub struct PatternOption {
    pub name: &'static str,
    pub hint: &'static str,
    pub pattern: String,
}

impl View for PatternOption {
    type V = (Seq<char>, Seq<char>, Seq<char>);

    open spec fn view(&self) -> Self::V {
        (self.name@, self.hint@, self.pattern@)
    }
}

pub open spec fn option_views(v: Seq<PatternOption>) -> Seq<(Seq<char>, Seq<char>, Seq<char>)> {
    v.map_values(|o: PatternOption| o@)
}

/// Whether `pattern` is already among the options.
pub open spec fn offers(
    options: Seq<(Seq<char>, Seq<char>, Seq<char>)>,
    pattern: Seq<char>,
) -> bool {
    exists|i: int| 0 <= i < options.len() && (#[trigger] options[i]).2 == pattern
}

/// The options with one more, unless there is no pattern or it is offered already.
pub open spec fn offered(
    options: Seq<(Seq<char>, Seq<char>, Seq<char>)>,
    name: Seq<char>,
    hint: Seq<char>,
    pattern: Option<Seq<char>>,
) -> Seq<(Seq<char>, Seq<char>, Seq<char>)> {
    match pattern {
        None => options,
        Some(p) => if offers(options, p) {
            options
        } else {
            options.push((name, hint, p))
        },
    }
}

pub open spec fn no_tokens(lists: Seq<Seq<Seq<char>>>) -> bool {
    forall|i: int| 0 <= i < lists.len() ==> (#[trigger] lists[i]).len() == 0
}

/// Every template the messages support, from the loosest strategy to the strictest.
pub open spec fn candidates(messages: Seq<Seq<char>>) -> Seq<
    (Seq<char>, Seq<char>, Seq<char>),
> {
    let lists = tokenized(messages);
    if no_tokens(lists) {
        Seq::empty()
    } else {
        let loose = offered(
            Seq::empty(),
            "loose"@,
            "shared words, .* between"@,
            subsequence_template(lists, anything(messages)),
        );
        let prefix = offered(
            loose,
            "prefix"@,
            "leading words, then .*"@,
            prefix_template(lists),
        );
        let wildcard = if lists.len() > 1 {
            offered(
                prefix,
                "wildcard"@,
                "\\S+ where the lines differ"@,
                aligned_template(lists, false),
            )
        } else {
            prefix
        };
        let typed = offered(
            wildcard,
            "typed"@,
            "value shapes where they differ"@,
            aligned_template(lists, true),
        );
        offered(typed, "exact"@, "just these lines"@, Some(literal_template(messages)))
    }
}

fn offer(
    options: &mut Vec<PatternOption>,
    name: &'static str,
    hint: &'static str,
    pattern: Option<String>,
)
    ensures
        option_views(final(options)@) == offered(
            option_views(old(options)@),
            name@,
            hint@,
            crate::text::opt_text(pattern),
        ),
{
    let ghost before = option_views(options@);
    if let Some(p) = pattern {
        for i in 0..options.len()
            invariant
                before == option_views(options@),
                options@ == old(options)@,
                pattern == Some(p),
                forall|j: int| 0 <= j < i ==> (#[trigger] before[j]).2 != p@,
        {
            assert(before[i as int] == options@[i as int]@);
            if same_text(options[i].pattern.as_str(), p.as_str()) {
                return;
            }
        }
        let option = PatternOption { name, hint, pattern: p };
        options.push(option);
        assert(option_views(options@) == before.push(option@));
    }
}

fn lists_have_no_tokens(lists: &Vec<Vec<&str>>) -> (r: bool)
    ensures
        r == no_tokens(lists_view(lists@)),
{
    let ghost all = lists_view(lists@);
    for i in 0..lists.len()
        invariant
            all == lists_view(lists@),
            forall|j: int| 0 <= j < i ==> (#[trigger] all[j]).len() == 0,
    {
        assert(all[i as int] == strs(lists@[i as int]@));
        if lists[i].len() > 0 {
            return false;
        }
    }
    true
}

/// Every template the selected messages support, from the loosest strategy to the strictest.
///
/// How greedy each one is depends on the log, not on the strategy, so the caller measures them
/// against real lines. Deduplicated: where two strategies give the same regex, the looser
/// strategy's name stays.
pub fn pattern_candidates(messages: &[&str]) -> (r: Vec<PatternOption>)
    ensures
        option_views(r@) == candidates(strs(messages@)),
{
    let lists = tokenize(messages);
    let mut options: Vec<PatternOption> = Vec::new();
    assert(option_views(options@) =~= Seq::<(Seq<char>, Seq<char>, Seq<char>)>::empty());
    if lists_have_no_tokens(&lists) {
        return options;
    }
    offer(
        &mut options,
        "loose",
        "shared words, .* between",
        subsequence_pattern(&lists, anything_between(messages)),
    );
    offer(&mut options, "prefix", "leading words, then .*", prefix_pattern(&lists));
    assert(lists_view(lists@).len() == lists@.len());
    if lists.len() > 1 {
        offer(
            &mut options,
            "wildcard",
            "\\S+ where the lines differ",
            aligned_pattern(&lists, false),
        );
    }
    offer(&mut options, "typed", "value shapes where they differ", aligned_pattern(&lists, true));
    offer(&mut options, "exact", "just these lines", Some(literal_alternation(messages)));
    options
}

/// The least of the token counts.
pub open spec fn shortest(lists: Seq<Seq<Seq<char>>>) -> nat
    decreases lists.len(),
{
    if lists.len() == 0 {
        0
    } else if lists.len() == 1 {
        lists[0].len()
    } else {
        let before = shortest(lists.drop_last());
        if lists.last().len() < before {
            lists.last().len()
        } else {
            before
        }
    }
}

/// The template a selection starts on: the typed one, else the shared tokens where they carry
/// at least half the shortest message, else the lines themselves.
pub open spec fn default_template(messages: Seq<Seq<char>>) -> Option<Seq<char>> {
    let lists = tokenized(messages);
    if messages.len() < 2 || no_tokens(lists) {
        None
    } else if aligned_template(lists, true) is Some {
        aligned_template(lists, true)
    } else if shortest(lists) > 0 && common_tokens(lists).len() * 2 >= shortest(lists) {
        subsequence_template(lists, anything(messages))
    } else {
        Some(literal_template(messages))
    }
}

fn shortest_list(lists: &Vec<Vec<&str>>) -> (r: usize)
    ensures
        r == shortest(lists_view(lists@)),
{
    let ghost all = lists_view(lists@);
    if lists.len() == 0 {
        return 0;
    }
    assert(all[0] == strs(lists@[0]@));
    let mut least: usize = lists[0].len();
    let mut i: usize = 1;
    assert(all.take(1).len() == 1 && all.take(1)[0] == all[0]);
    while i < lists.len()
        invariant
            1 <= i <= lists@.len(),
            all == lists_view(lists@),
            least == shortest(all.take(i as int)),
        decreases lists@.len() - i,
    {
        assert(all.take(i + 1).drop_last() == all.take(i as int));
        assert(all.take(i + 1).last() == strs(lists@[i as int]@));
        if lists[i].len() < least {
            least = lists[i].len();
        }
        i = i + 1;
    }
    assert(all.take(lists@.len() as int) == all);
    least
}

/// Derive a regex from two or more messages, generalising the parts where they differ.
pub fn common_message_pattern(messages: &[&str]) -> (r: Option<String>)
    ensures
        crate::text::opt_text(r) == default_template(strs(messages@)),
{
    if messages.len() < 2 {
        return None;
    }
    let lists = tokenize(messages);
    if lists_have_no_tokens(&lists) {
        return None;
    }
    let aligned = aligned_pattern(&lists, true);
    if aligned.is_some() {
        return aligned;
    }
    let least: usize = shortest_list(&lists);
    let common = tokens_in_common(&lists);
    assert(strs(common@).len() == common@.len());
    // `2 * shared >= least`, without the product.
    if least > 0 && common.len() >= least - least / 2 {
        return subsequence_pattern(&lists, anything_between(messages));
    }
    Some(literal_alternation(messages))
}

/// The template of a lone message: its shaped values give way, else it stands for itself.
pub open spec fn lone_template(message: Seq<char>) -> Option<Seq<char>> {
    if words(message).len() == 0 {
        None
    } else {
        match aligned_template(seq![words(message)], true) {
            Some(p) => Some(p),
            None => Some(escaped(trimmed(message))),
        }
    }
}

/// Generalise a single message into a template. Only tokens with a recognisable value shape
/// give way; every other word stays literal.
pub fn message_template(message: &str) -> (r: Option<String>)
    ensures
        crate::text::opt_text(r) == lone_template(message@),
{
    let tokens = text_words(message);
    assert(strs(tokens@).len() == tokens@.len());
    if tokens.len() == 0 {
        return None;
    }
    let mut lists: Vec<Vec<&str>> = Vec::new();
    lists.push(tokens);
    assert(lists_view(lists@) =~= seq![words(message@)]);
    let aligned = aligned_pattern(&lists, true);
    if aligned.is_some() {
        return aligned;
    }
    Some(escape(trim(message)))
}

// ---------------------------------------------------------------------------
// Laws
// ---------------------------------------------------------------------------

/// No pattern twice.
pub open spec fn patterns_distinct(options: Seq<(Seq<char>, Seq<char>, Seq<char>)>) -> bool {
    forall|i: int, j: int|
        0 <= i < j < options.len() ==> (#[trigger] options[i]).2 != (#[trigger] options[j]).2
}

proof fn lemma_offered(
    options: Seq<(Seq<char>, Seq<char>, Seq<char>)>,
    name: Seq<char>,
    hint: Seq<char>,
    pattern: Option<Seq<char>>,
)
    ensures
        patterns_distinct(options) ==> patterns_distinct(offered(options, name, hint, pattern)),
        pattern is Some ==> offers(offered(options, name, hint, pattern), pattern->0),
        forall|q: Seq<char>|
            #[trigger] offers(options, q) ==> offers(offered(options, name, hint, pattern), q),
{
    let more = offered(options, name, hint, pattern);
    if pattern is Some {
        if !offers(options, pattern->0) {
            assert(more.last().2 == pattern->0);
        }
    }
    assert forall|q: Seq<char>| #[trigger] offers(options, q) implies offers(more, q) by {
        let i = choose|i: int| 0 <= i < options.len() && (#[trigger] options[i]).2 == q;
        assert(more[i] == options[i]);
    }
}

/// A selection that holds any text is offered each pattern once, its own lines among them, and
/// the template it starts on is one of those offered.
pub proof fn candidates_hold_the_default(messages: Seq<Seq<char>>)
    ensures
        patterns_distinct(candidates(messages)),
        !no_tokens(tokenized(messages)) ==> offers(
            candidates(messages),
            literal_template(messages),
        ),
        default_template(messages) is Some ==> offers(
            candidates(messages),
            default_template(messages)->0,
        ),
{
    let lists = tokenized(messages);
    if !no_tokens(lists) {
        let none = Seq::<(Seq<char>, Seq<char>, Seq<char>)>::empty();
        let p1 = subsequence_template(lists, anything(messages));
        let loose = offered(none, "loose"@, "shared words, .* between"@, p1);
        lemma_offered(none, "loose"@, "shared words, .* between"@, p1);
        let p2 = prefix_template(lists);
        let prefix = offered(loose, "prefix"@, "leading words, then .*"@, p2);
        lemma_offered(loose, "prefix"@, "leading words, then .*"@, p2);
        let p3 = aligned_template(lists, false);
        let wildcard = if lists.len() > 1 {
            offered(prefix, "wildcard"@, "\\S+ where the lines differ"@, p3)
        } else {
            prefix
        };
        lemma_offered(prefix, "wildcard"@, "\\S+ where the lines differ"@, p3);
        let p4 = aligned_template(lists, true);
        let typed = offered(wildcard, "typed"@, "value shapes where they differ"@, p4);
        lemma_offered(wildcard, "typed"@, "value shapes where they differ"@, p4);
        let p5 = Some(literal_template(messages));
        lemma_offered(typed, "exact"@, "just these lines"@, p5);
    }
}

proof fn lemma_words_are_filled(s: Seq<char>)
    ensures
        forall|i: int| 0 <= i < words(s).len() ==> (#[trigger] words(s)[i]).len() > 0,
        words(s).len() == 0 <==> is_blank(s),
    decreases s.len(),
{
    let rest = trim_start_by(s, space());
    let n = span(rest, ink()) as int;
    lemma_span(s, space());
    lemma_span(rest, ink());
    lemma_span_end(rest, space());
    if rest.len() > 0 {
        assert(rest[0] == s[span(s, space()) as int]);
        assert(!space()(rest[0]) && ink()(rest[0]));
        assert(span(rest, ink()) > 0);
    }
    if n > 0 {
        lemma_words_are_filled(rest.skip(n));
        let all = words(s);
        assert forall|i: int| 0 <= i < all.len() implies (#[trigger] all[i]).len() > 0 by {
            if i > 0 {
                assert(all[i] == words(rest.skip(n))[i - 1]);
            }
        }
    }
}

/// Whether a pattern begins, and not with a group.
pub open spec fn starts_plainly(pattern: Seq<char>) -> bool {
    pattern.len() > 0 && pattern[0] != '('
}

proof fn lemma_escaped_starts(s: Seq<char>)
    ensures
        s.len() == 0 ==> escaped(s).len() == 0,
        s.len() > 0 ==> starts_plainly(escaped(s)),
    decreases s.len(),
{
    if s.len() > 0 {
        let init = escaped(s.drop_last());
        lemma_escaped_starts(s.drop_last());
        if s.len() > 1 {
            assert(escaped(s)[0] == init[0]);
        } else {
            assert(init.len() == 0);
        }
    }
}

proof fn lemma_shape_starts(class: ValueClass)
    ensures
        starts_plainly(class.shape()),
{
    reveal_strlit("[0-9a-fA-F]{8}(?:-[0-9a-fA-F]{4}){3}-[0-9a-fA-F]{12}");
    reveal_strlit("\\d{1,3}(?:\\.\\d{1,3}){3}");
    reveal_strlit("0[xX][0-9a-fA-F]+");
    reveal_strlit("\\d+");
    reveal_strlit("\\d+[.,]\\d+");
    reveal_strlit("[0-9a-fA-F]+");
    reveal_strlit("'[^']*'");
    reveal_strlit("\"[^\"]*\"");
}

proof fn lemma_framed_starts(start: Seq<char>, class: ValueClass, end: Seq<char>)
    ensures
        starts_plainly(escaped(start) + class.shape() + escaped(end)),
{
    let whole = escaped(start) + class.shape() + escaped(end);
    lemma_escaped_starts(start);
    lemma_shape_starts(class);
    if start.len() > 0 {
        assert(whole[0] == escaped(start)[0]);
    } else {
        assert(whole[0] == class.shape()[0]);
    }
}

proof fn lemma_lone_starts(token: Seq<char>, lead: int, body: Seq<char>, offset: int)
    requires
        token.len() > 0,
    ensures
        starts_plainly(lone_from(token, lead, body, offset).0),
    decreases body.len() - offset,
{
    if offset >= body.len() {
        lemma_escaped_starts(token);
    } else if (offset == 0 || is_affix(body[offset - 1])) && class_of(
        seq![body.skip(offset)],
    ) is Some {
        lemma_framed_starts(
            token.take(lead + offset),
            class_of(seq![body.skip(offset)])->0,
            token.skip(lead + body.len()),
        );
    } else {
        lemma_lone_starts(token, lead, body, offset + 1);
    }
}

proof fn lemma_token_starts(col: Seq<Seq<char>>, typed: bool)
    requires
        col.len() > 0,
        col[0].len() > 0,
    ensures
        starts_plainly(token_template(col, typed).0),
{
    reveal_strlit("\\S+");
    lemma_escaped_starts(col[0]);
    if typed && col.len() == 1 {
        let lead = span(col[0], affix()) as int;
        lemma_lone_starts(col[0], lead, trim_end_by(col[0].skip(lead), affix()), 0);
    } else if typed && !all_same(col) {
        if class_of(col) is Some {
            lemma_shape_starts(class_of(col)->0);
        } else {
            let head = shared_start(col, 0);
            let rests = tails(col, head);
            let foot = shared_end(rests, 0);
            if class_of(heads(rests, foot)) is Some {
                lemma_framed_starts(
                    col[0].take(head),
                    class_of(heads(rests, foot))->0,
                    rests[0].skip(rests[0].len() - foot),
                );
            }
        }
    }
}

proof fn lemma_join_starts(parts: Seq<Seq<char>>, sep: Seq<char>)
    requires
        parts.len() > 0,
        starts_plainly(parts[0]),
    ensures
        starts_plainly(join(parts, sep)),
    decreases parts.len(),
{
    if parts.len() > 1 {
        let init = parts.drop_last();
        lemma_join_starts(init, sep);
        assert(join(parts, sep)[0] == join(init, sep)[0]);
    }
}

proof fn lemma_subsequence_holds(part: Seq<Seq<char>>, whole: Seq<Seq<char>>)
    requires
        is_subsequence(part, whole),
        part.len() > 0,
    ensures
        whole.contains(part[0]),
    decreases whole.len(),
{
    if part[0] != whole[0] {
        lemma_subsequence_holds(part, whole.skip(1));
        let k = choose|k: int| 0 <= k < whole.skip(1).len() && whole.skip(1)[k] == part[0];
        assert(whole[k + 1] == part[0]);
    }
}

/// No strategy but the last gives what the last one does: its group is its own.
proof fn lemma_only_lines_are_grouped(messages: Seq<Seq<char>>)
    ensures
        ({
            let lists = tokenized(messages);
            let lines = literal_template(messages);
            &&& subsequence_template(lists, anything(messages)) != Some(lines)
            &&& prefix_template(lists) != Some(lines)
            &&& aligned_template(lists, false) != Some(lines)
            &&& aligned_template(lists, true) != Some(lines)
        }),
{
    reveal_strlit("(?:");
    let lists = tokenized(messages);
    let lines = literal_template(messages);
    assert(lines[0] == '(');
    if lists.len() > 0 {
        lemma_words_are_filled(messages[0]);
        assert(lists[0] == words(messages[0]));
    }
    let common = common_tokens(lists);
    if common.len() > 0 {
        common_tokens_occur_in_every_list(lists, 0);
        lemma_subsequence_holds(common, lists[0]);
        let k = choose|k: int| 0 <= k < lists[0].len() && lists[0][k] == common[0];
        assert(lists[0][k].len() > 0);
        lemma_escaped_starts(common[0]);
        lemma_join_starts(escaped_all(common), anything(messages));
    }
    if prefix_template(lists) is Some {
        let shared = shared_from(lists, 0);
        lemma_shared_from(lists, 0);
        let head = escaped_all(lists[0].take(shared));
        lemma_escaped_starts(lists[0][0]);
        assert(head[0] == escaped(lists[0][0]));
        lemma_join_starts(head, "\\s+"@);
        assert(prefix_template(lists)->0[0] == join(head, "\\s+"@)[0]);
    }
    if aligned_template(lists, false) is Some {
        let parts = token_templates(lists, false);
        lemma_token_starts(column(lists, 0), false);
        assert(regexes(parts)[0] == token_template(column(lists, 0), false).0);
        lemma_join_starts(regexes(parts), "\\s+"@);
    }
    if aligned_template(lists, true) is Some {
        let parts = token_templates(lists, true);
        lemma_token_starts(column(lists, 0), true);
        assert(regexes(parts)[0] == token_template(column(lists, 0), true).0);
        lemma_join_starts(regexes(parts), "\\s+"@);
    }
}

proof fn lemma_shared_from(lists: Seq<Seq<Seq<char>>>, n: int)
    requires
        lists.len() > 0,
        0 <= n <= lists[0].len(),
    ensures
        n <= shared_from(lists, n) <= lists[0].len(),
    decreases lists[0].len() - n,
{
    if agree_at(lists, n) {
        lemma_shared_from(lists, n + 1);
    }
}

/// The strategies, from the loosest to the strictest.
pub open spec fn strategies() -> Seq<Seq<char>> {
    seq!["loose"@, "prefix"@, "wildcard"@, "typed"@, "exact"@]
}

/// The strategies that the options are named by.
pub open spec fn names_of(options: Seq<(Seq<char>, Seq<char>, Seq<char>)>) -> Seq<Seq<char>> {
    options.map_values(|o: (Seq<char>, Seq<char>, Seq<char>)| o.0)
}

/// One more strategy tried: its name comes last, if it comes at all.
proof fn lemma_offered_names(
    options: Seq<(Seq<char>, Seq<char>, Seq<char>)>,
    tried: Seq<Seq<char>>,
    name: Seq<char>,
    hint: Seq<char>,
    pattern: Option<Seq<char>>,
)
    requires
        is_subsequence(names_of(options), tried),
    ensures
        is_subsequence(names_of(offered(options, name, hint, pattern)), tried.push(name)),
{
    let before = names_of(options);
    let more = names_of(offered(options, name, hint, pattern));
    lemma_subsequence_longer(before, tried, name);
    if offered(options, name, hint, pattern) != options {
        assert(more =~= before.push(name));
    }
}

proof fn lemma_subsequence_longer(part: Seq<Seq<char>>, whole: Seq<Seq<char>>, last: Seq<char>)
    requires
        is_subsequence(part, whole),
    ensures
        is_subsequence(part, whole.push(last)),
        is_subsequence(part.push(last), whole.push(last)),
    decreases whole.len(),
{
    let all = whole.push(last);
    if whole.len() == 0 {
        assert(part.push(last).skip(1).len() == 0);
        assert(is_subsequence(part.push(last).skip(1), all.skip(1)));
    } else {
        assert(all.skip(1) =~= whole.skip(1).push(last));
        if part.len() == 0 {
            lemma_subsequence_longer(part, whole.skip(1), last);
            assert(part.push(last)[0] == last);
            if all[0] == last {
                assert(part.push(last).skip(1).len() == 0);
                assert(is_subsequence(part.push(last).skip(1), all.skip(1)));
            }
        } else {
            assert(part.push(last)[0] == part[0]);
            assert(part.push(last).skip(1) =~= part.skip(1).push(last));
            if part[0] == whole[0] {
                lemma_subsequence_longer(part.skip(1), whole.skip(1), last);
            } else {
                lemma_subsequence_longer(part, whole.skip(1), last);
            }
        }
    }
}

/// Which strategies are among the options, besides those named.
proof fn lemma_offered_holds(
    options: Seq<(Seq<char>, Seq<char>, Seq<char>)>,
    name: Seq<char>,
    hint: Seq<char>,
    pattern: Option<Seq<char>>,
    other: Seq<char>,
)
    ensures
        names_of(offered(options, name, hint, pattern)).contains(other) ==> names_of(
            options,
        ).contains(other) || (other == name && pattern is Some),
{
    let more = offered(options, name, hint, pattern);
    if names_of(more).contains(other) {
        let k = choose|k: int| 0 <= k < names_of(more).len() && names_of(more)[k] == other;
        if k < options.len() {
            assert(names_of(options)[k] == other);
        }
    }
}

/// What is offered climbs from the loosest strategy to the strictest: nothing where every
/// message is blank, else the names come in the order of the strategies and end in `exact`. No
/// pattern is offered twice, `wildcard` and `typed` only where the messages have as many tokens
/// each, and `wildcard` only for two messages or more.
pub proof fn candidates_climb_from_loose_to_exact(messages: Seq<Seq<char>>)
    ensures
        candidates(messages).len() == 0 <==> (forall|i: int|
            0 <= i < messages.len() ==> is_blank(#[trigger] messages[i])),
        is_subsequence(names_of(candidates(messages)), strategies()),
        candidates(messages).len() > 0 ==> candidates(messages).last().0 == "exact"@,
        patterns_distinct(candidates(messages)),
        names_of(candidates(messages)).contains("wildcard"@) ==> messages.len() >= 2 && same_width(
            tokenized(messages),
        ),
        names_of(candidates(messages)).contains("typed"@) ==> same_width(tokenized(messages)),
{
    let lists = tokenized(messages);
    candidates_hold_the_default(messages);
    assert forall|i: int| 0 <= i < messages.len() implies ((#[trigger] lists[i]).len() == 0
        <==> is_blank(messages[i])) by {
        lemma_words_are_filled(messages[i]);
    }
    if no_tokens(lists) {
        assert forall|i: int| 0 <= i < messages.len() implies is_blank(#[trigger] messages[i]) by {
            assert(lists[i].len() == 0);
        }
        assert(names_of(candidates(messages)) =~= Seq::<Seq<char>>::empty());
    } else {
        let some = choose|i: int| 0 <= i < lists.len() && (#[trigger] lists[i]).len() > 0;
        assert(!is_blank(messages[some]));
        reveal_strlit("loose");
        reveal_strlit("prefix");
        reveal_strlit("wildcard");
        reveal_strlit("typed");
        reveal_strlit("exact");
        assert("wildcard"@.len() == 8 && "typed"@.len() == 5 && "loose"@.len() == 5 && "exact"@.len()
            == 5 && "prefix"@.len() == 6);
        assert("typed"@[0] == 't' && "loose"@[0] == 'l' && "exact"@[0] == 'e');
        let none = Seq::<(Seq<char>, Seq<char>, Seq<char>)>::empty();
        let p1 = subsequence_template(lists, anything(messages));
        let loose = offered(none, "loose"@, "shared words, .* between"@, p1);
        assert(names_of(none) =~= Seq::<Seq<char>>::empty());
        let t0 = Seq::<Seq<char>>::empty();
        let t1 = t0.push("loose"@);
        let t2 = t1.push("prefix"@);
        let t3 = t2.push("wildcard"@);
        let t4 = t3.push("typed"@);
        let t5 = t4.push("exact"@);
        lemma_offered_names(none, t0, "loose"@, "shared words, .* between"@, p1);
        lemma_offered_holds(none, "loose"@, "shared words, .* between"@, p1, "wildcard"@);
        lemma_offered_holds(none, "loose"@, "shared words, .* between"@, p1, "typed"@);
        let p2 = prefix_template(lists);
        let prefix = offered(loose, "prefix"@, "leading words, then .*"@, p2);
        lemma_offered_names(loose, t1, "prefix"@, "leading words, then .*"@, p2);
        lemma_offered_holds(loose, "prefix"@, "leading words, then .*"@, p2, "wildcard"@);
        lemma_offered_holds(loose, "prefix"@, "leading words, then .*"@, p2, "typed"@);
        let p3 = if lists.len() > 1 {
            aligned_template(lists, false)
        } else {
            None
        };
        let wildcard = offered(prefix, "wildcard"@, "\\S+ where the lines differ"@, p3);
        lemma_offered_names(prefix, t2, "wildcard"@, "\\S+ where the lines differ"@, p3);
        lemma_offered_holds(
            prefix,
            "wildcard"@,
            "\\S+ where the lines differ"@,
            p3,
            "wildcard"@,
        );
        lemma_offered_holds(prefix, "wildcard"@, "\\S+ where the lines differ"@, p3, "typed"@);
        let p4 = aligned_template(lists, true);
        let typed = offered(wildcard, "typed"@, "value shapes where they differ"@, p4);
        lemma_offered_names(wildcard, t3, "typed"@, "value shapes where they differ"@, p4);
        lemma_offered_holds(
            wildcard,
            "typed"@,
            "value shapes where they differ"@,
            p4,
            "wildcard"@,
        );
        lemma_offered_holds(wildcard, "typed"@, "value shapes where they differ"@, p4, "typed"@);
        let p5 = Some(literal_template(messages));
        lemma_offered_names(typed, t4, "exact"@, "just these lines"@, p5);
        lemma_offered_holds(typed, "exact"@, "just these lines"@, p5, "wildcard"@);
        lemma_offered_holds(typed, "exact"@, "just these lines"@, p5, "typed"@);
        assert(t5 =~= strategies());
        lemma_only_lines_are_grouped(messages);
        lemma_offered_new(none, "loose"@, "shared words, .* between"@, p1, p5->0);
        lemma_offered_new(loose, "prefix"@, "leading words, then .*"@, p2, p5->0);
        lemma_offered_new(prefix, "wildcard"@, "\\S+ where the lines differ"@, p3, p5->0);
        lemma_offered_new(wildcard, "typed"@, "value shapes where they differ"@, p4, p5->0);
        assert(!offers(typed, p5->0));
    }
}

proof fn lemma_offered_new(
    options: Seq<(Seq<char>, Seq<char>, Seq<char>)>,
    name: Seq<char>,
    hint: Seq<char>,
    pattern: Option<Seq<char>>,
    other: Seq<char>,
)
    requires
        !offers(options, other),
        pattern != Some(other),
    ensures
        !offers(offered(options, name, hint, pattern), other),
{
    let more = offered(options, name, hint, pattern);
    if offers(more, other) {
        let k = choose|k: int| 0 <= k < more.len() && (#[trigger] more[k]).2 == other;
        if k < options.len() {
            assert(options[k].2 == other);
        }
    }
}

/// Whether `pattern` holds `text` literally.
pub open spec fn holds_literally(pattern: Seq<char>, text: Seq<char>) -> bool {
    exists|before: Seq<char>, after: Seq<char>|
        pattern == #[trigger] (before + escaped(text) + after)
}

/// Whether `pattern` holds some part of the token at `k` in list `m` literally.
pub open spec fn keeps_part_of(
    lists: Seq<Seq<Seq<char>>>,
    pattern: Seq<char>,
    m: int,
    k: int,
) -> bool {
    exists|a: int, b: int|
        0 <= a < b <= lists[m][k].len() && holds_literally(
            pattern,
            #[trigger] lists[m][k].subrange(a, b),
        )
}

/// Whether `pattern` holds some text of the tokens literally.
pub open spec fn keeps_text(lists: Seq<Seq<Seq<char>>>, pattern: Seq<char>) -> bool {
    exists|m: int, k: int|
        0 <= m < lists.len() && 0 <= k < lists[m].len() && #[trigger] keeps_part_of(
            lists,
            pattern,
            m,
            k,
        )
}

proof fn lemma_keeps(
    lists: Seq<Seq<Seq<char>>>,
    k: int,
    a: int,
    b: int,
    before: Seq<char>,
    after: Seq<char>,
)
    requires
        lists.len() > 0,
        0 <= k < lists[0].len(),
        0 <= a < b <= lists[0][k].len(),
    ensures
        keeps_text(lists, before + escaped(lists[0][k].subrange(a, b)) + after),
{
    let pattern = before + escaped(lists[0][k].subrange(a, b)) + after;
    assert(holds_literally(pattern, lists[0][k].subrange(a, b)));
    assert(keeps_part_of(lists, pattern, 0, k));
}

proof fn lemma_keeps_within(
    lists: Seq<Seq<Seq<char>>>,
    pattern: Seq<char>,
    before: Seq<char>,
    after: Seq<char>,
)
    requires
        keeps_text(lists, pattern),
    ensures
        keeps_text(lists, before + pattern + after),
{
    let (m, k) = choose|m: int, k: int|
        0 <= m < lists.len() && 0 <= k < lists[m].len() && #[trigger] keeps_part_of(
            lists,
            pattern,
            m,
            k,
        );
    let (a, b) = choose|a: int, b: int|
        0 <= a < b <= lists[m][k].len() && holds_literally(
            pattern,
            #[trigger] lists[m][k].subrange(a, b),
        );
    let text = lists[m][k].subrange(a, b);
    let (x, y) = choose|x: Seq<char>, y: Seq<char>| pattern == #[trigger] (x + escaped(text) + y);
    let whole = before + pattern + after;
    assert(whole =~= (before + x) + escaped(text) + (y + after));
    assert(holds_literally(whole, text));
    assert(keeps_part_of(lists, whole, m, k));
}

proof fn lemma_join_keeps(
    lists: Seq<Seq<Seq<char>>>,
    parts: Seq<Seq<char>>,
    sep: Seq<char>,
    i: int,
)
    requires
        0 <= i < parts.len(),
        keeps_text(lists, parts[i]),
    ensures
        keeps_text(lists, join(parts, sep)),
    decreases parts.len(),
{
    let none = Seq::<char>::empty();
    if parts.len() > 1 {
        let init = parts.drop_last();
        if i < init.len() {
            lemma_join_keeps(lists, init, sep, i);
            lemma_keeps_within(lists, join(init, sep), none, sep + parts.last());
            assert(join(parts, sep) =~= none + join(init, sep) + (sep + parts.last()));
        } else {
            lemma_keeps_within(lists, parts[i], join(init, sep) + sep, none);
            assert(join(parts, sep) =~= (join(init, sep) + sep) + parts[i] + none);
        }
    }
}

/// A start and an end of one token, framing a class, are text of it unless both are empty.
proof fn lemma_frame_keeps(
    lists: Seq<Seq<Seq<char>>>,
    k: int,
    head: int,
    foot: int,
    shape: Seq<char>,
)
    requires
        lists.len() > 0,
        0 <= k < lists[0].len(),
        0 <= head <= lists[0][k].len(),
        0 <= foot <= lists[0][k].len(),
        escaped(lists[0][k].take(head)).len() > 0 || escaped(
            lists[0][k].skip(lists[0][k].len() - foot),
        ).len() > 0,
    ensures
        keeps_text(
            lists,
            escaped(lists[0][k].take(head)) + shape + escaped(
                lists[0][k].skip(lists[0][k].len() - foot),
            ),
        ),
{
    let token = lists[0][k];
    let n = token.len() as int;
    let start = token.take(head);
    let end = token.skip(n - foot);
    let none = Seq::<char>::empty();
    let whole = escaped(start) + shape + escaped(end);
    lemma_escaped_starts(start);
    lemma_escaped_starts(end);
    if start.len() > 0 {
        lemma_keeps(lists, k, 0, head, none, shape + escaped(end));
        assert(token.subrange(0, head) == start);
        assert(whole =~= none + escaped(start) + (shape + escaped(end)));
    } else {
        lemma_keeps(lists, k, n - foot, n, escaped(start) + shape, none);
        assert(token.subrange(n - foot, n) =~= end);
        assert(whole =~= (escaped(start) + shape) + escaped(end) + none);
    }
}

proof fn lemma_whole_keeps(lists: Seq<Seq<Seq<char>>>, k: int)
    requires
        lists.len() > 0,
        0 <= k < lists[0].len(),
        lists[0][k].len() > 0,
    ensures
        keeps_text(lists, escaped(lists[0][k])),
{
    let none = Seq::<char>::empty();
    let token = lists[0][k];
    lemma_keeps(lists, k, 0, token.len() as int, none, none);
    assert(token.subrange(0, token.len() as int) =~= token);
    assert(none + escaped(token) + none =~= escaped(token));
}

proof fn lemma_lone_keeps(
    lists: Seq<Seq<Seq<char>>>,
    k: int,
    lead: int,
    body: Seq<char>,
    offset: int,
)
    requires
        lists.len() > 0,
        0 <= k < lists[0].len(),
        lists[0][k].len() > 0,
        0 <= lead,
        0 <= offset,
        lead + body.len() <= lists[0][k].len(),
        lone_from(lists[0][k], lead, body, offset).1,
    ensures
        keeps_text(lists, lone_from(lists[0][k], lead, body, offset).0),
    decreases body.len() - offset,
{
    let token = lists[0][k];
    if offset >= body.len() {
        lemma_whole_keeps(lists, k);
    } else if (offset == 0 || is_affix(body[offset - 1])) && class_of(
        seq![body.skip(offset)],
    ) is Some {
        let foot = token.len() - lead - body.len();
        assert(token.len() - foot == lead + body.len());
        lemma_frame_keeps(
            lists,
            k,
            lead + offset,
            foot,
            class_of(seq![body.skip(offset)])->0.shape(),
        );
    } else {
        lemma_lone_keeps(lists, k, lead, body, offset + 1);
    }
}

/// An anchored token of a template holds text of the tokens it stands for.
proof fn lemma_anchored_keeps(lists: Seq<Seq<Seq<char>>>, k: int, typed: bool)
    requires
        lists.len() > 0,
        0 <= k < lists[0].len(),
        lists[0][k].len() > 0,
        token_template(column(lists, k), typed).1,
    ensures
        keeps_text(lists, token_template(column(lists, k), typed).0),
{
    let col = column(lists, k);
    let token = lists[0][k];
    assert(col[0] == token);
    lemma_whole_keeps(lists, k);
    if typed && col.len() == 1 {
        let lead = span(token, affix()) as int;
        lemma_span(token, affix());
        lemma_span_end(token.skip(lead), affix());
        lemma_lone_keeps(lists, k, lead, trim_end_by(token.skip(lead), affix()), 0);
    } else if typed && !all_same(col) {
        let head = shared_start(col, 0);
        let rests = tails(col, head);
        let foot = shared_end(rests, 0);
        assert forall|m: int| 0 <= m < col.len() implies (#[trigger] col[m]).take(0)
            == col[0].take(0) by {}
        lemma_shared_start(col, 0);
        assert forall|m: int| 0 <= m < rests.len() implies (#[trigger] rests[m]).skip(
            rests[m].len() - 0,
        ) == rests[0].skip(rests[0].len() - 0) by {}
        lemma_shared_end(rests, 0);
        assert(rests[0] == token.skip(head));
        assert(rests[0].skip(rests[0].len() - foot) =~= token.skip(token.len() - foot));
        lemma_frame_keeps(lists, k, head, foot, class_of(heads(rests, foot))->0.shape());
    }
}

proof fn lemma_aligned_keeps(lists: Seq<Seq<Seq<char>>>, typed: bool)
    requires
        aligned_template(lists, typed) is Some,
        forall|k: int| 0 <= k < lists[0].len() ==> (#[trigger] lists[0][k]).len() > 0,
    ensures
        keeps_text(lists, aligned_template(lists, typed)->0),
{
    let parts = token_templates(lists, typed);
    let k = choose|k: int| 0 <= k < parts.len() && (#[trigger] parts[k]).1;
    assert(lists[0][k].len() > 0);
    lemma_anchored_keeps(lists, k, typed);
    assert(regexes(parts)[k] == token_template(column(lists, k), typed).0);
    lemma_join_keeps(lists, regexes(parts), "\\s+"@, k);
}

/// Whether every option but the lines themselves holds some text of the tokens literally.
pub open spec fn options_keep_text(
    lists: Seq<Seq<Seq<char>>>,
    options: Seq<(Seq<char>, Seq<char>, Seq<char>)>,
) -> bool {
    forall|i: int|
        0 <= i < options.len() && (#[trigger] options[i]).0 != "exact"@ ==> keeps_text(
            lists,
            options[i].2,
        )
}

/// A template of nothing but wildcards is never offered: every one but `exact`, which is the
/// lines themselves, holds some text of the selected messages literally.
pub proof fn no_candidate_is_all_wildcards(messages: Seq<Seq<char>>)
    ensures
        options_keep_text(tokenized(messages), candidates(messages)),
{
    let lists = tokenized(messages);
    if !no_tokens(lists) {
        lemma_words_are_filled(messages[0]);
        assert(lists[0] == words(messages[0]));
        let none = Seq::<char>::empty();
        let common = common_tokens(lists);
        if common.len() > 0 {
            common_tokens_occur_in_every_list(lists, 0);
            lemma_subsequence_holds(common, lists[0]);
            let k = choose|k: int| 0 <= k < lists[0].len() && lists[0][k] == common[0];
            lemma_whole_keeps(lists, k);
            assert(escaped_all(common)[0] == escaped(lists[0][k]));
            lemma_join_keeps(lists, escaped_all(common), anything(messages), 0);
        }
        if prefix_template(lists) is Some {
            lemma_shared_from(lists, 0);
            let head = escaped_all(lists[0].take(shared_from(lists, 0)));
            lemma_whole_keeps(lists, 0);
            assert(head[0] == escaped(lists[0][0]));
            lemma_join_keeps(lists, head, "\\s+"@, 0);
            lemma_keeps_within(lists, join(head, "\\s+"@), none, ".*"@);
            assert(prefix_template(lists)->0 =~= none + join(head, "\\s+"@) + ".*"@);
        }
        if aligned_template(lists, false) is Some {
            lemma_aligned_keeps(lists, false);
        }
        if aligned_template(lists, true) is Some {
            lemma_aligned_keeps(lists, true);
        }
    }
}

/// The lines offered literally are the selected ones: each that is not blank is there, trimmed,
/// and none is there twice.
pub proof fn literal_lines_are_the_messages(messages: Seq<Seq<char>>)
    ensures
        distinct_messages(messages).no_duplicates(),
        forall|i: int|
            0 <= i < messages.len() && trimmed(#[trigger] messages[i]).len() > 0
                ==> distinct_messages(messages).contains(trimmed(messages[i])),
        forall|k: int|
            0 <= k < distinct_messages(messages).len() ==> exists|i: int|
                0 <= i < messages.len() && trimmed(#[trigger] messages[i]) == (
                #[trigger] distinct_messages(messages)[k]),
    decreases messages.len(),
{
    if messages.len() > 0 {
        let init = messages.drop_last();
        let seen = distinct_messages(init);
        let all = distinct_messages(messages);
        let last = trimmed(messages.last());
        literal_lines_are_the_messages(init);
        assert forall|i: int|
            0 <= i < messages.len() && trimmed(#[trigger] messages[i]).len() > 0 implies all.contains(
            trimmed(messages[i]),
        ) by {
            if i < init.len() {
                assert(init[i] == messages[i]);
                let k = choose|k: int| 0 <= k < seen.len() && seen[k] == trimmed(init[i]);
                assert(all[k] == seen[k]);
            } else if !seen.contains(last) {
                assert(all[seen.len() as int] == last);
            }
        }
        assert forall|k: int| 0 <= k < all.len() implies exists|i: int|
            0 <= i < messages.len() && trimmed(#[trigger] messages[i]) == (#[trigger] all[k]) by {
            if k < seen.len() {
                assert(all[k] == seen[k]);
                let i = choose|i: int| 0 <= i < init.len() && trimmed(#[trigger] init[i]) == seen[k];
                assert(messages[i] == init[i]);
            } else {
                assert(trimmed(messages[messages.len() - 1]) == all[k]);
            }
        }
    }
}

/// A class chosen for a column covers every token of it.
pub proof fn chosen_class_covers_every_value(values: Seq<Seq<char>>)
    ensures
        class_of(values) is Some ==> all_covered(class_of(values)->0, values),
{
}

/// Where a column keeps a shared start and end around a class, every token of the column is
/// that start, a value of the class, and that end.
pub proof fn column_token_reads_every_token(column: Seq<Seq<char>>, k: int)
    requires
        0 <= k < column.len(),
        !all_same(column),
        class_of(column) is None,
        ({
            let rests = tails(column, shared_start(column, 0));
            class_of(heads(rests, shared_end(rests, 0))) is Some
        }),
    ensures
        ({
            let head = shared_start(column, 0);
            let rests = tails(column, head);
            let foot = shared_end(rests, 0);
            let class = class_of(heads(rests, foot))->0;
            let start = column[0].take(head);
            let end = rests[0].skip(rests[0].len() - foot);
            &&& column_token(column).0 == escaped(start) + class.shape() + escaped(end)
            &&& exists|value: Seq<char>|
                class.covers(value) && column[k] == start + #[trigger] (value + end)
        }),
{
    let head = shared_start(column, 0);
    let rests = tails(column, head);
    let foot = shared_end(rests, 0);
    let class = class_of(heads(rests, foot))->0;
    assert forall|m: int| 0 <= m < column.len() implies (#[trigger] column[m]).take(0)
        == column[0].take(0) by {}
    lemma_shared_start(column, 0);
    assert forall|m: int| 0 <= m < rests.len() implies (#[trigger] rests[m]).skip(
        rests[m].len() - 0,
    ) == rests[0].skip(rests[0].len() - 0) by {}
    lemma_shared_end(rests, 0);
    chosen_class_covers_every_value(heads(rests, foot));
    let value = heads(rests, foot)[k];
    assert(class.covers(value));
    let start = column[0].take(head);
    let end = rests[0].skip(rests[0].len() - foot);
    assert(column[k].take(head) == start);
    assert(rests[k] == column[k].skip(head));
    assert(rests[k].skip(rests[k].len() - foot) == end);
    assert(value == rests[k].take(rests[k].len() - foot));
    assert(rests[k] == value + end);
    assert(column[k] == start + (value + end));
}

// ---------------------------------------------------------------------------
// What the templates match
// ---------------------------------------------------------------------------

/// Two expressions one after the other match their texts one after the other.
proof fn lemma_matches_two(p: Seq<char>, q: Seq<char>, s: Seq<char>, t: Seq<char>)
    requires
        matches_whole(p, s),
        matches_whole(q, t),
    ensures
        matches_whole(p + q, s + t),
{
    let a = choose|a: Seq<Part>| #[trigger] reads_as(p, a) && parts_accept(a, s);
    let b = choose|b: Seq<Part>| #[trigger] reads_as(q, b) && parts_accept(b, t);
    lemma_reads_two(p, a, q, b);
    lemma_parts_two(a, b, s, t);
}

proof fn lemma_matches_itself(s: Seq<char>)
    ensures
        matches_whole(escaped(s), s),
{
    lemma_literal(s);
    lemma_run(seq![Bit::Text(s)], s);
}

proof fn lemma_bit_matches(bit: Bit, s: Seq<char>)
    requires
        bit.is_readable(),
        bit.fits(s),
    ensures
        matches_whole(bit.text(), s),
{
    lemma_one_bit(bit, s);
    assert(bits_readable(seq![bit]));
    lemma_run(seq![bit], s);
}

/// What the templates put between and in place of words.
proof fn lemma_wildcards(s: Seq<char>)
    ensures
        s.len() > 0 && (forall|i: int| 0 <= i < s.len() ==> is_space(#[trigger] s[i]))
            ==> matches_whole("\\s+"@, s),
        s.len() > 0 && (forall|i: int| 0 <= i < s.len() ==> !is_space(#[trigger] s[i]))
            ==> matches_whole("\\S+"@, s),
        !s.contains('\n') ==> matches_whole(".*"@, s),
        matches_whole("(?s:.*)"@, s),
{
    reveal_strlit("\\s+");
    reveal_strlit("\\S+");
    reveal_strlit(".*");
    reveal_strlit("(?s:.*)");
    let gap = Bit::Many(Unit::Space, Count::OneOrMore);
    let ink = Bit::Many(Unit::Ink, Count::OneOrMore);
    let dots = Bit::Many(Unit::Dot, Count::AnyNumber);
    assert(gap.text() =~= "\\s+"@);
    assert(ink.text() =~= "\\S+"@);
    assert(dots.text() =~= ".*"@);
    assert(Part::AnyText.text() =~= "(?s:.*)"@);
    if s.len() > 0 && forall|i: int| 0 <= i < s.len() ==> is_space(#[trigger] s[i]) {
        lemma_bit_matches(gap, s);
    }
    if s.len() > 0 && forall|i: int| 0 <= i < s.len() ==> !is_space(#[trigger] s[i]) {
        lemma_bit_matches(ink, s);
    }
    if !s.contains('\n') {
        assert forall|i: int| 0 <= i < s.len() implies Unit::Dot.takes(#[trigger] s[i]) by {
            assert(s.contains(s[i]));
        }
        lemma_bit_matches(dots, s);
    }
    lemma_one_part(Part::AnyText, s);
}

/// A join, from the front.
proof fn lemma_join_from_front(parts: Seq<Seq<char>>, sep: Seq<char>)
    requires
        parts.len() > 1,
    ensures
        join(parts, sep) == parts[0] + sep + join(parts.skip(1), sep),
    decreases parts.len(),
{
    let init = parts.drop_last();
    let rest = parts.skip(1);
    assert(rest.last() == parts.last());
    if parts.len() == 2 {
        assert(init.len() == 1 && init[0] == parts[0]);
        assert(rest.len() == 1 && rest[0] == parts.last());
        assert(join(parts, sep) == join(init, sep) + sep + parts.last());
    } else {
        lemma_join_from_front(init, sep);
        assert(init.skip(1) =~= rest.drop_last());
        assert(join(parts, sep) =~= parts[0] + sep + join(rest, sep));
    }
}

/// The first word of a text, the white space before it, and what is left.
proof fn lemma_first_word(s: Seq<char>)
    requires
        words(s).len() > 0,
    ensures
        ({
            let lead = span(s, space()) as int;
            let rest = trim_start_by(s, space());
            let n = span(rest, ink()) as int;
            &&& rest == s.skip(lead)
            &&& 0 <= lead <= s.len()
            &&& 0 < n <= rest.len()
            &&& words(s)[0] == rest.take(n)
            &&& words(rest.skip(n)) == words(s).skip(1)
            &&& forall|i: int| 0 <= i < n ==> !is_space(#[trigger] rest[i])
            &&& forall|i: int| 0 <= i < lead ==> is_space(#[trigger] s[i])
            &&& n < rest.len() ==> is_space(rest[n])
            &&& rest.skip(n).len() < s.len()
        }),
{
    let rest = trim_start_by(s, space());
    let n = span(rest, ink()) as int;
    lemma_span(s, space());
    lemma_span(rest, ink());
    assert forall|i: int| 0 <= i < span(s, space()) implies is_space(#[trigger] s[i]) by {
        assert(space()(s[i]));
    }
    assert forall|i: int| 0 <= i < n implies !is_space(#[trigger] rest[i]) by {
        assert(ink()(rest[i]));
    }
    if n < rest.len() {
        assert(!ink()(rest[n]));
    }
    assert(words(s).skip(1) =~= words(rest.skip(n)));
}

/// Words are made of ink.
proof fn lemma_words_are_ink(s: Seq<char>, k: int)
    requires
        0 <= k < words(s).len(),
    ensures
        words(s)[k].len() > 0,
        forall|i: int| 0 <= i < words(s)[k].len() ==> !is_space(#[trigger] words(s)[k][i]),
    decreases s.len(),
{
    lemma_first_word(s);
    let rest = trim_start_by(s, space());
    let n = span(rest, ink()) as int;
    if k > 0 {
        lemma_words_are_ink(rest.skip(n), k - 1);
        assert(words(s)[k] == words(rest.skip(n))[k - 1]);
    }
}

/// Expressions that match the first words of a text match, with white space between them, a run
/// at the start of its ink.
proof fn lemma_words_match(regexes: Seq<Seq<char>>, s: Seq<char>) -> (b: int)
    requires
        0 < regexes.len() <= words(s).len(),
        forall|i: int|
            0 <= i < regexes.len() ==> matches_whole(#[trigger] regexes[i], words(s)[i]),
    ensures
        0 <= b <= trim_start_by(s, space()).len(),
        matches_whole(join(regexes, "\\s+"@), trim_start_by(s, space()).take(b)),
    decreases s.len(),
{
    lemma_first_word(s);
    let rest = trim_start_by(s, space());
    let n = span(rest, ink()) as int;
    let more = rest.skip(n);
    assert(matches_whole(regexes[0], words(s)[0]));
    if regexes.len() == 1 {
        n
    } else {
        let others = regexes.skip(1);
        assert forall|i: int| 0 <= i < others.len() implies matches_whole(
            #[trigger] others[i],
            words(more)[i],
        ) by {
            assert(others[i] == regexes[i + 1]);
            assert(words(more)[i] == words(s)[i + 1]);
            assert(matches_whole(regexes[i + 1], words(s)[i + 1]));
        }
        assert(words(more).len() > 0);
        lemma_first_word(more);
        let b = lemma_words_match(others, more);
        let g = span(more, space()) as int;
        let gap = more.take(g);
        assert(g > 0) by {
            if g == 0 {
                assert(more.len() > 0);
                assert(more[0] == rest[n]);
                assert(trim_start_by(more, space()) =~= more);
            }
        }
        assert forall|i: int| 0 <= i < gap.len() implies is_space(#[trigger] gap[i]) by {
            assert(is_space(more[i]));
        }
        lemma_wildcards(gap);
        let later = more.skip(g).take(b);
        lemma_matches_two(regexes[0], "\\s+"@, rest.take(n), gap);
        lemma_matches_two(
            regexes[0] + "\\s+"@,
            join(others, "\\s+"@),
            rest.take(n) + gap,
            later,
        );
        lemma_join_from_front(regexes, "\\s+"@);
        assert(rest.take(n + g + b) =~= rest.take(n) + gap + later);
        n + g + b
    }
}

/// Words that occur in order in a text match, with anything between them, a part of it.
proof fn lemma_common_match(common: Seq<Seq<char>>, s: Seq<char>, between: Seq<char>) -> (r: (
    int,
    int,
))
    requires
        common.len() > 0,
        is_subsequence(common, words(s)),
        between == "(?s:.*)"@ || (between == ".*"@ && !s.contains('\n')),
    ensures
        0 <= r.0 <= r.1 <= s.len(),
        matches_whole(join(escaped_all(common), between), s.subrange(r.0, r.1)),
    decreases s.len(),
{
    lemma_first_word(s);
    let lead = span(s, space()) as int;
    let rest = trim_start_by(s, space());
    let n = span(rest, ink()) as int;
    let more = rest.skip(n);
    let at = lead + n;
    assert(more =~= s.skip(at));
    if !s.contains('\n') {
        assert forall|i: int| 0 <= i < more.len() implies #[trigger] more[i] != '\n' by {
            assert(s.contains(s[at + i]));
        }
    }
    let regs = escaped_all(common);
    if common[0] == words(s)[0] {
        let word = rest.take(n);
        lemma_matches_itself(word);
        assert(s.subrange(lead, at) =~= word);
        if common.len() == 1 {
            assert(regs =~= seq![escaped(word)]);
            (lead, at)
        } else {
            let others = common.skip(1);
            let found = lemma_common_match(others, more, between);
            let gap = more.take(found.0);
            if !s.contains('\n') {
                assert(!gap.contains('\n'));
            }
            lemma_wildcards(gap);
            let later = more.subrange(found.0, found.1);
            assert(regs.skip(1) =~= escaped_all(others));
            assert(regs[0] == escaped(word));
            lemma_matches_two(regs[0], between, word, gap);
            lemma_matches_two(
                regs[0] + between,
                join(escaped_all(others), between),
                word + gap,
                later,
            );
            lemma_join_from_front(regs, between);
            assert(s.subrange(lead, at + found.1) =~= word + gap + later);
            (lead, at + found.1)
        }
    } else {
        let found = lemma_common_match(common, more, between);
        assert(s.subrange(at + found.0, at + found.1) =~= more.subrange(found.0, found.1));
        (at + found.0, at + found.1)
    }
}

/// A shape between two literal texts matches them with a value of the shape between.
proof fn lemma_frame_matches(
    start: Seq<char>,
    class: ValueClass,
    end: Seq<char>,
    value: Seq<char>,
)
    requires
        class.covers(value),
    ensures
        matches_whole(escaped(start) + class.shape() + escaped(end), start + value + end),
{
    lemma_matches_itself(start);
    lemma_matches_itself(end);
    shapes_stand_for_their_values(class, value);
    lemma_matches_two(escaped(start), class.shape(), start, value);
    lemma_matches_two(escaped(start) + class.shape(), escaped(end), start + value, end);
}

proof fn lemma_lone_matches(token: Seq<char>, lead: int, body: Seq<char>, offset: int)
    requires
        0 <= lead,
        0 <= offset,
        lead + body.len() <= token.len(),
        body == token.subrange(lead, lead + body.len()),
    ensures
        matches_whole(lone_from(token, lead, body, offset).0, token),
    decreases body.len() - offset,
{
    if offset >= body.len() {
        lemma_matches_itself(token);
    } else if (offset == 0 || is_affix(body[offset - 1])) && class_of(
        seq![body.skip(offset)],
    ) is Some {
        let value = body.skip(offset);
        let class = class_of(seq![value])->0;
        chosen_class_covers_every_value(seq![value]);
        assert(class.covers(seq![value][0]));
        let start = token.take(lead + offset);
        let end = token.skip(lead + body.len());
        lemma_frame_matches(start, class, end, value);
        assert(value =~= token.subrange(lead + offset, lead + body.len()));
        assert(start + value + end =~= token);
    } else {
        lemma_lone_matches(token, lead, body, offset + 1);
    }
}

/// The expression for a column of words matches every word of the column.
proof fn lemma_column_matches(col: Seq<Seq<char>>, typed: bool, k: int)
    requires
        0 <= k < col.len(),
        col[k].len() > 0,
        forall|i: int| 0 <= i < col[k].len() ==> !is_space(#[trigger] col[k][i]),
    ensures
        matches_whole(token_template(col, typed).0, col[k]),
{
    lemma_wildcards(col[k]);
    lemma_matches_itself(col[k]);
    if typed && col.len() == 1 {
        let token = col[0];
        let lead = span(token, affix()) as int;
        lemma_span(token, affix());
        let after = token.skip(lead);
        lemma_span_end(after, affix());
        let body = trim_end_by(after, affix());
        assert(body =~= token.subrange(lead, lead + body.len()));
        lemma_lone_matches(token, lead, body, 0);
    } else if all_same(col) {
        assert(col[k] == col[0]);
    } else if typed {
        if class_of(col) is Some {
            chosen_class_covers_every_value(col);
            assert(class_of(col)->0.covers(col[k]));
            shapes_stand_for_their_values(class_of(col)->0, col[k]);
        } else {
            let head = shared_start(col, 0);
            let rests = tails(col, head);
            let foot = shared_end(rests, 0);
            if class_of(heads(rests, foot)) is Some {
                column_token_reads_every_token(col, k);
                let class = class_of(heads(rests, foot))->0;
                let start = col[0].take(head);
                let end = rests[0].skip(rests[0].len() - foot);
                let value = choose|value: Seq<char>|
                    class.covers(value) && col[k] == start + #[trigger] (value + end);
                lemma_frame_matches(start, class, end, value);
                assert(start + value + end =~= start + (value + end));
            }
        }
    }
}

proof fn lemma_aligned_matches(messages: Seq<Seq<char>>, typed: bool, k: int)
    requires
        0 <= k < messages.len(),
        aligned_template(tokenized(messages), typed) is Some,
    ensures
        finds(aligned_template(tokenized(messages), typed)->0, messages[k]),
{
    let lists = tokenized(messages);
    let parts = token_templates(lists, typed);
    let regs = regexes(parts);
    let message = messages[k];
    assert(lists[k] == words(message));
    assert(lists[k].len() == lists[0].len());
    assert forall|i: int| 0 <= i < regs.len() implies matches_whole(
        #[trigger] regs[i],
        words(message)[i],
    ) by {
        let col = column(lists, i);
        assert(col[k] == words(message)[i]);
        lemma_words_are_ink(message, i);
        lemma_column_matches(col, typed, k);
        assert(regs[i] == token_template(col, typed).0);
    }
    let b = lemma_words_match(regs, message);
    lemma_found_at_ink(join(regs, "\\s+"@), message, b);
}

proof fn lemma_found_at_ink(pattern: Seq<char>, s: Seq<char>, b: int)
    requires
        0 <= b <= trim_start_by(s, space()).len(),
        matches_whole(pattern, trim_start_by(s, space()).take(b)),
    ensures
        finds(pattern, s),
{
    let lead = span(s, space()) as int;
    lemma_span(s, space());
    assert(s.subrange(lead, lead + b) =~= trim_start_by(s, space()).take(b));
}

proof fn lemma_loose_matches(messages: Seq<Seq<char>>, k: int)
    requires
        0 <= k < messages.len(),
        subsequence_template(tokenized(messages), anything(messages)) is Some,
    ensures
        finds(subsequence_template(tokenized(messages), anything(messages))->0, messages[k]),
{
    let lists = tokenized(messages);
    let common = common_tokens(lists);
    common_tokens_occur_in_every_list(lists, k);
    assert(lists[k] == words(messages[k]));
    let found = lemma_common_match(common, messages[k], anything(messages));
    assert(matches_whole(
        join(escaped_all(common), anything(messages)),
        messages[k].subrange(found.0, found.1),
    ));
}

proof fn lemma_shared_agree(lists: Seq<Seq<Seq<char>>>, n: int, i: int)
    requires
        lists.len() > 0,
        0 <= n <= i < shared_from(lists, n),
    ensures
        agree_at(lists, i),
    decreases lists[0].len() - n,
{
    if agree_at(lists, n) && n < i {
        lemma_shared_agree(lists, n + 1, i);
    }
}

proof fn lemma_prefix_matches(messages: Seq<Seq<char>>, k: int)
    requires
        0 <= k < messages.len(),
        prefix_template(tokenized(messages)) is Some,
    ensures
        finds(prefix_template(tokenized(messages))->0, messages[k]),
{
    let lists = tokenized(messages);
    let shared = shared_from(lists, 0);
    lemma_shared_from(lists, 0);
    let message = messages[k];
    assert(lists[k] == words(message));
    let regs = escaped_all(lists[0].take(shared));
    assert forall|i: int| 0 <= i < regs.len() implies i < words(message).len() && matches_whole(
        #[trigger] regs[i],
        words(message)[i],
    ) by {
        lemma_shared_agree(lists, 0, i);
        assert(i < lists[k].len() && lists[k][i] == lists[0][i]);
        lemma_matches_itself(lists[0][i]);
        assert(regs[i] == escaped(lists[0][i]));
    }
    assert(shared - 1 < words(message).len()) by {
        assert(matches_whole(regs[shared - 1], words(message)[shared - 1]));
    }
    let b = lemma_words_match(regs, message);
    let none = Seq::<char>::empty();
    lemma_wildcards(none);
    let there = trim_start_by(message, space()).take(b);
    lemma_matches_two(join(regs, "\\s+"@), ".*"@, there, none);
    assert(there + none =~= there);
    lemma_found_at_ink(join(regs, "\\s+"@) + ".*"@, message, b);
}

/// Literal texts, one an alternative to the other.
pub open spec fn literal_choices(texts: Seq<Seq<char>>) -> Seq<Seq<Bit>> {
    texts.map_values(|t: Seq<char>| seq![Bit::Text(t)])
}

proof fn lemma_choices_text(texts: Seq<Seq<char>>)
    ensures
        alternatives_text(literal_choices(texts)) == join(escaped_all(texts), "|"@),
    decreases texts.len(),
{
    reveal_strlit("|");
    let all = literal_choices(texts);
    let regs = escaped_all(texts);
    if texts.len() > 0 {
        lemma_literal(texts[0]);
        assert(all[0] == seq![Bit::Text(texts[0])]);
        assert(regs[0] == escaped(texts[0]));
        if texts.len() > 1 {
            lemma_choices_text(texts.skip(1));
            assert(all.skip(1) =~= literal_choices(texts.skip(1)));
            assert(regs.skip(1) =~= escaped_all(texts.skip(1)));
            lemma_join_from_front(regs, "|"@);
            assert("|"@ =~= seq!['|']);
        }
    } else {
        assert(alternatives_text(all) =~= join(regs, "|"@));
    }
}

proof fn lemma_exact_matches(messages: Seq<Seq<char>>, k: int)
    requires
        0 <= k < messages.len(),
        !is_blank(messages[k]),
    ensures
        finds(literal_template(messages), messages[k]),
{
    reveal_strlit("(?:");
    reveal_strlit(")");
    let texts = distinct_messages(messages);
    let message = messages[k];
    let t = trimmed(message);
    literal_lines_are_the_messages(messages);
    assert(texts.contains(t));
    let i = choose|i: int| 0 <= i < texts.len() && texts[i] == t;
    let all = literal_choices(texts);
    let part = Part::Group(all, Count::One);
    lemma_choices_text(texts);
    lemma_literal(t);
    assert(all[i] == seq![Bit::Text(t)]);
    assert(any_accepts(all, t));
    let none = Seq::<char>::empty();
    assert(repeats(all, 0, none));
    lemma_repeats_again(all, 0, t, none);
    assert(t + none =~= t);
    assert(Count::One.allows(1nat) && repeats(all, 1nat, t));
    assert(repeats_by(all, Count::One, t));
    assert forall|j: int| 0 <= j < all.len() implies bits_readable(#[trigger] all[j]) by {
        lemma_literal(texts[j]);
        assert(all[j] == seq![Bit::Text(texts[j])]);
    }
    assert(part.text() =~= literal_template(messages));
    lemma_one_part(part, t);
    assert(matches_whole(literal_template(messages), t));
    let lead = span(message, space()) as int;
    let rest = trim_start_by(message, space());
    lemma_span(message, space());
    lemma_span_end(rest, space());
    assert(message.subrange(lead, lead + t.len()) =~= t);
}

/// Whether every option finds something in the message.
pub open spec fn all_find(
    options: Seq<(Seq<char>, Seq<char>, Seq<char>)>,
    message: Seq<char>,
) -> bool {
    forall|i: int| 0 <= i < options.len() ==> finds((#[trigger] options[i]).2, message)
}

proof fn lemma_offered_finds(
    options: Seq<(Seq<char>, Seq<char>, Seq<char>)>,
    name: Seq<char>,
    hint: Seq<char>,
    pattern: Option<Seq<char>>,
    message: Seq<char>,
)
    requires
        all_find(options, message),
        pattern is Some ==> finds(pattern->0, message),
    ensures
        all_find(offered(options, name, hint, pattern), message),
{
    let more = offered(options, name, hint, pattern);
    assert forall|i: int| 0 <= i < more.len() implies finds((#[trigger] more[i]).2, message) by {
        if i < options.len() {
            assert(more[i] == options[i]);
        }
    }
}

/// Every template that is offered for a selection matches every message of it that is not
/// blank, and so does the one that the selection starts on.
pub proof fn every_template_matches_every_message(messages: Seq<Seq<char>>, k: int)
    requires
        0 <= k < messages.len(),
        !is_blank(messages[k]),
    ensures
        all_find(candidates(messages), messages[k]),
        default_template(messages) is Some ==> finds(default_template(messages)->0, messages[k]),
{
    let lists = tokenized(messages);
    let message = messages[k];
    let p1 = subsequence_template(lists, anything(messages));
    let p2 = prefix_template(lists);
    let p3 = aligned_template(lists, false);
    let p4 = aligned_template(lists, true);
    let p5 = Some(literal_template(messages));
    if p1 is Some {
        lemma_loose_matches(messages, k);
    }
    if p2 is Some {
        lemma_prefix_matches(messages, k);
    }
    if p3 is Some {
        lemma_aligned_matches(messages, false, k);
    }
    if p4 is Some {
        lemma_aligned_matches(messages, true, k);
    }
    lemma_exact_matches(messages, k);
    let none = Seq::<(Seq<char>, Seq<char>, Seq<char>)>::empty();
    let loose = offered(none, "loose"@, "shared words, .* between"@, p1);
    lemma_offered_finds(none, "loose"@, "shared words, .* between"@, p1, message);
    let prefix = offered(loose, "prefix"@, "leading words, then .*"@, p2);
    lemma_offered_finds(loose, "prefix"@, "leading words, then .*"@, p2, message);
    lemma_offered_finds(prefix, "wildcard"@, "\\S+ where the lines differ"@, p3, message);
    let wildcard = if lists.len() > 1 {
        offered(prefix, "wildcard"@, "\\S+ where the lines differ"@, p3)
    } else {
        prefix
    };
    let typed = offered(wildcard, "typed"@, "value shapes where they differ"@, p4);
    lemma_offered_finds(wildcard, "typed"@, "value shapes where they differ"@, p4, message);
    lemma_offered_finds(typed, "exact"@, "just these lines"@, p5, message);
}

/// The template of a lone message matches it.
pub proof fn a_lone_template_matches_its_message(message: Seq<char>)
    requires
        lone_template(message) is Some,
    ensures
        finds(lone_template(message)->0, message),
{
    let messages = seq![message];
    assert(tokenized(messages) =~= seq![words(message)]);
    if aligned_template(seq![words(message)], true) is Some {
        lemma_aligned_matches(messages, true, 0);
    } else {
        let t = trimmed(message);
        let lead = span(message, space()) as int;
        lemma_span(message, space());
        lemma_span_end(trim_start_by(message, space()), space());
        lemma_matches_itself(t);
        assert(message.subrange(lead, lead + t.len()) =~= t);
    }
}

/// Where all the lines have one word, that word stands in the template as it is; where they
/// differ, the untyped template takes any.
pub proof fn shared_words_stay_as_they_are(col: Seq<Seq<char>>, word: Seq<char>)
    requires
        col.len() >= 2,
    ensures
        (forall|i: int| 0 <= i < col.len() ==> #[trigger] col[i] == word) ==> token_template(
            col,
            true,
        ) == (escaped(word), true) && token_template(col, false) == (escaped(word), true),
        (exists|i: int| 0 <= i < col.len() && #[trigger] col[i] != col[0]) ==> token_template(
            col,
            false,
        ) == ("\\S+"@, false),
{
}

/// Where the lines differ but all their values are of one shape, the typed template takes that
/// shape and no other.
pub proof fn values_of_one_shape_give_way_to_it(col: Seq<Seq<char>>, class: ValueClass)
    requires
        col.len() >= 2,
        all_covered(class, col),
        exists|i: int| 0 <= i < col.len() && #[trigger] col[i] != col[0],
    ensures
        token_template(col, true) == (class.shape(), false),
{
    values_of_one_shape_are_given_it(class, col);
}

proof fn lemma_agree_up_to(lists: Seq<Seq<Seq<char>>>, n: int, m: int)
    requires
        lists.len() > 0,
        0 <= n <= m,
        forall|i: int| n <= i < m ==> agree_at(lists, i),
        !agree_at(lists, m),
    ensures
        shared_from(lists, n) == m,
    decreases m - n,
{
    if n < m {
        assert(agree_at(lists, n));
        lemma_agree_up_to(lists, n + 1, m);
    }
}

/// The prefix template opens with all the leading words that the messages share, and with no
/// other; without a shared first word there is none.
pub proof fn the_prefix_is_all_the_shared_leading_words(lists: Seq<Seq<Seq<char>>>, n: int)
    requires
        lists.len() > 0,
        0 <= n,
        forall|k: int|
            0 <= k < lists.len() ==> n <= (#[trigger] lists[k]).len() && lists[k].take(n)
                == lists[0].take(n),
        exists|k: int|
            0 <= k < lists.len() && ((#[trigger] lists[k]).len() == n || (lists[0].len() > n
                && lists[k][n] != lists[0][n])),
    ensures
        n == 0 ==> prefix_template(lists) is None,
        n > 0 ==> prefix_template(lists) == Some(
            join(escaped_all(lists[0].take(n)), "\\s+"@) + ".*"@,
        ),
{
    assert forall|i: int| 0 <= i < n implies agree_at(lists, i) by {
        assert(lists[0].len() >= n);
        assert forall|k: int| 0 <= k < lists.len() implies i < (#[trigger] lists[k]).len()
            && lists[k][i] == lists[0][i] by {
            assert(lists[k].take(n)[i] == lists[0].take(n)[i]);
        }
    }
    let k = choose|k: int|
        0 <= k < lists.len() && ((#[trigger] lists[k]).len() == n || (lists[0].len() > n
            && lists[k][n] != lists[0][n]));
    assert(!agree_at(lists, n));
    lemma_agree_up_to(lists, 0, n);
}

proof fn lemma_shortest(lists: Seq<Seq<Seq<char>>>)
    requires
        lists.len() > 0,
    ensures
        forall|i: int| 0 <= i < lists.len() ==> shortest(lists) <= (#[trigger] lists[i]).len(),
        exists|i: int| 0 <= i < lists.len() && shortest(lists) == (#[trigger] lists[i]).len(),
    decreases lists.len(),
{
    if lists.len() == 1 {
        assert(shortest(lists) == lists[0].len());
    } else {
        let before = lists.drop_last();
        lemma_shortest(before);
        let k = choose|i: int|
            0 <= i < before.len() && shortest(before) == (#[trigger] before[i]).len();
        assert(lists[k] == before[k]);
        assert(lists[lists.len() - 1] == lists.last());
        assert forall|i: int| 0 <= i < lists.len() implies shortest(lists) <= (
        #[trigger] lists[i]).len() by {
            if i < before.len() {
                assert(lists[i] == before[i]);
            }
        }
    }
}

/// A selection starts on the typed template where the messages align; else on the words they
/// share, if these are half of a shortest message or more; else on the messages themselves.
pub proof fn a_selection_starts_on_what_carries_it(messages: Seq<Seq<char>>, least: int)
    requires
        messages.len() >= 2,
        0 <= least < messages.len(),
        words(messages[least]).len() > 0,
        forall|i: int|
            0 <= i < messages.len() ==> words(messages[least]).len() <= words(
                #[trigger] messages[i],
            ).len(),
    ensures
        ({
            let lists = messages.map_values(|m: Seq<char>| words(m));
            let typed = aligned_template(lists, true);
            let shared = common_tokens(lists).len();
            &&& typed is Some ==> default_template(messages) == typed
            &&& typed is None && 2 * shared >= words(messages[least]).len() ==> default_template(
                messages,
            ) == subsequence_template(lists, anything(messages))
            &&& typed is None && 2 * shared < words(messages[least]).len() ==> default_template(
                messages,
            ) == Some(literal_template(messages))
        }),
{
    let lists = messages.map_values(|m: Seq<char>| words(m));
    assert(tokenized(messages) =~= lists);
    lemma_shortest(lists);
    let k = choose|i: int| 0 <= i < lists.len() && shortest(lists) == (#[trigger] lists[i]).len();
    assert(lists[k] == words(messages[k]));
    assert(lists[least] == words(messages[least]));
    assert(shortest(lists) == words(messages[least]).len());
}

proof fn lemma_no_class(name: Seq<char>, sep: char, digits: Seq<char>)
    requires
        name.len() > 0,
        forall|i: int| 0 <= i < name.len() ==> is_letter(#[trigger] name[i]),
        is_affix(sep),
    ensures
        class_of(seq![name + seq![sep] + digits]) is None,
{
    let s = name + seq![sep] + digits;
    let n = name.len() as int;
    assert(s[0] == name[0]);
    assert(is_letter(name[0]));
    assert(s[n] == sep);
    assert forall|class: ValueClass| !(#[trigger] class.covers(s)) by {
        match class {
            ValueClass::Uuid => {
                if is_uuid(s) {
                    lemma_uuid_places(s);
                    assert(0 <= n < 8 ==> is_hex_digit(s.take(8)[n]));
                    assert(9 <= n < 13 ==> is_hex_digit(s.subrange(9, 13)[n - 9]));
                    assert(14 <= n < 18 ==> is_hex_digit(s.subrange(14, 18)[n - 14]));
                    assert(19 <= n < 23 ==> is_hex_digit(s.subrange(19, 23)[n - 19]));
                    assert(24 <= n < 36 ==> is_hex_digit(s.skip(24)[n - 24]));
                }
            },
            ValueClass::Ipv4 => {
                if is_ipv4(s) {
                    lemma_address_first(s);
                }
            },
            ValueClass::Decimal => {
                if is_decimal(s) {
                    let k = span(s, crate::shapes::not_point()) as int;
                    assert(is_digit(s.take(k)[0]));
                }
            },
            ValueClass::Integer => {
                if is_integer(s) {
                    assert(is_digit(s[0]));
                }
            },
            ValueClass::BareHex => {
                if is_bare_hex(s) {
                    assert(is_hex_digit(s[n]));
                }
            },
            _ => {},
        }
    }
    let one = seq![s];
    assert forall|class: ValueClass| !(#[trigger] all_covered(class, one)) by {
        assert(!class.covers(one[0]));
    }
}

proof fn lemma_value_behind(token: Seq<char>, body: Seq<char>, offset: int, at: int)
    requires
        0 <= offset <= at < body.len(),
        at > 0,
        class_of(seq![body]) is None,
        forall|i: int| 0 < i < at ==> !is_affix(#[trigger] body[i - 1]),
    ensures
        lone_from(token, 0, body, offset) == lone_from(token, 0, body, at),
    decreases at - offset,
{
    if offset < at {
        if offset == 0 {
            assert(body.skip(0) =~= body);
        } else {
            assert(!is_affix(body[offset - 1]));
        }
        lemma_value_behind(token, body, offset + 1, at);
    }
}

/// In a lone message a number behind a name gives way and the rest stays: `id=42,` stands for
/// every `id=` with digits and a comma behind it.
pub proof fn a_number_behind_a_name_gives_way(
    name: Seq<char>,
    sep: char,
    digits: Seq<char>,
    tail: Seq<char>,
)
    requires
        name.len() > 0,
        forall|i: int| 0 <= i < name.len() ==> is_letter(#[trigger] name[i]),
        is_affix(sep),
        digits.len() > 0,
        forall|i: int| 0 <= i < digits.len() ==> is_digit(#[trigger] digits[i]),
        forall|i: int| 0 <= i < tail.len() ==> is_affix(#[trigger] tail[i]),
    ensures
        lone_token(name + seq![sep] + digits + tail).0 == escaped(name + seq![sep]) + "\\d+"@
            + escaped(tail),
{
    let token = name + seq![sep] + digits + tail;
    let body = name + seq![sep] + digits;
    let n = name.len() as int;
    assert(token[0] == name[0]);
    assert(is_letter(name[0]));
    lemma_span_is(token, affix(), 0);
    let rest = token.skip(0);
    assert(rest =~= token);
    assert forall|i: int| token.len() - tail.len() <= i < token.len() implies affix()(
        #[trigger] token[i],
    ) by {
        assert(token[i] == tail[i - body.len()]);
    }
    assert(token[token.len() - tail.len() - 1] == digits[digits.len() - 1]);
    assert(is_digit(digits[digits.len() - 1]));
    lemma_span_end_is(token, affix(), tail.len());
    assert(trim_end_by(rest, affix()) =~= body);
    lemma_no_class(name, sep, digits);
    assert forall|i: int| 0 < i < n + 1 implies !is_affix(#[trigger] body[i - 1]) by {
        assert(body[i - 1] == name[i - 1]);
        assert(is_letter(name[i - 1]));
    }
    lemma_value_behind(token, body, 0, n + 1);
    let value = body.skip(n + 1);
    assert(value =~= digits);
    assert(body[n] == sep);
    let one = seq![value];
    assert(all_covered(ValueClass::Integer, one)) by {
        assert(is_integer(one[0]));
    }
    values_of_one_shape_are_given_it(ValueClass::Integer, one);
    assert(token.take(n + 1) =~= name + seq![sep]);
    assert(token.skip(body.len() as int) =~= tail);
}

} // verus!
