//! Words as a shell writes them.

use crate::text::texts;
use vstd::prelude::*;

verus! {

/// The name of what `shell_words::quote` makes of a text.
pub uninterp spec fn quoted(s: Seq<char>) -> Seq<char>;

/// `shell_words::quote`; the quoting style is only named.
#[verifier::external_body]
pub(crate) fn quote(s: &str) -> (r: String)
    ensures
        r@ == quoted(s@),
{
    shell_words::quote(s).into_owned()
}

/// The name of the words that `shell_words::split` finds in a text; none for a text that it
/// refuses.
pub uninterp spec fn shell_split(s: Seq<char>) -> Option<Seq<Seq<char>>>;

/// `shell_words::split`; an error, such as an open quote, gives nothing.
#[verifier::external_body]
pub(crate) fn split_shell(s: &str) -> (r: Option<Vec<String>>)
    ensures
        match r {
            Some(words) => shell_split(s@) == Some(texts(words@)),
            None => shell_split(s@) is None,
        },
{
    shell_words::split(s).ok()
}

} // verus!
