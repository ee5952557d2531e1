//! Counting and looking things up in lists.

use crate::text::same_text;
use vstd::prelude::*;

verus! {

/// How many elements of `s` satisfy `p`.
pub open spec fn count<A>(s: Seq<A>, p: spec_fn(A) -> bool) -> nat
    decreases s.len(),
{
    if s.len() == 0 {
        0
    } else {
        count(s.drop_last(), p) + if p(s.last()) {
            1nat
        } else {
            0nat
        }
    }
}

/// The elements of `s` that satisfy `p`, in order.
pub open spec fn keep<A>(s: Seq<A>, p: spec_fn(A) -> bool) -> Seq<A>
    decreases s.len(),
{
    if s.len() == 0 {
        Seq::empty()
    } else if p(s.last()) {
        keep(s.drop_last(), p).push(s.last())
    } else {
        keep(s.drop_last(), p)
    }
}

pub proof fn lemma_keep<A>(s: Seq<A>, p: spec_fn(A) -> bool)
    ensures
        keep(s, p).len() <= s.len(),
        forall|i: int| 0 <= i < keep(s, p).len() ==> p(#[trigger] keep(s, p)[i]),
        forall|i: int| 0 <= i < keep(s, p).len() ==> s.contains(#[trigger] keep(s, p)[i]),
        forall|i: int| 0 <= i < s.len() && p(#[trigger] s[i]) ==> keep(s, p).contains(s[i]),
    decreases s.len(),
{
    if s.len() > 0 {
        let init = s.drop_last();
        let k = keep(init, p);
        lemma_keep(init, p);
        assert forall|i: int| 0 <= i < keep(s, p).len() implies s.contains(
            #[trigger] keep(s, p)[i],
        ) by {
            if i < k.len() {
                assert(keep(s, p)[i] == k[i]);
                let j = choose|j: int| 0 <= j < init.len() && init[j] == k[i];
                assert(s[j] == k[i]);
            } else {
                assert(s[s.len() - 1] == keep(s, p)[i]);
            }
        }
        assert forall|i: int| 0 <= i < s.len() && p(#[trigger] s[i]) implies keep(
            s,
            p,
        ).contains(s[i]) by {
            if i < init.len() {
                assert(init[i] == s[i]);
                let j = choose|j: int| 0 <= j < k.len() && k[j] == init[i];
                assert(keep(s, p)[j] == k[j]);
            } else {
                assert(keep(s, p)[k.len() as int] == s[i]);
            }
        }
    }
}

/// Keeping is idempotent.
pub proof fn lemma_keep_all<A>(s: Seq<A>, p: spec_fn(A) -> bool)
    requires
        forall|i: int| 0 <= i < s.len() ==> p(#[trigger] s[i]),
    ensures
        keep(s, p) == s,
    decreases s.len(),
{
    if s.len() > 0 {
        assert forall|i: int| 0 <= i < s.drop_last().len() implies p(
            #[trigger] s.drop_last()[i],
        ) by {
            assert(s.drop_last()[i] == s[i]);
        }
        lemma_keep_all(s.drop_last(), p);
        assert(s.drop_last().push(s.last()) == s);
    } else {
        assert(keep(s, p) =~= s);
    }
}

/// The views of a list of pairs of strings.
pub open spec fn pairs(v: Seq<(String, String)>) -> Seq<(Seq<char>, Seq<char>)> {
    v.map_values(|p: (String, String)| (p.0@, p.1@))
}

/// The value of the first pair with this key.
pub open spec fn pair_value(v: Seq<(Seq<char>, Seq<char>)>, key: Seq<char>) -> Option<Seq<char>>
    decreases v.len(),
{
    if v.len() == 0 {
        None
    } else if v[0].0 == key {
        Some(v[0].1)
    } else {
        pair_value(v.skip(1), key)
    }
}

pub fn find_pair<'a>(v: &'a Vec<(String, String)>, key: &str) -> (r: Option<&'a String>)
    ensures
        match r {
            Some(s) => pair_value(pairs(v@), key@) == Some(s@),
            None => pair_value(pairs(v@), key@) is None,
        },
{
    let ghost all = pairs(v@);
    assert(all.skip(0) == all);
    for i in 0..v.len()
        invariant
            all == pairs(v@),
            pair_value(all, key@) == pair_value(all.skip(i as int), key@),
    {
        assert(all.skip(i as int)[0] == (v@[i as int].0@, v@[i as int].1@));
        assert(all.skip(i as int).skip(1) == all.skip(i + 1));
        if same_text(v[i].0.as_str(), key) {
            return Some(&v[i].1);
        }
    }
    None
}

pub fn clone_pairs(v: &Vec<(String, String)>) -> (r: Vec<(String, String)>)
    ensures
        r@ == v@,
{
    let mut out: Vec<(String, String)> = Vec::new();
    for i in 0..v.len()
        invariant
            out@ == v@.take(i as int),
    {
        out.push((v[i].0.clone(), v[i].1.clone()));
    }
    out
}

pub fn clone_strings(v: &Vec<String>) -> (r: Vec<String>)
    ensures
        r@ == v@,
{
    let mut out: Vec<String> = Vec::new();
    for i in 0..v.len()
        invariant
            out@ == v@.take(i as int),
    {
        out.push(v[i].clone());
    }
    out
}

pub fn clone_option(o: &Option<String>) -> (r: Option<String>)
    ensures
        r == *o,
{
    match o {
        Some(s) => Some(s.clone()),
        None => None,
    }
}

/// What is kept is what passes, in order.
pub proof fn what_passes_is_kept<A>(s: Seq<A>, p: spec_fn(A) -> bool)
    ensures
        keep(s, p) == s.filter(p),
    decreases s.len(),
{
    reveal(Seq::filter);
    if s.len() > 0 {
        what_passes_is_kept(s.drop_last(), p);
    }
}

/// A value is found by its key: it is that of the first pair with the key, and there is none
/// where no pair has it.
pub proof fn a_value_is_found_by_its_key(
    v: Seq<(Seq<char>, Seq<char>)>,
    key: Seq<char>,
    k: int,
)
    requires
        0 <= k <= v.len(),
        forall|i: int| 0 <= i < k ==> (#[trigger] v[i]).0 != key,
    ensures
        k == v.len() ==> pair_value(v, key) is None,
        k < v.len() && v[k].0 == key ==> pair_value(v, key) == Some(v[k].1),
    decreases v.len(),
{
    if k > 0 {
        let rest = v.skip(1);
        assert(v[0].0 != key);
        assert forall|i: int| 0 <= i < k - 1 implies (#[trigger] rest[i]).0 != key by {
            assert(rest[i] == v[i + 1]);
        }
        a_value_is_found_by_its_key(rest, key, k - 1);
        if k < v.len() {
            assert(rest[k - 1] == v[k]);
        }
    }
}

/// What is counted is what passes.
pub proof fn what_passes_is_counted<A>(s: Seq<A>, p: spec_fn(A) -> bool)
    ensures
        count(s, p) == s.filter(p).len(),
    decreases s.len(),
{
    reveal(Seq::filter);
    if s.len() > 0 {
        what_passes_is_counted(s.drop_last(), p);
    }
}

} // verus!
