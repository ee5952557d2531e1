//! A merge sort over copyable values.

use crate::text::{
    is_text_less, lemma_text_less_irreflexive, lemma_text_less_total, lemma_text_less_transitive,
    text_less, texts,
};
use vstd::prelude::*;
use vstd::relations::{sorted_by, total_ordering};
use vstd::seq_lib::{lemma_multiset_commutative, lemma_sorted_unique};

verus! {

/// Two sorted lists as one.
fn merge<T: Copy, F: Fn(T, T) -> bool>(
    a: &Vec<T>,
    b: &Vec<T>,
    f: &F,
    Ghost(leq): Ghost<spec_fn(T, T) -> bool>,
) -> (r: Vec<T>)
    requires
        total_ordering(leq),
        sorted_by(a@, leq),
        sorted_by(b@, leq),
        forall|x: T, y: T| #[trigger] f.requires((x, y)),
        forall|x: T, y: T, o: bool| #[trigger] f.ensures((x, y), o) ==> o == leq(x, y),
    ensures
        sorted_by(r@, leq),
        r@.to_multiset() == (a@ + b@).to_multiset(),
{
    let mut out: Vec<T> = Vec::new();
    let mut i: usize = 0;
    let mut j: usize = 0;
    assert(out@ + (a@.skip(0) + b@.skip(0)) =~= a@ + b@);
    while i < a.len() || j < b.len()
        invariant
            i <= a@.len(),
            j <= b@.len(),
            total_ordering(leq),
            sorted_by(a@, leq),
            sorted_by(b@, leq),
            forall|x: T, y: T| #[trigger] f.requires((x, y)),
            forall|x: T, y: T, o: bool| #[trigger] f.ensures((x, y), o) ==> o == leq(x, y),
            sorted_by(out@, leq),
            forall|k: int, m: int|
                0 <= k < out@.len() && i <= m < a@.len() ==> leq(
                    #[trigger] out@[k],
                    #[trigger] a@[m],
                ),
            forall|k: int, m: int|
                0 <= k < out@.len() && j <= m < b@.len() ==> leq(
                    #[trigger] out@[k],
                    #[trigger] b@[m],
                ),
            (out@ + (a@.skip(i as int) + b@.skip(j as int))).to_multiset() == (a@
                + b@).to_multiset(),
        decreases a@.len() - i + b@.len() - j,
    {
        let from_a = j >= b.len() || (i < a.len() && f(a[i], b[j]));
        let ghost before = out@;
        let ghost ra = a@.skip(i as int);
        let ghost rb = b@.skip(j as int);
        if from_a {
            out.push(a[i]);
            proof {
                assert(ra == seq![a@[i as int]] + a@.skip(i + 1));
                assert(before + (ra + rb) =~= before.push(a@[i as int]) + (a@.skip(i + 1) + rb));
                if j < b@.len() {
                    assert forall|m: int| j <= m < b@.len() implies leq(
                        a@[i as int],
                        #[trigger] b@[m],
                    ) by {
                        if m > j {
                            assert(leq(b@[j as int], b@[m]));
                        }
                    }
                }
            }
            i = i + 1;
        } else {
            out.push(b[j]);
            proof {
                let x = b@[j as int];
                assert(rb == seq![x] + b@.skip(j + 1));
                let left = before + (ra + rb);
                let right = before.push(x) + (ra + b@.skip(j + 1));
                lemma_multiset_commutative(before, ra + rb);
                lemma_multiset_commutative(ra, rb);
                lemma_multiset_commutative(seq![x], b@.skip(j + 1));
                lemma_multiset_commutative(before.push(x), ra + b@.skip(j + 1));
                lemma_multiset_commutative(ra, b@.skip(j + 1));
                lemma_multiset_commutative(before, seq![x]);
                assert(before.push(x) =~= before + seq![x]);
                assert(left.to_multiset() =~= right.to_multiset());
                if i < a@.len() {
                    assert(leq(x, a@[i as int]));
                    assert forall|m: int| i <= m < a@.len() implies leq(x, #[trigger] a@[m]) by {
                        if m > i {
                            assert(leq(a@[i as int], a@[m]));
                        }
                    }
                }
            }
            j = j + 1;
        }
    }
    assert(out@ + (a@.skip(i as int) + b@.skip(j as int)) =~= out@);
    out
}

fn sorted_range<T: Copy, F: Fn(T, T) -> bool>(
    v: &Vec<T>,
    from: usize,
    to: usize,
    f: &F,
    Ghost(leq): Ghost<spec_fn(T, T) -> bool>,
) -> (r: Vec<T>)
    requires
        from <= to <= v@.len(),
        total_ordering(leq),
        forall|x: T, y: T| #[trigger] f.requires((x, y)),
        forall|x: T, y: T, o: bool| #[trigger] f.ensures((x, y), o) ==> o == leq(x, y),
    ensures
        sorted_by(r@, leq),
        r@.to_multiset() == v@.subrange(from as int, to as int).to_multiset(),
    decreases to - from,
{
    if to - from <= 1 {
        let mut out: Vec<T> = Vec::new();
        if from < to {
            out.push(v[from]);
        }
        assert(out@ =~= v@.subrange(from as int, to as int));
        return out;
    }
    let mid: usize = from + (to - from) / 2;
    let left = sorted_range(v, from, mid, f, Ghost(leq));
    let right = sorted_range(v, mid, to, f, Ghost(leq));
    proof {
        let l = v@.subrange(from as int, mid as int);
        let r = v@.subrange(mid as int, to as int);
        assert(v@.subrange(from as int, to as int) =~= l + r);
        lemma_multiset_commutative(l, r);
        lemma_multiset_commutative(left@, right@);
    }
    merge(&left, &right, f, Ghost(leq))
}

/// The values of `v` in ascending order.
pub(crate) fn sort<T: Copy, F: Fn(T, T) -> bool>(
    v: &Vec<T>,
    f: F,
    Ghost(leq): Ghost<spec_fn(T, T) -> bool>,
) -> (r: Vec<T>)
    requires
        total_ordering(leq),
        forall|x: T, y: T| #[trigger] f.requires((x, y)),
        forall|x: T, y: T, o: bool| #[trigger] f.ensures((x, y), o) ==> o == leq(x, y),
    ensures
        r@ == v@.sort_by(leq),
        sorted_by(r@, leq),
        r@.to_multiset() == v@.to_multiset(),
{
    let r = sorted_range(v, 0, v.len(), &f, Ghost(leq));
    proof {
        assert(v@.subrange(0, v@.len() as int) =~= v@);
        v@.lemma_sort_by_ensures(leq);
        lemma_sorted_unique(r@, v@.sort_by(leq), leq);
    }
    r
}

// ---------------------------------------------------------------------------
// Texts
// ---------------------------------------------------------------------------

/// Not behind in dictionary order.
pub open spec fn text_leq() -> spec_fn(Seq<char>, Seq<char>) -> bool {
    |a: Seq<char>, b: Seq<char>| !text_less(b, a)
}

pub proof fn lemma_text_order()
    ensures
        total_ordering(text_leq()),
{
    let leq = text_leq();
    assert forall|x: Seq<char>| #[trigger] leq(x, x) by {
        lemma_text_less_irreflexive(x);
    }
    assert forall|x: Seq<char>, y: Seq<char>| #[trigger] leq(x, y) && #[trigger] leq(
        y,
        x,
    ) implies x == y by {
        lemma_text_less_total(x, y);
    }
    assert forall|x: Seq<char>, y: Seq<char>| #[trigger] leq(x, y) || #[trigger] leq(y, x) by {
        if text_less(y, x) && text_less(x, y) {
            lemma_text_less_transitive(x, y, x);
            lemma_text_less_irreflexive(x);
        }
    }
    assert forall|x: Seq<char>, y: Seq<char>, z: Seq<char>| #[trigger] leq(x, y) && #[trigger] leq(
        y,
        z,
    ) implies leq(x, z) by {
        if text_less(z, x) {
            if text_less(x, y) {
                lemma_text_less_transitive(z, x, y);
            } else {
                lemma_text_less_total(x, y);
            }
        }
    }
}

/// The texts in dictionary order.
pub open spec fn sorted_texts(v: Seq<Seq<char>>) -> Seq<Seq<char>> {
    v.sort_by(text_leq())
}

/// The strings in dictionary order.
pub fn sort_texts(v: Vec<String>) -> (r: Vec<String>)
    ensures
        texts(r@) == sorted_texts(texts(v@)),
{
    let ghost all = texts(v@);
    let ghost leq = text_leq();
    let mut out: Vec<String> = Vec::new();
    proof {
        lemma_text_order();
        assert(texts(out@) =~= all.take(0));
    }
    for i in 0..v.len()
        invariant
            all == texts(v@),
            leq == text_leq(),
            total_ordering(leq),
            sorted_by(texts(out@), leq),
            texts(out@).to_multiset() == all.take(i as int).to_multiset(),
    {
        let x = v[i].clone();
        let ghost before = texts(out@);
        let mut at: usize = 0;
        while at < out.len() && !is_text_less(x.as_str(), out[at].as_str())
            invariant
                before == texts(out@),
                at <= out@.len(),
                forall|k: int| 0 <= k < at ==> !text_less(x@, #[trigger] before[k]),
            ensures
                at <= out@.len(),
                forall|k: int| 0 <= k < at ==> !text_less(x@, #[trigger] before[k]),
                at < out@.len() ==> text_less(x@, before[at as int]),
            decreases out@.len() - at,
        {
            assert(before[at as int] == out@[at as int]@);
            at = at + 1;
        }
        let ghost text = x@;
        out.insert(at, x);
        assert(texts(out@) == before.insert(at as int, text));
        proof {
            let after = texts(out@);
            assert forall|k: int, m: int| 0 <= k < m < after.len() implies #[trigger] leq(
                after[k],
                after[m],
            ) by {
                if m == at {
                    assert(after[k] == before[k]);
                } else if k == at {
                    assert(after[m] == before[m - 1]);
                    assert(leq(text, before[at as int])) by {
                        if text_less(before[at as int], text) {
                            lemma_text_less_transitive(text, before[at as int], text);
                            lemma_text_less_irreflexive(text);
                        }
                    }
                    if m - 1 > at {
                        assert(leq(before[at as int], before[m - 1]));
                    }
                } else {
                    let bk = if k < at {
                        k
                    } else {
                        k - 1
                    };
                    let bm = if m < at {
                        m
                    } else {
                        m - 1
                    };
                    assert(leq(before[bk], before[bm]));
                }
            }
            vstd::seq_lib::to_multiset_insert(before, at as int, text);
            vstd::seq_lib::to_multiset_build(all.take(i as int), text);
            assert(all.take(i + 1) =~= all.take(i as int).push(text));
        }
    }
    proof {
        assert(all.take(all.len() as int) =~= all);
        all.lemma_sort_by_ensures(leq);
        lemma_sorted_unique(texts(out@), all.sort_by(leq), leq);
    }
    out
}

} // verus!
