//! Where the elements of a filtered sequence come from, and where the
//! elements of a sequence go when it is filtered.

use vstd::prelude::*;

verus! {

/// The number of elements before position `i` of `s` that satisfy `p`.
pub open spec fn rank<A>(s: Seq<A>, p: spec_fn(A) -> bool, i: int) -> int {
    s.take(i).filter(p).len() as int
}

/// The rank grows with the position, and strictly so past an element that
/// satisfies the predicate.
pub proof fn lemma_rank_grows<A>(s: Seq<A>, p: spec_fn(A) -> bool, i: int, j: int)
    requires
        0 <= i < j <= s.len(),
    ensures
        rank(s, p, i) <= rank(s, p, j),
        p(s[i]) ==> rank(s, p, i) < rank(s, p, j),
{
    let upto = s.take(j);
    assert(upto.take(i) =~= s.take(i));
    assert(upto.take(i + 1) =~= s.take(i).push(s[i]));
    s.take(i).lemma_filter_push(s[i], p);
    upto.lemma_filter_take_len(p, i + 1);
}

/// An element that satisfies the predicate is found in the filtered
/// sequence, at its rank.
pub proof fn lemma_filter_target<A>(s: Seq<A>, p: spec_fn(A) -> bool, i: int)
    requires
        0 <= i < s.len(),
        p(s[i]),
    ensures
        0 <= rank(s, p, i) < s.filter(p).len(),
        s.filter(p)[rank(s, p, i)] == s[i],
{
    let upto = s.take(i + 1);
    assert(upto =~= s.take(i).push(s[i]));
    s.take(i).lemma_filter_push(s[i], p);
    upto.lemma_filter_monotone(s, p);
    assert(upto.filter(p)[rank(s, p, i)] == s[i]);
}

/// Every element of the filtered sequence is an element of the sequence that
/// satisfies the predicate, and stands at its rank.
pub proof fn lemma_filter_source<A>(s: Seq<A>, p: spec_fn(A) -> bool, k: int) -> (i: int)
    requires
        0 <= k < s.filter(p).len(),
    ensures
        0 <= i < s.len(),
        p(s[i]),
        s[i] == s.filter(p)[k],
        rank(s, p, i) == k,
    decreases s.len(),
{
    if s.len() == 0 {
        s.lemma_filter_len(p);
        0
    } else {
        let before = s.drop_last();
        assert(before.push(s.last()) =~= s);
        before.lemma_filter_push(s.last(), p);
        assert(s.take(s.len() - 1) =~= before);
        if k < before.filter(p).len() {
            let i = lemma_filter_source(before, p, k);
            assert(before.take(i) =~= s.take(i));
            i
        } else {
            s.len() - 1
        }
    }
}

/// Filtering by a predicate and then by a weaker one is filtering by the
/// first alone.
pub proof fn lemma_filter_absorbs<A>(s: Seq<A>, strong: spec_fn(A) -> bool, weak: spec_fn(A) -> bool)
    requires
        forall|a: A| #[trigger] strong(a) ==> weak(a),
    ensures
        s.filter(weak).filter(strong) == s.filter(strong),
    decreases s.len(),
{
    if s.len() == 0 {
        s.lemma_filter_len(weak);
        s.lemma_filter_len(strong);
        s.filter(weak).lemma_filter_len(strong);
        assert(s.filter(weak).filter(strong) =~= s.filter(strong));
    } else {
        let before = s.drop_last();
        assert(before.push(s.last()) =~= s);
        lemma_filter_absorbs(before, strong, weak);
        before.lemma_filter_push(s.last(), weak);
        before.lemma_filter_push(s.last(), strong);
        if weak(s.last()) {
            before.filter(weak).lemma_filter_push(s.last(), strong);
        }
    }
}

} // verus!
