//! What filtering does to a sequence: which elements stay, and that they
//! stay in their order.

use vstd::prelude::*;

verus! {

/// How many of the elements of `s` before index `i` pass `keep`: the index
/// at which `s[i]` stands after filtering, where it passes too.
pub open spec fn rank<A>(s: Seq<A>, keep: spec_fn(A) -> bool, i: int) -> int {
    s.take(i).filter(keep).len() as int
}

/// Filtering a sequence that was extended by one element: the element is
/// kept at the end or left out, and the rest is filtered as before.
pub proof fn lemma_filter_push<A>(s: Seq<A>, x: A, keep: spec_fn(A) -> bool)
    ensures
        s.push(x).filter(keep) == if keep(x) {
            s.filter(keep).push(x)
        } else {
            s.filter(keep)
        },
{
    reveal(Seq::filter);
    assert(s.push(x).drop_last() =~= s);
}

/// The rank starts at 0, ends at the length of the filtered sequence, and
/// goes up by one at each element that passes and by nothing at the others.
pub proof fn lemma_rank_step<A>(s: Seq<A>, keep: spec_fn(A) -> bool, i: int)
    requires
        0 <= i < s.len(),
    ensures
        rank(s, keep, 0) == 0,
        rank(s, keep, s.len() as int) == s.filter(keep).len(),
        rank(s, keep, i + 1) == rank(s, keep, i) + if keep(s[i]) {
            1int
        } else {
            0int
        },
{
    reveal(Seq::filter);
    assert(s.take(0) =~= Seq::<A>::empty());
    assert(s.take(s.len() as int) =~= s);
    assert(s.take(i + 1) =~= s.take(i).push(s[i]));
    lemma_filter_push(s.take(i), s[i], keep);
}

/// The rank never goes down, and stays within the filtered sequence.
pub proof fn lemma_rank_monotone<A>(s: Seq<A>, keep: spec_fn(A) -> bool, i: int, j: int)
    requires
        0 <= i <= j <= s.len(),
    ensures
        0 <= rank(s, keep, i) <= rank(s, keep, j) <= s.filter(keep).len(),
        i < j && keep(s[i]) ==> rank(s, keep, i) < rank(s, keep, j),
    decreases s.len() - i,
{
    if i < s.len() {
        lemma_rank_step(s, keep, i);
        if i < j {
            lemma_rank_monotone(s, keep, i + 1, j);
        } else {
            lemma_rank_monotone(s, keep, i + 1, i + 1);
        }
    } else {
        assert(s.take(s.len() as int) =~= s);
    }
}

/// An element that passes stands in the filtered sequence at its rank.
pub proof fn lemma_filter_keeps<A>(s: Seq<A>, keep: spec_fn(A) -> bool, i: int)
    requires
        0 <= i < s.len(),
        keep(s[i]),
    ensures
        0 <= rank(s, keep, i) < s.filter(keep).len(),
        s.filter(keep)[rank(s, keep, i)] == s[i],
    decreases s.len(),
{
    reveal(Seq::filter);
    let init = s.drop_last();
    lemma_rank_monotone(s, keep, i, s.len() as int);
    if i < init.len() {
        lemma_filter_keeps(init, keep, i);
        assert(init.take(i) =~= s.take(i));
    } else {
        assert(s.take(i) =~= init);
    }
}

/// Every element of the filtered sequence passes, and is an element of `s`
/// that stands there at its rank.
pub proof fn lemma_filter_origin<A>(s: Seq<A>, keep: spec_fn(A) -> bool, k: int) -> (i: int)
    requires
        0 <= k < s.filter(keep).len(),
    ensures
        0 <= i < s.len(),
        keep(s[i]),
        rank(s, keep, i) == k,
        s.filter(keep)[k] == s[i],
    decreases s.len(),
{
    reveal(Seq::filter);
    let init = s.drop_last();
    if k < init.filter(keep).len() {
        let i = lemma_filter_origin(init, keep, k);
        assert(init.take(i) =~= s.take(i));
        i
    } else {
        assert(s.take(s.len() - 1) =~= init);
        s.len() - 1
    }
}

/// Filtering changes nothing where every element passes.
pub proof fn lemma_filter_all<A>(s: Seq<A>, keep: spec_fn(A) -> bool)
    requires
        forall|i: int| 0 <= i < s.len() ==> keep(#[trigger] s[i]),
    ensures
        s.filter(keep) == s,
    decreases s.len(),
{
    reveal(Seq::filter);
    if s.len() > 0 {
        let init = s.drop_last();
        assert forall|i: int| 0 <= i < init.len() implies keep(#[trigger] init[i]) by {
            assert(init[i] == s[i]);
        }
        lemma_filter_all(init, keep);
        assert(init.push(s.last()) =~= s);
    } else {
        assert(s.filter(keep) =~= s);
    }
}

/// Filtering twice by one rule is filtering once.
pub proof fn lemma_filter_twice<A>(s: Seq<A>, keep: spec_fn(A) -> bool)
    ensures
        s.filter(keep).filter(keep) == s.filter(keep),
{
    let once = s.filter(keep);
    assert forall|k: int| 0 <= k < once.len() implies keep(#[trigger] once[k]) by {
        lemma_filter_origin(s, keep, k);
    }
    lemma_filter_all(once, keep);
}

} // verus!
