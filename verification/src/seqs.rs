//! Facts about filtering sequences, shared by the games.

use vstd::prelude::*;

verus! {

/// Filtering one more element: it is kept exactly when it passes.
pub proof fn lemma_filter_step<A>(s: Seq<A>, f: spec_fn(A) -> bool, i: int)
    requires
        0 <= i < s.len(),
    ensures
        s.subrange(0, i + 1).filter(f) == if f(s[i]) {
            s.subrange(0, i).filter(f).push(s[i])
        } else {
            s.subrange(0, i).filter(f)
        },
{
    reveal(Seq::filter);
    assert(s.subrange(0, i + 1).drop_last() =~= s.subrange(0, i));
    assert(s.subrange(0, i + 1).last() == s[i]);
}

/// Every element of a filtered sequence passes the filter and comes from
/// the unfiltered sequence.
pub proof fn lemma_filter_member<A>(s: Seq<A>, f: spec_fn(A) -> bool, k: int)
    requires
        0 <= k < s.filter(f).len(),
    ensures
        f(s.filter(f)[k]),
        exists|i: int| 0 <= i < s.len() && s[i] == s.filter(f)[k],
    decreases s.len(),
{
    reveal(Seq::filter);
    let rest = s.drop_last().filter(f);
    if f(s.last()) && k == rest.len() {
        assert(s[s.len() - 1] == s.filter(f)[k]);
    } else {
        lemma_filter_member(s.drop_last(), f, k);
        let i = choose|i: int| 0 <= i < s.drop_last().len() && s.drop_last()[i] == rest[k];
        assert(s[i] == s.filter(f)[k]);
    }
}

/// Filtering never lengthens a sequence.
pub proof fn lemma_filter_len<A>(s: Seq<A>, f: spec_fn(A) -> bool)
    ensures
        s.filter(f).len() <= s.len(),
    decreases s.len(),
{
    reveal(Seq::filter);
    if s.len() > 0 {
        lemma_filter_len(s.drop_last(), f);
    }
}

/// Whatever holds of every element of a sequence holds of every element
/// of a filtered copy.
pub proof fn lemma_filter_all<A>(s: Seq<A>, f: spec_fn(A) -> bool, p: spec_fn(A) -> bool)
    requires
        forall|i: int| 0 <= i < s.len() ==> p(#[trigger] s[i]),
    ensures
        forall|k: int| 0 <= k < s.filter(f).len() ==> p(#[trigger] s.filter(f)[k]),
{
    assert forall|k: int| 0 <= k < s.filter(f).len() implies p(#[trigger] s.filter(f)[k]) by {
        lemma_filter_member(s, f, k);
    }
}

} // verus!
