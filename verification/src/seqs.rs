//! Facts about sequences used by the filtering loops of the library.

use vstd::prelude::*;

verus! {

/// Filtering one more element of a prefix appends it when it passes.
pub proof fn lemma_filter_step<A>(s: Seq<A>, i: int, p: spec_fn(A) -> bool)
    requires
        0 <= i < s.len(),
    ensures
        s.take(i + 1).filter(p) == (if p(s[i]) {
            s.take(i).filter(p).push(s[i])
        } else {
            s.take(i).filter(p)
        }),
{
    reveal_with_fuel(Seq::filter, 1);
    assert(s.take(i + 1).drop_last() =~= s.take(i));
    assert(s.take(i + 1).last() == s[i]);
}

/// The whole prefix is the sequence.
pub proof fn lemma_take_full<A>(s: Seq<A>)
    ensures
        s.take(s.len() as int) == s,
{
    assert(s.take(s.len() as int) =~= s);
}

/// Every element of a filtered sequence passes the filter and comes from the sequence.
pub proof fn lemma_filter_members<A>(s: Seq<A>, p: spec_fn(A) -> bool)
    ensures
        forall|i: int| 0 <= i < s.filter(p).len() ==> p(#[trigger] s.filter(p)[i]) && s.contains(s.filter(p)[i]),
        forall|x: A| s.contains(x) && p(x) ==> #[trigger] s.filter(p).contains(x),
        s.filter(p).len() <= s.len(),
{
    assert forall|i: int| 0 <= i < s.filter(p).len() implies p(#[trigger] s.filter(p)[i]) && s.contains(s.filter(p)[i]) by {
        s.lemma_filter_pred(p, i);
        assert(s.filter(p).contains(s.filter(p)[i]));
        s.lemma_filter_contains_rev(p, s.filter(p)[i]);
    }
    assert forall|x: A| s.contains(x) && p(x) implies #[trigger] s.filter(p).contains(x) by {
        let k = choose|k: int| 0 <= k < s.len() && s[k] == x;
        s.lemma_filter_contains(p, k);
    }
    s.lemma_filter_len(p);
}

/// Two positions of a filtered sequence come from two increasing positions of the
/// unfiltered one.
pub proof fn lemma_filter_subsequence<A>(s: Seq<A>, p: spec_fn(A) -> bool, i: int, j: int)
    requires
        0 <= i < j < s.filter(p).len(),
    ensures
        exists|a: int, b: int| 0 <= a < b < s.len() && s[a] == s.filter(p)[i] && s[b] == s.filter(p)[j],
    decreases s.len(),
{
    reveal_with_fuel(Seq::filter, 1);
    let rest = s.drop_last();
    let f = rest.filter(p);
    if p(s.last()) && j == s.filter(p).len() - 1 {
        assert(s.filter(p) == f.push(s.last()));
        assert(s.filter(p)[i] == f[i]);
        crate::seqs::lemma_filter_members(rest, p);
        assert(rest.contains(f[i]));
        let a = choose|a: int| 0 <= a < rest.len() && rest[a] == f[i];
        assert(s[a] == rest[a]);
        assert(s[s.len() - 1] == s.filter(p)[j]);
    } else {
        if p(s.last()) {
            assert(s.filter(p) == f.push(s.last()));
        } else {
            assert(s.filter(p) == f);
        }
        assert(s.filter(p)[i] == f[i]);
        assert(s.filter(p)[j] == f[j]);
        lemma_filter_subsequence(rest, p, i, j);
        let (a, b) = choose|a: int, b: int| 0 <= a < b < rest.len() && rest[a] == f[i] && rest[b] == f[j];
        assert(s[a] == rest[a] && s[b] == rest[b]);
    }
}


/// Filtering keeps everything when every element passes.
pub proof fn lemma_filter_all<A>(s: Seq<A>, p: spec_fn(A) -> bool)
    requires
        forall|k: int| 0 <= k < s.len() ==> #[trigger] p(s[k]),
    ensures
        s.filter(p) == s,
    decreases s.len(),
{
    reveal_with_fuel(Seq::filter, 1);
    if s.len() > 0 {
        let d = s.drop_last();
        assert forall|k: int| 0 <= k < d.len() implies #[trigger] p(d[k]) by {
            assert(d[k] == s[k]);
        }
        lemma_filter_all(d, p);
        assert(p(s[s.len() - 1]));
        assert(s.filter(p) =~= s);
    } else {
        assert(s.filter(p) =~= s);
    }
}

} // verus!
