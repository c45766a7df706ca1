//! The order of strings by their characters, and sorted lists of distinct strings.

use vstd::prelude::*;
use crate::text::chars_of;

verus! {

/// `a` comes before `b`: at the first place they differ `a` has the smaller character,
/// or `a` is a proper prefix of `b`.
pub open spec fn text_lt(a: Seq<char>, b: Seq<char>) -> bool
    decreases a.len(),
{
    if a.len() == 0 {
        b.len() > 0
    } else if b.len() == 0 {
        false
    } else if (a[0] as int) < (b[0] as int) {
        true
    } else if a[0] == b[0] {
        text_lt(a.drop_first(), b.drop_first())
    } else {
        false
    }
}

/// No string comes before itself.
pub proof fn lemma_text_lt_irreflexive(a: Seq<char>)
    ensures
        !text_lt(a, a),
    decreases a.len(),
{
    if a.len() > 0 {
        lemma_text_lt_irreflexive(a.drop_first());
    }
}

/// The order is transitive.
pub proof fn lemma_text_lt_transitive(a: Seq<char>, b: Seq<char>, c: Seq<char>)
    requires
        text_lt(a, b),
        text_lt(b, c),
    ensures
        text_lt(a, c),
    decreases a.len(),
{
    if a.len() > 0 && b.len() > 0 && c.len() > 0 {
        if a[0] == b[0] && b[0] == c[0] {
            lemma_text_lt_transitive(a.drop_first(), b.drop_first(), c.drop_first());
        }
    }
}

/// Of two different strings one comes first.
pub proof fn lemma_text_lt_total(a: Seq<char>, b: Seq<char>)
    requires
        a != b,
    ensures
        text_lt(a, b) || text_lt(b, a),
    decreases a.len(),
{
    if a.len() > 0 && b.len() > 0 {
        if a[0] == b[0] {
            if a.drop_first() == b.drop_first() {
                assert(a =~= seq![a[0]] + a.drop_first());
                assert(b =~= seq![b[0]] + b.drop_first());
            }
            lemma_text_lt_total(a.drop_first(), b.drop_first());
        } else {
            assert((a[0] as int) != (b[0] as int));
        }
    } else if a.len() == 0 && b.len() == 0 {
        assert(a =~= b);
    }
}

/// At most one of two strings comes before the other.
pub proof fn lemma_text_lt_asymmetric(a: Seq<char>, b: Seq<char>)
    ensures
        !(text_lt(a, b) && text_lt(b, a)),
{
    if text_lt(a, b) && text_lt(b, a) {
        lemma_text_lt_transitive(a, b, a);
        lemma_text_lt_irreflexive(a);
    }
}

/// Whether `a` comes before `b`.
pub fn text_less(a: &str, b: &str) -> (r: bool)
    ensures
        r == text_lt(a@, b@),
{
    let x = chars_of(a);
    let y = chars_of(b);
    let mut i: usize = 0;
    assert(x@.skip(0) =~= x@);
    assert(y@.skip(0) =~= y@);
    while i < x.len() && i < y.len()
        invariant
            i <= x@.len(),
            i <= y@.len(),
            x@ == a@,
            y@ == b@,
            x@.take(i as int) == y@.take(i as int),
            text_lt(a@, b@) == text_lt(x@.skip(i as int), y@.skip(i as int)),
        decreases x.len() - i,
    {
        let cx = x[i];
        let cy = y[i];
        proof {
            let xs = x@.skip(i as int);
            let ys = y@.skip(i as int);
            assert(xs[0] == cx && ys[0] == cy);
            assert(xs.drop_first() =~= x@.skip(i + 1));
            assert(ys.drop_first() =~= y@.skip(i + 1));
        }
        if cx < cy {
            return true;
        }
        if cx != cy {
            return false;
        }
        proof {
            assert(x@.take(i + 1) =~= x@.take(i as int).push(cx));
            assert(y@.take(i + 1) =~= y@.take(i as int).push(cy));
        }
        i = i + 1;
    }
    proof {
        let xs = x@.skip(i as int);
        let ys = y@.skip(i as int);
        assert(xs.len() == 0 || ys.len() == 0);
    }
    i < y.len()
}

/// The strings rise strictly: each comes before every later one.
pub open spec fn strictly_sorted(s: Seq<Seq<char>>) -> bool {
    forall|i: int, j: int| 0 <= i < j < s.len() ==> text_lt(s[i], s[j])
}

/// The characters of each string.
pub open spec fn texts(v: Seq<String>) -> Seq<Seq<char>> {
    v.map_values(|t: String| t@)
}

/// Puts `x` into its place in a strictly sorted list of distinct strings, unless it is
/// there already.
pub fn insert_sorted_unique(v: &mut Vec<String>, x: &String)
    requires
        strictly_sorted(texts(old(v)@)),
    ensures
        strictly_sorted(texts(final(v)@)),
        forall|y: Seq<char>| #[trigger] texts(final(v)@).contains(y) <==> (texts(old(v)@).contains(y) || y == x@),
{
    let ghost s0 = texts(v@);
    let mut p: usize = 0;
    while p < v.len() && text_less(v[p].as_str(), x.as_str())
        invariant
            p <= v@.len(),
            texts(v@) == s0,
            strictly_sorted(s0),
            forall|k: int| 0 <= k < p ==> text_lt(#[trigger] s0[k], x@),
        decreases v.len() - p,
    {
        assert(s0[p as int] == v@[p as int]@);
        p = p + 1;
    }
    if p < v.len() {
        assert(s0[p as int] == v@[p as int]@);
        if crate::text::str_eq(v[p].as_str(), x.as_str()) {
            assert forall|y: Seq<char>| #[trigger] texts(v@).contains(y) <==> (s0.contains(y) || y == x@) by {
                if y == x@ {
                    assert(s0[p as int] == y);
                }
            }
            return;
        }
    }
    proof {
        if p < s0.len() {
            lemma_text_lt_total(s0[p as int], x@);
        }
    }
    v.insert(p, x.clone());
    proof {
        let s1 = texts(v@);
        assert(s1 =~= s0.insert(p as int, x@));
        assert forall|i: int, j: int| 0 <= i < j < s1.len() implies text_lt(s1[i], s1[j]) by {
            if j < p {
                assert(s1[i] == s0[i] && s1[j] == s0[j]);
            } else if j == p {
                assert(s1[i] == s0[i]);
            } else if i < p {
                assert(s1[i] == s0[i] && s1[j] == s0[j - 1]);
                assert(text_lt(s0[i], x@));
                assert(text_lt(x@, s0[p as int]));
                if j - 1 > p {
                    lemma_text_lt_transitive(x@, s0[p as int], s0[j - 1]);
                }
                lemma_text_lt_transitive(s0[i], x@, s0[j - 1]);
            } else if i == p {
                assert(s1[j] == s0[j - 1]);
                if j - 1 > p {
                    lemma_text_lt_transitive(x@, s0[p as int], s0[j - 1]);
                }
            } else {
                assert(s1[i] == s0[i - 1] && s1[j] == s0[j - 1]);
            }
        }
        assert forall|y: Seq<char>| #[trigger] s1.contains(y) <==> (s0.contains(y) || y == x@) by {
            if s1.contains(y) {
                let k = choose|k: int| 0 <= k < s1.len() && s1[k] == y;
                if k < p {
                    assert(s0[k] == y);
                } else if k > p {
                    assert(s0[k - 1] == y);
                }
            }
            if s0.contains(y) {
                let k = choose|k: int| 0 <= k < s0.len() && s0[k] == y;
                if k < p {
                    assert(s1[k] == y);
                } else {
                    assert(s1[k + 1] == y);
                }
            }
            if y == x@ {
                assert(s1[p as int] == y);
            }
        }
    }
}

/// `ord` lists each position below `keys.len()` once, by nondecreasing key, positions
/// with equal keys in increasing order.
pub open spec fn sorts_stably(ord: Seq<usize>, keys: Seq<int>) -> bool {
    &&& ord.len() == keys.len()
    &&& forall|i: int| 0 <= i < ord.len() ==> #[trigger] ord[i] < keys.len()
    &&& forall|i: int, j: int| 0 <= i < j < ord.len() ==> ord[i] != ord[j]
    &&& forall|i: int, j: int| 0 <= i < j < ord.len() ==> keys[ord[i] as int] <= keys[ord[j] as int]
    &&& forall|i: int, j: int| 0 <= i < j < ord.len() && keys[ord[i] as int] == keys[ord[j] as int] ==> ord[i] < ord[j]
}

/// The keys as integers.
pub open spec fn key_view(keys: Seq<i128>) -> Seq<int> {
    keys.map_values(|k: i128| k as int)
}

/// The positions of `keys` sorted stably by key.
pub fn stable_order(keys: &Vec<i128>) -> (r: Vec<usize>)
    ensures
        sorts_stably(r@, key_view(keys@)),
{
    let ghost kv = key_view(keys@);
    let mut ord: Vec<usize> = Vec::new();
    let mut k: usize = 0;
    while k < keys.len()
        invariant
            kv == key_view(keys@),
            k <= keys@.len(),
            ord@.len() == k,
            forall|i: int| 0 <= i < ord@.len() ==> #[trigger] ord@[i] < k,
            forall|i: int, j: int| 0 <= i < j < ord@.len() ==> ord@[i] != ord@[j],
            forall|i: int, j: int| 0 <= i < j < ord@.len() ==> kv[ord@[i] as int] <= kv[ord@[j] as int],
            forall|i: int, j: int| 0 <= i < j < ord@.len() && kv[ord@[i] as int] == kv[ord@[j] as int] ==> ord@[i] < ord@[j],
        decreases keys.len() - k,
    {
        let ghost o0 = ord@;
        let mut p: usize = 0;
        while p < ord.len() && keys[ord[p]] <= keys[k]
            invariant
                kv == key_view(keys@),
                k < keys@.len(),
                ord@ == o0,
                p <= o0.len(),
                forall|i: int| 0 <= i < o0.len() ==> #[trigger] o0[i] < k,
                forall|i: int| 0 <= i < p ==> kv[(#[trigger] o0[i]) as int] <= kv[k as int],
            decreases ord.len() - p,
        {
            assert(o0[p as int] < k);
            p = p + 1;
        }
        proof {
            if p < o0.len() {
                assert(o0[p as int] < k);
                assert(kv[o0[p as int] as int] > kv[k as int]);
            }
        }
        ord.insert(p, k);
        proof {
            let o1 = ord@;
            assert(o1 =~= o0.insert(p as int, k));
            assert forall|i: int| 0 <= i < o1.len() implies #[trigger] o1[i] < k + 1 by {
                if i < p {
                    assert(o1[i] == o0[i]);
                } else if i > p {
                    assert(o1[i] == o0[i - 1]);
                }
            }
            assert forall|i: int, j: int| 0 <= i < j < o1.len() implies o1[i] != o1[j] by {
                if j < p {
                    assert(o1[i] == o0[i] && o1[j] == o0[j]);
                } else if j == p {
                    assert(o1[i] == o0[i]);
                } else if i < p {
                    assert(o1[i] == o0[i] && o1[j] == o0[j - 1]);
                } else if i == p {
                    assert(o1[j] == o0[j - 1]);
                } else {
                    assert(o1[i] == o0[i - 1] && o1[j] == o0[j - 1]);
                }
            }
            assert forall|i: int, j: int| 0 <= i < j < o1.len() implies kv[o1[i] as int] <= kv[o1[j] as int] && (kv[o1[i] as int]
                == kv[o1[j] as int] ==> o1[i] < o1[j]) by {
                if j < p {
                    assert(o1[i] == o0[i] && o1[j] == o0[j]);
                } else if j == p {
                    assert(o1[i] == o0[i]);
                    assert(kv[o0[i] as int] <= kv[k as int]);
                } else if i < p {
                    assert(o1[i] == o0[i] && o1[j] == o0[j - 1]);
                    assert(kv[o0[i] as int] <= kv[k as int]);
                    if j - 1 > p {
                        assert(kv[o0[p as int] as int] <= kv[o0[j - 1] as int]);
                    }
                } else if i == p {
                    assert(o1[j] == o0[j - 1]);
                    if j - 1 > p {
                        assert(kv[o0[p as int] as int] <= kv[o0[j - 1] as int]);
                    }
                } else {
                    assert(o1[i] == o0[i - 1] && o1[j] == o0[j - 1]);
                }
            }
        }
        k = k + 1;
    }
    ord
}

/// Lists of strings in dictionary order: compared string by string, a proper prefix
/// first.
pub open spec fn key_lt(a: Seq<Seq<char>>, b: Seq<Seq<char>>) -> bool
    decreases a.len(),
{
    if a.len() == 0 {
        b.len() > 0
    } else if b.len() == 0 {
        false
    } else if text_lt(a[0], b[0]) {
        true
    } else if a[0] == b[0] {
        key_lt(a.drop_first(), b.drop_first())
    } else {
        false
    }
}

/// No list comes before itself.
pub proof fn lemma_key_lt_irreflexive(a: Seq<Seq<char>>)
    ensures
        !key_lt(a, a),
    decreases a.len(),
{
    if a.len() > 0 {
        lemma_text_lt_irreflexive(a[0]);
        lemma_key_lt_irreflexive(a.drop_first());
    }
}

/// The order of lists is transitive.
pub proof fn lemma_key_lt_transitive(a: Seq<Seq<char>>, b: Seq<Seq<char>>, c: Seq<Seq<char>>)
    requires
        key_lt(a, b),
        key_lt(b, c),
    ensures
        key_lt(a, c),
    decreases a.len(),
{
    if a.len() > 0 && b.len() > 0 && c.len() > 0 {
        lemma_text_lt_irreflexive(a[0]);
        lemma_text_lt_irreflexive(b[0]);
        if text_lt(a[0], b[0]) {
            if text_lt(b[0], c[0]) {
                lemma_text_lt_transitive(a[0], b[0], c[0]);
            }
        } else if text_lt(b[0], c[0]) {
            assert(a[0] == b[0]);
        } else {
            lemma_key_lt_transitive(a.drop_first(), b.drop_first(), c.drop_first());
        }
    }
}

/// Of two different lists one comes first.
pub proof fn lemma_key_lt_total(a: Seq<Seq<char>>, b: Seq<Seq<char>>)
    requires
        a != b,
    ensures
        key_lt(a, b) || key_lt(b, a),
    decreases a.len(),
{
    if a.len() > 0 && b.len() > 0 {
        lemma_text_lt_irreflexive(a[0]);
        if a[0] == b[0] {
            if a.drop_first() == b.drop_first() {
                assert(a =~= seq![a[0]] + a.drop_first());
                assert(b =~= seq![b[0]] + b.drop_first());
            }
            lemma_key_lt_total(a.drop_first(), b.drop_first());
        } else {
            lemma_text_lt_total(a[0], b[0]);
        }
    } else if a.len() == 0 && b.len() == 0 {
        assert(a =~= b);
    }
}

/// Whether the list `a` comes before the list `b`.
pub fn key_less(a: &Vec<String>, b: &Vec<String>) -> (r: bool)
    ensures
        r == key_lt(texts(a@), texts(b@)),
{
    let ghost x = texts(a@);
    let ghost y = texts(b@);
    let mut i: usize = 0;
    assert(x.skip(0) =~= x);
    assert(y.skip(0) =~= y);
    while i < a.len() && i < b.len()
        invariant
            i <= a@.len(),
            i <= b@.len(),
            x == texts(a@),
            y == texts(b@),
            key_lt(x, y) == key_lt(x.skip(i as int), y.skip(i as int)),
        decreases a.len() - i,
    {
        proof {
            let xs = x.skip(i as int);
            let ys = y.skip(i as int);
            assert(xs[0] == a@[i as int]@);
            assert(ys[0] == b@[i as int]@);
            assert(xs.drop_first() =~= x.skip(i + 1));
            assert(ys.drop_first() =~= y.skip(i + 1));
            lemma_text_lt_irreflexive(xs[0]);
        }
        if text_less(a[i].as_str(), b[i].as_str()) {
            return true;
        }
        if !crate::text::str_eq(a[i].as_str(), b[i].as_str()) {
            return false;
        }
        i = i + 1;
    }
    i < b.len()
}

/// The texts of each key.
pub open spec fn keys_of(k: Seq<Vec<String>>) -> Seq<Seq<Seq<char>>> {
    k.map_values(|v: Vec<String>| texts(v@))
}

/// `ord` lists each position below `keys.len()` once, no key before a smaller one,
/// positions with equal keys in increasing order.
pub open spec fn sorts_stably_by_text(ord: Seq<usize>, keys: Seq<Seq<Seq<char>>>) -> bool {
    &&& ord.len() == keys.len()
    &&& forall|i: int| 0 <= i < ord.len() ==> #[trigger] ord[i] < keys.len()
    &&& forall|i: int, j: int| 0 <= i < j < ord.len() ==> ord[i] != ord[j]
    &&& forall|i: int, j: int| 0 <= i < j < ord.len() ==> !key_lt(keys[ord[j] as int], keys[ord[i] as int])
    &&& forall|i: int, j: int| 0 <= i < j < ord.len() && keys[ord[i] as int] == keys[ord[j] as int] ==> ord[i] < ord[j]
}

/// The elements of `s` at the positions `ord`, in that order.
pub open spec fn arranged<T>(s: Seq<T>, ord: Seq<usize>) -> Seq<T> {
    ord.map_values(|i: usize| s[i as int])
}

/// Sorts `v` stably by the keys beside it (`keys[i]` belongs to `v[i]`), moving the keys
/// along.
pub fn sort_stably_by_keys<T>(v: &mut Vec<T>, keys: &mut Vec<Vec<String>>)
    requires
        old(v)@.len() == old(keys)@.len(),
    ensures
        exists|ord: Seq<usize>|
            #[trigger] sorts_stably_by_text(ord, keys_of(old(keys)@)) && final(v)@ == arranged(old(v)@, ord)
                && final(keys)@ == arranged(old(keys)@, ord),
{
    let ghost v0 = v@;
    let ghost k0 = keys@;
    let ghost kv = keys_of(k0);
    let ghost mut ord: Seq<usize> = Seq::empty();
    let n = v.len();
    let mut k: usize = 0;
    assert(v@ =~= arranged(v0, ord) + v0.skip(0));
    assert(keys@ =~= arranged(k0, ord) + k0.skip(0));
    while k < n
        invariant
            n == v0.len(),
            n == k0.len(),
            kv == keys_of(k0),
            k <= n,
            ord.len() == k,
            v@ == arranged(v0, ord) + v0.skip(k as int),
            keys@ == arranged(k0, ord) + k0.skip(k as int),
            forall|i: int| 0 <= i < ord.len() ==> #[trigger] ord[i] < k,
            forall|i: int, j: int| 0 <= i < j < ord.len() ==> ord[i] != ord[j],
            forall|i: int, j: int| 0 <= i < j < ord.len() ==> !key_lt(kv[ord[j] as int], kv[ord[i] as int]),
            forall|i: int, j: int| 0 <= i < j < ord.len() && kv[ord[i] as int] == kv[ord[j] as int] ==> ord[i] < ord[j],
        decreases n - k,
    {
        let ghost o0 = ord;
        assert(v@[k as int] == v0[k as int]);
        assert(keys@[k as int] == k0[k as int]);
        let x = v.remove(k);
        let kx = keys.remove(k);
        assert(v@ =~= arranged(v0, o0) + v0.skip(k + 1));
        assert(keys@ =~= arranged(k0, o0) + k0.skip(k + 1));
        assert(texts(kx@) == kv[k as int]);
        let mut p: usize = 0;
        while p < k && !key_less(&kx, &keys[p])
            invariant
                kv == keys_of(k0),
                k < n,
                n == k0.len(),
                o0.len() == k,
                keys@ == arranged(k0, o0) + k0.skip(k + 1),
                texts(kx@) == kv[k as int],
                p <= k,
                forall|i: int| 0 <= i < o0.len() ==> #[trigger] o0[i] < k,
                forall|i: int| 0 <= i < p ==> !key_lt(kv[k as int], kv[(#[trigger] o0[i]) as int]),
            decreases k - p,
        {
            assert(keys@[p as int] == k0[o0[p as int] as int]);
            assert(o0[p as int] < k);
            p = p + 1;
        }
        proof {
            if p < k {
                assert(keys@[p as int] == k0[o0[p as int] as int]);
                assert(o0[p as int] < k);
                assert(key_lt(kv[k as int], kv[o0[p as int] as int]));
            }
        }
        v.insert(p, x);
        keys.insert(p, kx);
        proof {
            let o1 = o0.insert(p as int, k);
            assert(arranged(v0, o1) =~= arranged(v0, o0).insert(p as int, v0[k as int]));
            assert(arranged(k0, o1) =~= arranged(k0, o0).insert(p as int, k0[k as int]));
            assert(v@ =~= arranged(v0, o1) + v0.skip(k + 1));
            assert(keys@ =~= arranged(k0, o1) + k0.skip(k + 1));
            assert forall|i: int| 0 <= i < o1.len() implies #[trigger] o1[i] < k + 1 by {
                if i < p {
                    assert(o1[i] == o0[i]);
                } else if i > p {
                    assert(o1[i] == o0[i - 1]);
                }
            }
            assert forall|i: int, j: int| 0 <= i < j < o1.len() implies o1[i] != o1[j] by {
                if j < p {
                    assert(o1[i] == o0[i] && o1[j] == o0[j]);
                } else if j == p {
                    assert(o1[i] == o0[i]);
                } else if i < p {
                    assert(o1[i] == o0[i] && o1[j] == o0[j - 1]);
                } else if i == p {
                    assert(o1[j] == o0[j - 1]);
                } else {
                    assert(o1[i] == o0[i - 1] && o1[j] == o0[j - 1]);
                }
            }
            assert forall|i: int, j: int| 0 <= i < j < o1.len() implies !key_lt(kv[o1[j] as int], kv[o1[i] as int]) && (
            kv[o1[i] as int] == kv[o1[j] as int] ==> o1[i] < o1[j]) by {
                if j < p {
                    assert(o1[i] == o0[i] && o1[j] == o0[j]);
                } else if j == p {
                    assert(o1[i] == o0[i]);
                    assert(o0[i] < k);
                } else if i < p {
                    assert(o1[i] == o0[i] && o1[j] == o0[j - 1]);
                } else if i == p {
                    assert(o1[j] == o0[j - 1]);
                    let a = kv[k as int];
                    let b = kv[o0[p as int] as int];
                    let c = kv[o0[j - 1] as int];
                    assert(key_lt(a, b));
                    if j - 1 == p {
                        lemma_key_lt_irreflexive(a);
                        if key_lt(c, a) {
                            lemma_key_lt_transitive(a, b, a);
                        }
                    } else {
                        assert(!key_lt(c, b));
                        if key_lt(c, a) {
                            lemma_key_lt_transitive(c, a, b);
                        }
                        if a == c {
                            assert(key_lt(c, b));
                        }
                    }
                } else {
                    assert(o1[i] == o0[i - 1] && o1[j] == o0[j - 1]);
                }
            }
            ord = o1;
        }
        k = k + 1;
    }
    assert(v0.skip(n as int) =~= Seq::<T>::empty());
    assert(k0.skip(n as int) =~= Seq::<Vec<String>>::empty());
    assert(v@ =~= arranged(v0, ord));
    assert(keys@ =~= arranged(k0, ord));
    assert(sorts_stably_by_text(ord, kv));
}

/// Position `m` appears in `ord`.
pub open spec fn lists(ord: Seq<usize>, m: int) -> bool {
    exists|i: int| 0 <= i < ord.len() && #[trigger] ord[i] == m
}

/// A stable sorting order lists every position: it is a rearrangement.
pub proof fn lemma_sorted_order_onto(ord: Seq<usize>, keys: Seq<Seq<Seq<char>>>)
    requires
        sorts_stably_by_text(ord, keys),
    ensures
        forall|m: int| 0 <= m < keys.len() ==> #[trigger] lists(ord, m),
{
    let n = keys.len();
    let mapped = ord.map_values(|u: usize| u as int);
    assert forall|i: int, j: int| 0 <= i < mapped.len() && 0 <= j < mapped.len() && i != j implies mapped[i] != mapped[j] by {
        if i < j {
            assert(ord[i] != ord[j]);
        } else {
            assert(ord[j] != ord[i]);
        }
    }
    assert(mapped.no_duplicates());
    mapped.unique_seq_to_set();
    vstd::seq_lib::seq_to_set_is_finite::<int>(mapped);
    vstd::set_lib::lemma_int_range(0, n as int);
    let range = vstd::set_lib::set_int_range(0, n as int);
    assert(mapped.to_set().subset_of(range)) by {
        assert forall|m: int| #[trigger] mapped.to_set().contains(m) implies range.contains(m) by {
            let i = choose|i: int| 0 <= i < mapped.len() && mapped[i] == m;
            assert(ord[i] < n);
        }
    }
    vstd::set_lib::lemma_subset_equality(mapped.to_set(), range);
    assert forall|m: int| 0 <= m < n implies #[trigger] lists(ord, m) by {
        assert(range.contains(m));
        assert(mapped.to_set().contains(m));
        let i = choose|i: int| 0 <= i < mapped.len() && mapped[i] == m;
        assert(ord[i] == m);
    }
}

/// Rearranging by a stable sorting order keeps exactly the same elements.
pub proof fn lemma_arranged_contains<T>(s: Seq<T>, ord: Seq<usize>, keys: Seq<Seq<Seq<char>>>)
    requires
        sorts_stably_by_text(ord, keys),
        keys.len() == s.len(),
    ensures
        forall|x: T| #[trigger] arranged(s, ord).contains(x) <==> s.contains(x),
        arranged(s, ord).len() == s.len(),
{
    lemma_sorted_order_onto(ord, keys);
    let a = arranged(s, ord);
    assert forall|x: T| #[trigger] a.contains(x) <==> s.contains(x) by {
        if a.contains(x) {
            let i = choose|i: int| 0 <= i < a.len() && a[i] == x;
            assert(s[ord[i] as int] == x);
        }
        if s.contains(x) {
            let m = choose|m: int| 0 <= m < s.len() && s[m] == x;
            assert(lists(ord, m));
            let i = choose|i: int| 0 <= i < ord.len() && #[trigger] ord[i] == m;
            assert(a[i] == x);
        }
    }
}

/// The distinct strings of `v`, sorted.
pub fn sorted_unique(v: &Vec<String>) -> (r: Vec<String>)
    ensures
        strictly_sorted(texts(r@)),
        forall|y: Seq<char>| #[trigger] texts(r@).contains(y) <==> texts(v@).contains(y),
{
    let mut out: Vec<String> = Vec::new();
    let mut j: usize = 0;
    while j < v.len()
        invariant
            j <= v@.len(),
            strictly_sorted(texts(out@)),
            forall|y: Seq<char>| #[trigger] texts(out@).contains(y) <==> texts(v@).take(j as int).contains(y),
        decreases v.len() - j,
    {
        insert_sorted_unique(&mut out, &v[j]);
        proof {
            let tv = texts(v@);
            assert(tv[j as int] == v@[j as int]@);
            assert(tv.take(j + 1) =~= tv.take(j as int).push(tv[j as int]));
            assert forall|y: Seq<char>| tv.take(j + 1).contains(y) <==> (tv.take(j as int).contains(y) || y == tv[j as int]) by {
                if tv.take(j + 1).contains(y) {
                    let k = choose|k: int| 0 <= k < j + 1 && #[trigger] tv.take(j + 1)[k] == y;
                    if k < j {
                        assert(tv.take(j as int)[k] == y);
                    }
                }
                if tv.take(j as int).contains(y) {
                    let k = choose|k: int| 0 <= k < j && #[trigger] tv.take(j as int)[k] == y;
                    assert(tv.take(j + 1)[k] == y);
                }
                if y == tv[j as int] {
                    assert(tv.take(j + 1)[j as int] == y);
                }
            }
        }
        j = j + 1;
    }
    assert(texts(v@).take(v@.len() as int) =~= texts(v@));
    out
}

} // verus!
