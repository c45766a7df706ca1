//! The matching step of the Jaro similarity: which characters of two texts match
//! within the window, and how many matched pairs are out of order.

use vstd::prelude::*;
use crate::item::SemanticItem;
use crate::similarity::all_ascii;
use crate::text::chars_of;

verus! {

/// How far apart two matching characters may stand: half the longer length, less
/// one, and never below zero.
pub open spec fn match_window(la: int, lb: int) -> int {
    let half = (if la >= lb { la } else { lb }) / 2;
    if half >= 1 {
        half - 1
    } else {
        0
    }
}

/// The first position `j` with `from <= j < to` where `b` has `c` and `used` is not
/// set.
pub open spec fn first_free(c: char, b: Seq<char>, used: Seq<bool>, from: int, to: int) -> Option<int>
    decreases to - from,
{
    if from >= to {
        None
    } else if !used[from] && b[from] == c {
        Some(from)
    } else {
        first_free(c, b, used, from + 1, to)
    }
}

/// After the first `i` characters of `a` took, in turn, the first unused equal
/// character of `b` within the window: which characters of `a` matched, and which of
/// `b` are used.
pub open spec fn match_state(a: Seq<char>, b: Seq<char>, i: int) -> (Seq<bool>, Seq<bool>)
    decreases i,
{
    if i <= 0 {
        (Seq::empty(), Seq::new(b.len(), |j: int| false))
    } else {
        let prev = match_state(a, b, i - 1);
        let w = match_window(a.len() as int, b.len() as int);
        let from = if i - 1 - w >= 0 { i - 1 - w } else { 0 };
        let to = if i + w <= b.len() { i + w } else { b.len() as int };
        match first_free(a[i - 1], b, prev.1, from, to) {
            Some(j) => (prev.0.push(true), prev.1.update(j, true)),
            None => (prev.0.push(false), prev.1),
        }
    }
}

/// The characters of `s` whose flag is set, in order.
pub open spec fn flagged(s: Seq<char>, flags: Seq<bool>, n: int) -> Seq<char>
    decreases n,
{
    if n <= 0 {
        Seq::empty()
    } else if flags[n - 1] {
        flagged(s, flags, n - 1).push(s[n - 1])
    } else {
        flagged(s, flags, n - 1)
    }
}

/// The positions below `n` where the two texts differ.
pub open spec fn mismatches(x: Seq<char>, y: Seq<char>, n: int) -> nat
    decreases n,
{
    if n <= 0 {
        0
    } else {
        mismatches(x, y, n - 1) + if x[n - 1] != y[n - 1] {
            1nat
        } else {
            0nat
        }
    }
}

/// The matches of `a` against `b`, and how many matched pairs, taken in order on both
/// sides, hold different characters.
pub open spec fn jaro_counts(a: Seq<char>, b: Seq<char>) -> (nat, nat) {
    let st = match_state(a, b, a.len() as int);
    let ma = flagged(a, st.0, a.len() as int);
    let mb = flagged(b, st.1, b.len() as int);
    (ma.len(), mismatches(ma, mb, ma.len() as int))
}

/// `first_free` finds a position in the range, unused and holding `c`, before which
/// there is none such.
proof fn lemma_first_free(c: char, b: Seq<char>, used: Seq<bool>, from: int, to: int)
    requires
        0 <= from,
        to <= b.len(),
        used.len() == b.len(),
    ensures
        match first_free(c, b, used, from, to) {
            Some(j) => from <= j < to && !used[j] && b[j] == c && forall|k: int|
                from <= k < j ==> used[k] || b[k] != c,
            None => forall|k: int| from <= k < to ==> used[k] || b[k] != c,
        },
    decreases to - from,
{
    if from < to {
        lemma_first_free(c, b, used, from + 1, to);
    }
}

/// Number of set flags among the first `n`.
pub open spec fn set_count(flags: Seq<bool>, n: int) -> nat
    decreases n,
{
    if n <= 0 {
        0
    } else {
        set_count(flags, n - 1) + if flags[n - 1] {
            1nat
        } else {
            0nat
        }
    }
}

proof fn lemma_flagged_len(s: Seq<char>, flags: Seq<bool>, n: int)
    ensures
        flagged(s, flags, n).len() == set_count(flags, n),
    decreases n,
{
    if n > 0 {
        lemma_flagged_len(s, flags, n - 1);
    }
}

/// Setting an unset flag adds one to the count of every range that holds it.
proof fn lemma_set_count_update(flags: Seq<bool>, j: int, n: int)
    requires
        0 <= j < flags.len(),
        !flags[j],
        n <= flags.len(),
    ensures
        set_count(flags.update(j, true), n) == set_count(flags, n) + if j < n {
            1nat
        } else {
            0nat
        },
    decreases n,
{
    if n > 0 {
        lemma_set_count_update(flags, j, n - 1);
    }
}

proof fn lemma_set_count_bound(flags: Seq<bool>, n: int)
    ensures
        set_count(flags, n) <= if n <= 0 { 0 } else { n },
    decreases n,
{
    if n > 0 {
        lemma_set_count_bound(flags, n - 1);
    }
}

/// The flags of `b` used after `i` steps number as many as the matches so far.
proof fn lemma_match_state(a: Seq<char>, b: Seq<char>, i: int)
    requires
        0 <= i <= a.len(),
    ensures
        match_state(a, b, i).0.len() == i,
        match_state(a, b, i).1.len() == b.len(),
        set_count(match_state(a, b, i).0, i) == set_count(match_state(a, b, i).1, b.len() as int),
    decreases i,
{
    if i <= 0 {
        let u = Seq::new(b.len(), |j: int| false);
        lemma_no_flags(u, b.len() as int);
    } else {
        lemma_match_state(a, b, i - 1);
        let prev = match_state(a, b, i - 1);
        let w = match_window(a.len() as int, b.len() as int);
        let from = if i - 1 - w >= 0 { i - 1 - w } else { 0 };
        let to = if i + w <= b.len() { i + w } else { b.len() as int };
        lemma_first_free(a[i - 1], b, prev.1, from, to);
        lemma_set_count_prefix(prev.0.push(true), prev.0, i - 1);
        lemma_set_count_prefix(prev.0.push(false), prev.0, i - 1);
        match first_free(a[i - 1], b, prev.1, from, to) {
            Some(j) => {
                lemma_set_count_update(prev.1, j, b.len() as int);
            },
            None => {},
        }
    }
}

proof fn lemma_no_flags(flags: Seq<bool>, n: int)
    requires
        forall|k: int| 0 <= k < flags.len() ==> !flags[k],
        n <= flags.len(),
    ensures
        set_count(flags, n) == 0,
    decreases n,
{
    if n > 0 {
        lemma_no_flags(flags, n - 1);
    }
}

/// Counting over a prefix only looks at the prefix.
proof fn lemma_set_count_prefix(x: Seq<bool>, y: Seq<bool>, n: int)
    requires
        n <= x.len(),
        n <= y.len(),
        forall|k: int| 0 <= k < n ==> x[k] == y[k],
    ensures
        set_count(x, n) == set_count(y, n),
    decreases n,
{
    if n > 0 {
        lemma_set_count_prefix(x, y, n - 1);
    }
}

proof fn lemma_flagged_prefix(s: Seq<char>, x: Seq<bool>, y: Seq<bool>, n: int)
    requires
        n <= x.len(),
        n <= y.len(),
        forall|k: int| 0 <= k < n ==> x[k] == y[k],
    ensures
        flagged(s, x, n) == flagged(s, y, n),
    decreases n,
{
    if n > 0 {
        lemma_flagged_prefix(s, x, y, n - 1);
    }
}

/// The two counts the Jaro similarity is made of, over characters: how many
/// characters of `s1` match an equal, not yet matched character of `s2` within the
/// window (each taking the first such), and how many of the matched pairs, taken in
/// order on both sides, hold different characters.
pub fn jaro_char_counts(s1: &str, s2: &str) -> (r: (usize, usize))
    ensures
        r.0 == jaro_counts(s1@, s2@).0,
        r.1 == jaro_counts(s1@, s2@).1,
{
    let a = chars_of(s1);
    let b = chars_of(s2);
    let la = a.len();
    let lb = b.len();
    let longer = if la >= lb {
        la
    } else {
        lb
    };
    let window = (longer / 2).saturating_sub(1);
    let mut a_matched: Vec<bool> = Vec::new();
    let mut b_used: Vec<bool> = Vec::new();
    let mut j0: usize = 0;
    while j0 < lb
        invariant
            lb == b@.len(),
            j0 <= lb,
            b_used@ == Seq::new(j0 as nat, |j: int| false),
        decreases lb - j0,
    {
        b_used.push(false);
        assert(b_used@ =~= Seq::new((j0 + 1) as nat, |j: int| false));
        j0 = j0 + 1;
    }
    let mut matches: usize = 0;
    let mut i: usize = 0;
    while i < la
        invariant
            a@ == s1@,
            b@ == s2@,
            la == a@.len(),
            lb == b@.len(),
            window == match_window(la as int, lb as int),
            i <= la,
            (a_matched@, b_used@) == match_state(a@, b@, i as int),
            matches == set_count(a_matched@, i as int),
            matches <= i,
        decreases la - i,
    {
        proof {
            lemma_match_state(a@, b@, i as int);
        }
        let start: usize = if i >= window {
            i - window
        } else {
            0
        };
        let to: usize = if window <= lb && i < lb - window {
            i + window + 1
        } else {
            lb
        };
        let from: usize = if start <= to {
            start
        } else {
            to
        };
        let ghost prev_a = a_matched@;
        let ghost prev_b = b_used@;
        let mut j = from;
        while j < to && (b_used[j] || a[i] != b[j])
            invariant
                from <= j <= to <= lb,
                lb == b@.len(),
                a@.len() == la,
                i < la,
                b_used@ == prev_b,
                prev_b.len() == lb,
                first_free(a@[i as int], b@, prev_b, start as int, to as int) == first_free(
                    a@[i as int],
                    b@,
                    prev_b,
                    j as int,
                    to as int,
                ),
            decreases to - j,
        {
            j = j + 1;
        }
        if j < to {
            b_used.set(j, true);
            a_matched.push(true);
            matches = matches + 1;
        } else {
            a_matched.push(false);
        }
        proof {
            lemma_set_count_prefix(a_matched@, prev_a, i as int);
        }
        i = i + 1;
    }
    let ghost st = match_state(a@, b@, la as int);
    proof {
        lemma_match_state(a@, b@, la as int);
        lemma_flagged_len(a@, st.0, la as int);
        lemma_flagged_len(b@, st.1, lb as int);
    }
    let ghost ma = flagged(a@, st.0, la as int);
    let ghost mb = flagged(b@, st.1, lb as int);
    let mut transpositions: usize = 0;
    let mut k: usize = 0;
    let mut seen: usize = 0;
    let mut t: usize = 0;
    while t < la
        invariant
            la == a@.len(),
            lb == b@.len(),
            a_matched@ == st.0,
            b_used@ == st.1,
            st.0.len() == la,
            st.1.len() == lb,
            ma == flagged(a@, st.0, la as int),
            mb == flagged(b@, st.1, lb as int),
            t <= la,
            k <= lb,
            seen == set_count(st.0, t as int),
            seen == set_count(st.1, k as int),
            set_count(st.0, la as int) == set_count(st.1, lb as int),
            flagged(a@, st.0, t as int) == ma.take(seen as int),
            flagged(b@, st.1, k as int) == mb.take(seen as int),
            ma.len() == set_count(st.0, la as int),
            mb.len() == set_count(st.1, lb as int),
            transpositions == mismatches(ma, mb, seen as int),
            transpositions <= seen,
        decreases la - t,
    {
        if a_matched[t] {
            proof {
                lemma_set_count_grows(st.0, t as int + 1, la as int);
                lemma_set_count_bound(st.0, t as int + 1);
            }
            while !b_used[k]
                invariant
                    k < lb,
                    lb == b@.len(),
                    b_used@ == st.1,
                    st.1.len() == lb,
                    seen == set_count(st.1, k as int),
                    seen < set_count(st.1, lb as int),
                    flagged(b@, st.1, k as int) == mb.take(seen as int),
                decreases lb - k,
            {
                proof {
                    assert(set_count(st.1, k + 1) == seen);
                    if k + 1 == lb {
                        assert(false);
                    }
                }
                k = k + 1;
            }
            proof {
                lemma_flagged_len(a@, st.0, t as int + 1);
                lemma_flagged_len(b@, st.1, k as int + 1);
                lemma_flagged_prefix_of(a@, st.0, t as int + 1, la as int);
                lemma_flagged_prefix_of(b@, st.1, k as int + 1, lb as int);
                assert(flagged(a@, st.0, t as int + 1) == ma.take(seen as int).push(a@[t as int]));
                assert(flagged(b@, st.1, k as int + 1) == mb.take(seen as int).push(b@[k as int]));
                assert(ma.take(seen + 1) == flagged(a@, st.0, t as int + 1));
                assert(mb.take(seen + 1) == flagged(b@, st.1, k as int + 1));
                assert(ma[seen as int] == ma.take(seen + 1)[seen as int]);
                assert(mb[seen as int] == mb.take(seen + 1)[seen as int]);
            }
            if a[t] != b[k] {
                transpositions = transpositions + 1;
            }
            k = k + 1;
            seen = seen + 1;
        }
        t = t + 1;
    }
    proof {
        assert(ma.take(seen as int) =~= ma);
    }
    (matches, transpositions)
}

impl SemanticItem {
    /// The two counts the Jaro similarity of two metadata keys is made of; the keys
    /// must be ASCII, as the similarity walks them by byte length.
    pub fn jaro_match_counts(s1: &str, s2: &str) -> (r: (usize, usize))
        requires
            all_ascii(s1@),
            all_ascii(s2@),
        ensures
            r.0 == jaro_counts(s1@, s2@).0,
            r.1 == jaro_counts(s1@, s2@).1,
    {
        jaro_char_counts(s1, s2)
    }
}

/// Counts only grow as the range widens.
proof fn lemma_set_count_grows(flags: Seq<bool>, i: int, n: int)
    requires
        i <= n,
    ensures
        set_count(flags, i) <= set_count(flags, n),
    decreases n - i,
{
    if i < n {
        lemma_set_count_grows(flags, i, n - 1);
    }
}

/// The flagged characters of a prefix begin the flagged characters of the whole.
proof fn lemma_flagged_prefix_of(s: Seq<char>, flags: Seq<bool>, n: int, m: int)
    requires
        0 <= n <= m,
    ensures
        flagged(s, flags, n).len() <= flagged(s, flags, m).len(),
        flagged(s, flags, m).take(flagged(s, flags, n).len() as int) == flagged(s, flags, n),
    decreases m - n,
{
    if n == m {
        assert(flagged(s, flags, m).take(flagged(s, flags, n).len() as int) =~= flagged(s, flags, n));
    } else {
        lemma_flagged_prefix_of(s, flags, n, m - 1);
        let l = flagged(s, flags, n).len() as int;
        assert(flagged(s, flags, m).take(l) =~= flagged(s, flags, m - 1).take(l));
    }
}


/// The length of the common prefix of two texts, counting at most `limit` characters.
pub open spec fn common_prefix(a: Seq<char>, b: Seq<char>, limit: int) -> int
    decreases limit,
{
    if limit <= 0 || a.len() == 0 || b.len() == 0 || a[0] != b[0] {
        0
    } else {
        1 + common_prefix(a.drop_first(), b.drop_first(), limit - 1)
    }
}

impl SemanticItem {
    /// How many leading characters, up to four, the two texts share: the prefix the
    /// Jaro-Winkler similarity rewards.
    pub fn jaro_winkler_prefix(s1: &str, s2: &str) -> (r: usize)
        ensures
            r == common_prefix(s1@, s2@, 4),
    {
        let a = chars_of(s1);
        let b = chars_of(s2);
        let mut n: usize = 0;
        assert(s1@.skip(0) =~= s1@);
        assert(s2@.skip(0) =~= s2@);
        while n < 4 && n < a.len() && n < b.len() && a[n] == b[n]
            invariant
                n <= 4,
                n <= a@.len(),
                n <= b@.len(),
                a@ == s1@,
                b@ == s2@,
                common_prefix(s1@, s2@, 4) == n + common_prefix(s1@.skip(n as int), s2@.skip(n as int), 4 - n),
            decreases 4 - n,
        {
            assert(s1@.skip(n as int).drop_first() =~= s1@.skip(n + 1));
            assert(s2@.skip(n as int).drop_first() =~= s2@.skip(n + 1));
            n = n + 1;
        }
        n
    }
}

} // verus!
