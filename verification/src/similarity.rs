//! Edit distance between metadata keys, and keys that look like typos of each other.

use vstd::prelude::*;
use vstd::utf8::encode_utf8;
use crate::item::{strings_view, SemanticItem};
use crate::json::JsonValue;
use crate::meta::{lemma_meta_view_last, meta_view};
use crate::meta_quality::{entry_is_live, live};
use crate::text::{chars_of, join2, join3, str_eq};

verus! {

/// Bytes the character takes in UTF-8.
pub open spec fn char_utf8_len(c: char) -> nat {
    if (c as u32) < 0x80 {
        1
    } else if (c as u32) < 0x800 {
        2
    } else if (c as u32) < 0x10000 {
        3
    } else {
        4
    }
}

/// Bytes the text takes in UTF-8.
pub open spec fn utf8_len(s: Seq<char>) -> nat
    decreases s.len(),
{
    if s.len() == 0 {
        0
    } else {
        utf8_len(s.drop_last()) + char_utf8_len(s.last())
    }
}

/// Every character of the text is ASCII.
pub open spec fn all_ascii(s: Seq<char>) -> bool {
    forall|i: int| 0 <= i < s.len() ==> (#[trigger] s[i] as u32) < 0x80
}

/// The smallest of three numbers.
pub open spec fn min3(a: int, b: int, c: int) -> int {
    if a <= b && a <= c {
        a
    } else if b <= c {
        b
    } else {
        c
    }
}

/// The Levenshtein distance: the fewest single-character insertions, deletions and
/// substitutions that turn `a` into `b`.
pub open spec fn lev(a: Seq<char>, b: Seq<char>) -> int
    decreases a.len() + b.len(),
{
    if a.len() == 0 {
        b.len() as int
    } else if b.len() == 0 {
        a.len() as int
    } else {
        min3(
            lev(a.drop_last(), b) + 1,
            lev(a, b.drop_last()) + 1,
            lev(a.drop_last(), b.drop_last()) + if a.last() == b.last() {
                0int
            } else {
                1int
            },
        )
    }
}

/// The distance never exceeds the longer length.
pub proof fn lemma_lev_bound(a: Seq<char>, b: Seq<char>)
    ensures
        0 <= lev(a, b) <= (if a.len() >= b.len() { a.len() as int } else { b.len() as int }),
    decreases a.len() + b.len(),
{
    if a.len() > 0 && b.len() > 0 {
        lemma_lev_bound(a.drop_last(), b);
        lemma_lev_bound(a, b.drop_last());
        lemma_lev_bound(a.drop_last(), b.drop_last());
    }
}

/// An ASCII text takes one byte per character.
pub proof fn lemma_ascii_utf8_len(s: Seq<char>)
    requires
        all_ascii(s),
    ensures
        utf8_len(s) == s.len(),
    decreases s.len(),
{
    if s.len() > 0 {
        assert(all_ascii(s.drop_last())) by {
            assert forall|i: int| 0 <= i < s.drop_last().len() implies (#[trigger] s.drop_last()[i] as u32) < 0x80 by {
                assert(s.drop_last()[i] == s[i]);
            }
        }
        lemma_ascii_utf8_len(s.drop_last());
        assert((s[s.len() - 1] as u32) < 0x80);
    }
}

/// The number of UTF-8 bytes of `s`.
pub fn utf8_byte_len(s: &str) -> (r: usize)
    requires
        4 * s@.len() <= usize::MAX,
    ensures
        r == utf8_len(s@),
{
    let cs = chars_of(s);
    let mut total: usize = 0;
    let mut i: usize = 0;
    while i < cs.len()
        invariant
            cs@ == s@,
            4 * s@.len() <= usize::MAX,
            i <= cs@.len(),
            total == utf8_len(cs@.take(i as int)),
            total <= 4 * i,
        decreases cs.len() - i,
    {
        let c = cs[i];
        let w: usize = if (c as u32) < 0x80 {
            1
        } else if (c as u32) < 0x800 {
            2
        } else if (c as u32) < 0x10000 {
            3
        } else {
            4
        };
        proof {
            assert(cs@.take(i + 1).drop_last() =~= cs@.take(i as int));
            assert(cs@.take(i + 1).last() == c);
        }
        total = total + w;
        i = i + 1;
    }
    assert(cs@.take(cs@.len() as int) =~= cs@);
    total
}

/// Whether every character of `s` is ASCII.
fn ascii_only(s: &Vec<char>) -> (r: bool)
    ensures
        r == all_ascii(s@),
{
    let mut i: usize = 0;
    while i < s.len()
        invariant
            i <= s@.len(),
            forall|k: int| 0 <= k < i ==> (#[trigger] s@[k] as u32) < 0x80,
        decreases s.len() - i,
    {
        if (s[i] as u32) >= 0x80 {
            return false;
        }
        i = i + 1;
    }
    true
}

/// The Levenshtein distance of two character vectors, row by row.
pub fn edit_distance(x: &Vec<char>, y: &Vec<char>) -> (r: usize)
    requires
        x@.len() < usize::MAX,
        y@.len() < usize::MAX,
    ensures
        r == lev(x@, y@),
{
    let n = x.len();
    let m = y.len();
    let mut prev: Vec<usize> = Vec::new();
    let mut j: usize = 0;
    while j <= m
        invariant
            j <= m + 1,
            m == y@.len(),
            m < usize::MAX,
            prev@.len() == j,
            forall|k: int| 0 <= k < j ==> prev@[k] == lev(x@.take(0), y@.take(k)),
        decreases m + 1 - j,
    {
        proof {
            assert(x@.take(0).len() == 0);
        }
        prev.push(j);
        j = j + 1;
    }
    let mut i: usize = 1;
    while i <= n
        invariant
            1 <= i <= n + 1,
            n == x@.len(),
            m == y@.len(),
            n < usize::MAX,
            m < usize::MAX,
            prev@.len() == m + 1,
            forall|k: int| 0 <= k <= m ==> #[trigger] prev@[k] == lev(x@.take(i - 1), y@.take(k)),
        decreases n + 1 - i,
    {
        let ghost a = x@.take(i as int);
        proof {
            assert(a.drop_last() =~= x@.take(i - 1));
            assert(a.len() > 0);
            assert(y@.take(0).len() == 0);
        }
        let mut cur: Vec<usize> = Vec::new();
        cur.push(i);
        let mut k: usize = 1;
        while k <= m
            invariant
                1 <= i <= n,
                1 <= k <= m + 1,
                n == x@.len(),
                m == y@.len(),
                n < usize::MAX,
                m < usize::MAX,
                a == x@.take(i as int),
                prev@.len() == m + 1,
                forall|t: int| 0 <= t <= m ==> #[trigger] prev@[t] == lev(x@.take(i - 1), y@.take(t)),
                cur@.len() == k,
                forall|t: int| 0 <= t < k ==> #[trigger] cur@[t] == lev(a, y@.take(t)),
            decreases m + 1 - k,
        {
            let ghost b = y@.take(k as int);
            proof {
                assert(b.drop_last() =~= y@.take(k - 1));
                assert(a.drop_last() =~= x@.take(i - 1));
                assert(a.last() == x@[i - 1]);
                assert(b.last() == y@[k - 1]);
                lemma_lev_bound(x@.take(i - 1), b);
                lemma_lev_bound(a, y@.take(k - 1));
                lemma_lev_bound(x@.take(i - 1), y@.take(k - 1));
            }
            let cost: usize = if x[i - 1] == y[k - 1] { 0 } else { 1 };
            let del = prev[k] + 1;
            let ins = cur[k - 1] + 1;
            let sub = prev[k - 1] + cost;
            let best = if del <= ins && del <= sub {
                del
            } else if ins <= sub {
                ins
            } else {
                sub
            };
            cur.push(best);
            k = k + 1;
        }
        prev = cur;
        i = i + 1;
    }
    proof {
        assert(x@.take(n as int) =~= x@);
        assert(y@.take(m as int) =~= y@);
    }
    prev[m]
}

/// The byte length `str::len` gives for the text.
pub open spec fn str_len(s: Seq<char>) -> usize {
    encode_utf8(s).len() as usize
}

/// The distance `levenshtein_distance` gives: the other text's byte length when one is
/// empty, the Levenshtein distance otherwise.
pub open spec fn key_distance(a: Seq<char>, b: Seq<char>) -> int {
    if a.len() == 0 {
        str_len(b) as int
    } else if b.len() == 0 {
        str_len(a) as int
    } else {
        lev(a, b)
    }
}

/// `levenshtein_distance` can be taken: when both texts are non-empty they are ASCII,
/// and neither is as long as the machine's largest size.
pub open spec fn distance_defined(a: Seq<char>, b: Seq<char>) -> bool {
    &&& a.len() > 0 && b.len() > 0 ==> all_ascii(a) && all_ascii(b)
    &&& a.len() < usize::MAX
    &&& b.len() < usize::MAX
}

/// How far apart two byte lengths are.
pub open spec fn len_gap(a: usize, b: usize) -> int {
    if a >= b {
        a - b
    } else {
        b - a
    }
}

/// The keys differ, their byte lengths are at most 2 apart, and their distance is 1 or 2.
pub open spec fn keys_similar(a: Seq<char>, b: Seq<char>) -> bool {
    &&& a != b
    &&& len_gap(str_len(a), str_len(b)) <= 2
    &&& 1 <= key_distance(a, b) <= 2
}

/// `are_keys_similar` can be taken: the keys are equal, far apart in length, or their
/// distance can be taken.
pub open spec fn similarity_defined(a: Seq<char>, b: Seq<char>) -> bool {
    a == b || len_gap(str_len(a), str_len(b)) > 2 || distance_defined(a, b)
}

/// The message for two similar keys.
pub open spec fn typo_message(a: Seq<char>, b: Seq<char>) -> Seq<char> {
    "'"@ + a + "' and '"@ + b + "' are similar"@
}

/// Messages for the live entries after `i` and before `n` whose key is similar to
/// entry `i`'s.
pub open spec fn typo_row(m: Seq<(String, JsonValue)>, i: int, n: int) -> Seq<Seq<char>>
    decreases n - i,
{
    if n <= i + 1 {
        Seq::empty()
    } else {
        typo_row(m, i, n - 1) + if live(m, n - 1) && keys_similar(m[i].0@, m[n - 1].0@) {
            seq![typo_message(m[i].0@, m[n - 1].0@)]
        } else {
            Seq::empty()
        }
    }
}

/// Messages for every pair of similar keys among the live entries, the earlier
/// entry's key first, pairs in entry order, for entries before `n`.
pub open spec fn typo_messages(m: Seq<(String, JsonValue)>, n: int) -> Seq<Seq<char>>
    decreases n,
{
    if n <= 0 {
        Seq::empty()
    } else {
        typo_messages(m, n - 1) + if live(m, n - 1) {
            typo_row(m, n - 1, m.len() as int)
        } else {
            Seq::empty()
        }
    }
}

impl SemanticItem {
    /// The Levenshtein distance between two keys. When one is empty it is the other's
    /// length in bytes; otherwise both must be ASCII, as the distance is taken over
    /// characters counted by bytes.
    pub fn levenshtein_distance(s1: &str, s2: &str) -> (r: usize)
        requires
            distance_defined(s1@, s2@),
        ensures
            r == key_distance(s1@, s2@),
            s1@.len() > 0 && s2@.len() > 0 ==> r == lev(s1@, s2@) && r >= s1@.len() - s2@.len() && r >= s2@.len()
                - s1@.len() && r <= crate::result_laws::longer(s1@, s2@) && (crate::result_laws::no_common_char(s1@, s2@)
                ==> r == crate::result_laws::longer(s1@, s2@)),
    {
        let x = chars_of(s1);
        let y = chars_of(s2);
        if x.len() == 0 {
            return s2.len();
        }
        if y.len() == 0 {
            return s1.len();
        }
        let r = edit_distance(&x, &y);
        proof {
            crate::result_laws::law_key_distance_is_edit_distance(s1@, s2@, r as int);
        }
        r
    }

    /// Whether two different keys look like typos of each other: their byte lengths
    /// are at most 2 apart and one or two edits turn one into the other.
    pub fn are_keys_similar(key1: &str, key2: &str) -> (r: bool)
        requires
            similarity_defined(key1@, key2@),
        ensures
            r == keys_similar(key1@, key2@),
    {
        if str_eq(key1, key2) {
            return false;
        }
        let len1 = key1.len();
        let len2 = key2.len();
        let gap = if len1 >= len2 {
            len1 - len2
        } else {
            len2 - len1
        };
        if gap > 2 {
            return false;
        }
        let distance = Self::levenshtein_distance(key1, key2);
        distance <= 2 && distance > 0
    }

    /// A message "'a' and 'b' are similar" for every pair of similar metadata keys.
    pub fn find_potential_typos(&self) -> (r: Vec<String>)
        requires
            forall|a: Seq<char>, b: Seq<char>|
                #![trigger self.meta().contains_key(a), self.meta().contains_key(b)]
                self.meta().contains_key(a) && self.meta().contains_key(b) ==> similarity_defined(a, b),
        ensures
            strings_view(r@) == typo_messages(self.metadata@, self.metadata@.len() as int),
    {
        let m = &self.metadata;
        let n = m.len();
        let mut out: Vec<String> = Vec::new();
        let mut i: usize = 0;
        while i < n
            invariant
                n == m@.len(),
                i <= n,
                m == &self.metadata,
                forall|a: Seq<char>, b: Seq<char>|
                    #![trigger self.meta().contains_key(a), self.meta().contains_key(b)]
                    self.meta().contains_key(a) && self.meta().contains_key(b) ==> similarity_defined(a, b),
                strings_view(out@) == typo_messages(m@, i as int),
            decreases n - i,
        {
            if entry_is_live(m, i) {
                let ghost base = strings_view(out@);
                let mut j: usize = i + 1;
                while j < n
                    invariant
                        n == m@.len(),
                        i < j <= n,
                        m == &self.metadata,
                        live(m@, i as int),
                        forall|a: Seq<char>, b: Seq<char>|
                            #![trigger self.meta().contains_key(a), self.meta().contains_key(b)]
                            self.meta().contains_key(a) && self.meta().contains_key(b) ==> similarity_defined(a, b),
                        strings_view(out@) == base + typo_row(m@, i as int, j as int),
                    decreases n - j,
                {
                    if entry_is_live(m, j) {
                        proof {
                            lemma_meta_view_last(m@, i as int);
                            lemma_meta_view_last(m@, j as int);
                            assert(self.meta().contains_key(m@[i as int].0@) && self.meta().contains_key(m@[j as int].0@));
                        }
                        if Self::are_keys_similar(m[i].0.as_str(), m[j].0.as_str()) {
                            let ghost before = out@;
                            let msg = join3("'", m[i].0.as_str(), "' and '");
                            let msg = join3(msg.as_str(), m[j].0.as_str(), "' are similar");
                            out.push(msg);
                            assert(strings_view(out@) =~= strings_view(before).push(typo_message(m@[i as int].0@, m@[j as int].0@)));
                        }
                    }
                    j = j + 1;
                }
            }
            i = i + 1;
        }
        out
    }
}

} // verus!
