//! Checks on metadata keys and values: which entries are well formed, what is wrong
//! with the others, and how a key is cleaned up.

use vstd::prelude::*;
use vstd::string::StrSliceExecFns;
use vstd::string::StringExecFns;
use crate::item::{strings_view, SemanticItem};
use crate::json::{JsonData, JsonValue};
use crate::meta::{lemma_meta_view_last, meta_insert, meta_remove, meta_view, Metadata};
use crate::similarity::utf8_len;
use crate::text::{chars_eq, chars_of, lowercase, owned, str_eq, to_lowercase};

verus! {

/// No later entry has the same key, so entry `i` holds its key's current value.
pub open spec fn live(m: Seq<(String, JsonValue)>, i: int) -> bool {
    &&& 0 <= i < m.len()
    &&& forall|j: int| i < j < m.len() ==> (#[trigger] m[j]).0@ != m[i].0@
}

/// Every key of the map is held by a live entry.
pub proof fn lemma_live_covers(m: Seq<(String, JsonValue)>, k: Seq<char>)
    requires
        meta_view(m).contains_key(k),
    ensures
        exists|i: int| live(m, i) && (#[trigger] m[i]).0@ == k,
    decreases m.len(),
{
    let n = m.len() - 1;
    if m[n].0@ == k {
        assert(live(m, n) && m[n].0@ == k);
    } else {
        let d = m.drop_last();
        assert(meta_view(d).contains_key(k));
        lemma_live_covers(d, k);
        let i = choose|i: int| live(d, i) && (#[trigger] d[i]).0@ == k;
        assert(m[i] == d[i]);
        assert forall|j: int| i < j < m.len() implies (#[trigger] m[j]).0@ != m[i].0@ by {
            if j < n {
                assert(d[j] == m[j]);
            }
        }
        assert(live(m, i) && m[i].0@ == k);
    }
}

/// Whether entry `i` is live.
pub fn entry_is_live(m: &Metadata, i: usize) -> (r: bool)
    requires
        i < m@.len(),
    ensures
        r == live(m@, i as int),
{
    let n = m.len();
    let k = chars_of(m[i].0.as_str());
    let mut j: usize = i + 1;
    while j < n
        invariant
            n == m@.len(),
            i < j <= m@.len(),
            k@ == m@[i as int].0@,
            forall|t: int| i < t < j ==> (#[trigger] m@[t]).0@ != m@[i as int].0@,
        decreases m.len() - j,
    {
        let c = chars_of(m[j].0.as_str());
        if chars_eq(&c, &k) {
            return false;
        }
        j = j + 1;
    }
    true
}

/// The number of live entries among the first `n` that satisfy `p`.
pub open spec fn live_count(m: Seq<(String, JsonValue)>, p: spec_fn((String, JsonValue)) -> bool, n: int) -> nat
    decreases n,
{
    if n <= 0 {
        0
    } else {
        live_count(m, p, n - 1) + if live(m, n - 1) && p(m[n - 1]) {
            1nat
        } else {
            0nat
        }
    }
}

/// The count never exceeds the number of entries looked at.
pub proof fn lemma_live_count_bound(m: Seq<(String, JsonValue)>, p: spec_fn((String, JsonValue)) -> bool, n: int)
    ensures
        live_count(m, p, n) <= if n <= 0 { 0 } else { n },
    decreases n,
{
    if n > 0 {
        lemma_live_count_bound(m, p, n - 1);
    }
}

/// The text holds the character.
pub open spec fn has_char(s: Seq<char>, c: char) -> bool {
    exists|i: int| 0 <= i < s.len() && s[i] == c
}

/// A key a metadata entry may have: not empty, at most 100 UTF-8 bytes, no newline,
/// carriage return or tab, and no space at either end.
pub open spec fn valid_key(k: Seq<char>) -> bool {
    &&& k.len() > 0
    &&& utf8_len(k) <= 100
    &&& !has_char(k, '\n')
    &&& !has_char(k, '\r')
    &&& !has_char(k, '\t')
    &&& k[0] != ' '
    &&& k[k.len() - 1] != ' '
}

/// A value of reasonable size: a string of at most 10000 UTF-8 bytes, an array of at
/// most 1000 elements, an object of at most 50 entries; anything else.
pub open spec fn reasonable_size(v: JsonData) -> bool {
    match v {
        JsonData::Str(s) => utf8_len(s) <= 10000,
        JsonData::Array(a) => a.len() <= 1000,
        JsonData::Object(o) => o.len() <= 50,
        _ => true,
    }
}

/// The entry has a valid key and a value of reasonable size.
pub open spec fn entry_ok(e: (String, JsonValue)) -> bool {
    valid_key(e.0@) && reasonable_size(e.1@)
}

/// Whether the text takes at most `limit` bytes in UTF-8.
pub fn utf8_len_at_most(s: &str, limit: usize) -> (r: bool)
    requires
        limit <= usize::MAX - 4,
    ensures
        r == (utf8_len(s@) <= limit),
{
    let cs = chars_of(s);
    let mut total: usize = 0;
    let mut i: usize = 0;
    while i < cs.len()
        invariant
            cs@ == s@,
            limit <= usize::MAX - 4,
            i <= cs@.len(),
            total == utf8_len(cs@.take(i as int)),
            total <= limit,
        decreases cs.len() - i,
    {
        let c = cs[i];
        let w: usize = if (c as u32) < 0x80 {
            1
        } else if (c as u32) < 0x800 {
            2
        } else if (c as u32) < 0x10000 {
            3
        } else {
            4
        };
        proof {
            assert(cs@.take(i + 1).drop_last() =~= cs@.take(i as int));
            assert(cs@.take(i + 1).last() == c);
        }
        total = total + w;
        i = i + 1;
        if total > limit {
            proof {
                lemma_utf8_len_prefix(cs@, i as int);
            }
            return false;
        }
    }
    assert(cs@.take(cs@.len() as int) =~= cs@);
    true
}

/// A prefix never takes more bytes than the whole text.
pub proof fn lemma_utf8_len_prefix(s: Seq<char>, n: int)
    requires
        0 <= n <= s.len(),
    ensures
        utf8_len(s.take(n)) <= utf8_len(s),
    decreases s.len(),
{
    if n < s.len() {
        assert(s.drop_last().take(n) =~= s.take(n));
        lemma_utf8_len_prefix(s.drop_last(), n);
    } else {
        assert(s.take(n) =~= s);
    }
}

/// Whether one of the characters is `c`.
pub fn find_char(s: &Vec<char>, c: char) -> (r: bool)
    ensures
        r == has_char(s@, c),
{
    let mut i: usize = 0;
    while i < s.len()
        invariant
            i <= s@.len(),
            forall|j: int| 0 <= j < i ==> s@[j] != c,
        decreases s.len() - i,
    {
        if s[i] == c {
            return true;
        }
        i = i + 1;
    }
    false
}

impl SemanticItem {
    /// Whether `key` may stand as a metadata key.
    pub fn is_valid_metadata_key(key: &str) -> (r: bool)
        ensures
            r == valid_key(key@),
    {
        let cs = chars_of(key);
        if cs.len() == 0 || !utf8_len_at_most(key, 100) {
            return false;
        }
        if find_char(&cs, '\n') || find_char(&cs, '\r') || find_char(&cs, '\t') {
            return false;
        }
        if cs[0] == ' ' || cs[cs.len() - 1] == ' ' {
            return false;
        }
        true
    }

    /// Whether the value's size is reasonable for metadata.
    pub fn is_reasonable_metadata_value_size(value: &JsonValue) -> (r: bool)
        ensures
            r == reasonable_size(value@),
    {
        match value {
            JsonValue::String(s) => utf8_len_at_most(s.as_str(), 10000),
            JsonValue::Array(a) => a.len() <= 1000,
            JsonValue::Object(o) => o.len() <= 50,
            _ => true,
        }
    }

    /// Whether every key of the metadata is valid and every value of reasonable size.
    pub fn is_metadata_well_formed(&self) -> (r: bool)
        ensures
            r == (forall|k: Seq<char>| #[trigger] self.meta().contains_key(k) ==> valid_key(k) && reasonable_size(
                self.meta()[k],
            )),
    {
        let m = &self.metadata;
        let mut i: usize = 0;
        while i < m.len()
            invariant
                i <= m@.len(),
                m == &self.metadata,
                forall|j: int| 0 <= j < i && live(m@, j) ==> entry_ok(#[trigger] m@[j]),
            decreases m.len() - i,
        {
            if entry_is_live(m, i) {
                let ok = Self::is_valid_metadata_key(m[i].0.as_str()) && Self::is_reasonable_metadata_value_size(
                    &m[i].1,
                );
                if !ok {
                    proof {
                        lemma_meta_view_last(m@, i as int);
                        let k = m@[i as int].0@;
                        assert(self.meta().contains_key(k));
                    }
                    return false;
                }
            }
            i = i + 1;
        }
        proof {
            assert forall|k: Seq<char>| #[trigger] self.meta().contains_key(k) implies valid_key(k) && reasonable_size(
                self.meta()[k],
            ) by {
                lemma_live_covers(m@, k);
                let j = choose|j: int| live(m@, j) && (#[trigger] m@[j]).0@ == k;
                lemma_meta_view_last(m@, j);
                assert(entry_ok(m@[j]));
            }
        }
        true
    }

    /// How many metadata entries (one per key) have a valid key and a value of
    /// reasonable size.
    pub fn valid_metadata_entry_count(&self) -> (r: usize)
        ensures
            r == live_count(self.metadata@, |e: (String, JsonValue)| entry_ok(e), self.metadata@.len() as int),
    {
        let m = &self.metadata;
        let ghost p = |e: (String, JsonValue)| entry_ok(e);
        let mut count: usize = 0;
        let mut i: usize = 0;
        while i < m.len()
            invariant
                i <= m@.len(),
                m == &self.metadata,
                p == (|e: (String, JsonValue)| entry_ok(e)),
                count == live_count(m@, p, i as int),
            decreases m.len() - i,
        {
            proof {
                lemma_live_count_bound(m@, p, i as int);
            }
            if entry_is_live(m, i) && Self::is_valid_metadata_key(m[i].0.as_str())
                && Self::is_reasonable_metadata_value_size(&m[i].1) {
                count = count + 1;
            }
            i = i + 1;
        }
        count
    }
}

/// The character the digit is written with.
pub open spec fn digit_char(d: nat) -> char {
    if d == 0 {
        '0'
    } else if d == 1 {
        '1'
    } else if d == 2 {
        '2'
    } else if d == 3 {
        '3'
    } else if d == 4 {
        '4'
    } else if d == 5 {
        '5'
    } else if d == 6 {
        '6'
    } else if d == 7 {
        '7'
    } else if d == 8 {
        '8'
    } else {
        '9'
    }
}

/// The number written in decimal, without leading zeros.
pub open spec fn decimal(n: nat) -> Seq<char>
    decreases n,
{
    if n < 10 {
        seq![digit_char(n)]
    } else {
        decimal(n / 10).push(digit_char(n % 10))
    }
}

/// The one-character text of a digit.
fn digit_text(d: u128) -> (r: &'static str)
    requires
        d < 10,
    ensures
        r@ == seq![digit_char(d as nat)],
{
    if d == 0 {
        proof { reveal_strlit("0"); }
        assert("0"@ =~= seq!['0']);
        "0"
    } else if d == 1 {
        proof { reveal_strlit("1"); }
        assert("1"@ =~= seq!['1']);
        "1"
    } else if d == 2 {
        proof { reveal_strlit("2"); }
        assert("2"@ =~= seq!['2']);
        "2"
    } else if d == 3 {
        proof { reveal_strlit("3"); }
        assert("3"@ =~= seq!['3']);
        "3"
    } else if d == 4 {
        proof { reveal_strlit("4"); }
        assert("4"@ =~= seq!['4']);
        "4"
    } else if d == 5 {
        proof { reveal_strlit("5"); }
        assert("5"@ =~= seq!['5']);
        "5"
    } else if d == 6 {
        proof { reveal_strlit("6"); }
        assert("6"@ =~= seq!['6']);
        "6"
    } else if d == 7 {
        proof { reveal_strlit("7"); }
        assert("7"@ =~= seq!['7']);
        "7"
    } else if d == 8 {
        proof { reveal_strlit("8"); }
        assert("8"@ =~= seq!['8']);
        "8"
    } else {
        proof { reveal_strlit("9"); }
        assert("9"@ =~= seq!['9']);
        "9"
    }
}

/// The number in decimal, as a new string.
pub fn decimal_text(n: u128) -> (r: String)
    ensures
        r@ == decimal(n as nat),
    decreases n,
{
    if n < 10 {
        owned(digit_text(n))
    } else {
        let mut r = decimal_text(n / 10);
        r.append(digit_text(n % 10));
        assert(r@ =~= decimal(n as nat));
        r
    }
}

/// The number of UTF-8 bytes of the text.
pub fn utf8_byte_count(s: &str) -> (r: u128)
    ensures
        r == utf8_len(s@),
{
    let cs = chars_of(s);
    let mut total: u128 = 0;
    let mut i: usize = 0;
    while i < cs.len()
        invariant
            cs@ == s@,
            i <= cs@.len(),
            total == utf8_len(cs@.take(i as int)),
            total <= 4 * i,
        decreases cs.len() - i,
    {
        let c = cs[i];
        let w: u128 = if (c as u32) < 0x80 {
            1
        } else if (c as u32) < 0x800 {
            2
        } else if (c as u32) < 0x10000 {
            3
        } else {
            4
        };
        proof {
            assert(cs@.take(i + 1).drop_last() =~= cs@.take(i as int));
            assert(cs@.take(i + 1).last() == c);
        }
        total = total + w;
        i = i + 1;
    }
    assert(cs@.take(cs@.len() as int) =~= cs@);
    total
}

/// What is wrong with one entry, in the order the checks run.
pub open spec fn entry_issues(k: Seq<char>, v: JsonData) -> Seq<Seq<char>> {
    let empty_key: Seq<Seq<char>> = if k.len() == 0 {
        seq!["Empty metadata key found"@]
    } else {
        Seq::empty()
    };
    let long_key: Seq<Seq<char>> = if utf8_len(k) > 100 {
        seq!["Very long key found: "@ + k + " ("@ + decimal(utf8_len(k)) + " chars)"@]
    } else {
        Seq::empty()
    };
    let spaced: Seq<Seq<char>> = if has_char(k, '\n') || has_char(k, '\r') || has_char(k, '\t') {
        seq!["Key contains whitespace characters: "@ + k]
    } else {
        Seq::empty()
    };
    let large: Seq<Seq<char>> = match v {
        JsonData::Str(s) => if utf8_len(s) > 10000 {
            seq!["Very large string value for key '"@ + k + "': "@ + decimal(utf8_len(s)) + " chars"@]
        } else {
            Seq::empty()
        },
        JsonData::Array(a) => if a.len() > 1000 {
            seq!["Very large array for key '"@ + k + "': "@ + decimal(a.len()) + " elements"@]
        } else {
            Seq::empty()
        },
        JsonData::Object(o) => if o.len() > 50 {
            seq!["Very large object for key '"@ + k + "': "@ + decimal(o.len()) + " properties"@]
        } else {
            Seq::empty()
        },
        _ => Seq::empty(),
    };
    empty_key + long_key + spaced + large
}

/// The issues of the live entries among the first `n`, entry by entry.
pub open spec fn integrity_issues(m: Seq<(String, JsonValue)>, n: int) -> Seq<Seq<char>>
    decreases n,
{
    if n <= 0 {
        Seq::empty()
    } else {
        integrity_issues(m, n - 1) + if live(m, n - 1) {
            entry_issues(m[n - 1].0@, m[n - 1].1@)
        } else {
            Seq::empty()
        }
    }
}

/// Appends a message built from the given pieces.
fn push_text(out: &mut Vec<String>, msg: String)
    ensures
        strings_view(final(out)@) == strings_view(old(out)@).push(msg@),
{
    let ghost before = out@;
    out.push(msg);
    assert(strings_view(out@) =~= strings_view(before).push(msg@));
}

/// Appends what is wrong with the entry `(k, v)`.
fn push_entry_issues(out: &mut Vec<String>, k: &str, v: &JsonValue)
    ensures
        strings_view(final(out)@) == strings_view(old(out)@) + entry_issues(k@, v@),
{
    let ghost start = strings_view(out@);
    let cs = chars_of(k);
    if cs.len() == 0 {
        push_text(out, owned("Empty metadata key found"));
    }
    let ghost s1 = strings_view(out@);
    assert(s1 =~= start + (if k@.len() == 0 { seq!["Empty metadata key found"@] } else { Seq::<Seq<char>>::empty() }));
    let n = utf8_byte_count(k);
    if n > 100 {
        let mut msg = owned("Very long key found: ");
        msg.append(k);
        msg.append(" (");
        let d = decimal_text(n);
        msg.append(d.as_str());
        msg.append(" chars)");
        push_text(out, msg);
    }
    let ghost s2 = strings_view(out@);
    if find_char(&cs, '\n') || find_char(&cs, '\r') || find_char(&cs, '\t') {
        let mut msg = owned("Key contains whitespace characters: ");
        msg.append(k);
        push_text(out, msg);
    }
    let ghost s3 = strings_view(out@);
    match v {
        JsonValue::String(s) => {
            let len = utf8_byte_count(s.as_str());
            if len > 10000 {
                let mut msg = owned("Very large string value for key '");
                msg.append(k);
                msg.append("': ");
                let d = decimal_text(len);
                msg.append(d.as_str());
                msg.append(" chars");
                push_text(out, msg);
            }
        },
        JsonValue::Array(a) => {
            if a.len() > 1000 {
                let mut msg = owned("Very large array for key '");
                msg.append(k);
                msg.append("': ");
                let d = decimal_text(a.len() as u128);
                msg.append(d.as_str());
                msg.append(" elements");
                push_text(out, msg);
            }
        },
        JsonValue::Object(o) => {
            if o.len() > 50 {
                let mut msg = owned("Very large object for key '");
                msg.append(k);
                msg.append("': ");
                let d = decimal_text(o.len() as u128);
                msg.append(d.as_str());
                msg.append(" properties");
                push_text(out, msg);
            }
        },
        _ => {},
    }
    assert(strings_view(out@) =~= start + entry_issues(k@, v@));
}

impl SemanticItem {
    /// What is wrong with the metadata: empty or overlong keys, keys holding a
    /// newline, carriage return or tab, and oversized string, array or object values,
    /// entry by entry.
    pub fn validate_metadata_integrity(&self) -> (r: Vec<String>)
        ensures
            strings_view(r@) == integrity_issues(self.metadata@, self.metadata@.len() as int),
    {
        let m = &self.metadata;
        let mut out: Vec<String> = Vec::new();
        let mut i: usize = 0;
        while i < m.len()
            invariant
                i <= m@.len(),
                m == &self.metadata,
                strings_view(out@) == integrity_issues(m@, i as int),
            decreases m.len() - i,
        {
            if entry_is_live(m, i) {
                push_entry_issues(&mut out, m[i].0.as_str(), &m[i].1);
            }
            i = i + 1;
        }
        out
    }
}

/// White space as Unicode's White_Space property defines it, which is what `trim`
/// strips.
pub open spec fn is_white_space(c: char) -> bool {
    let u = c as u32;
    ||| 0x9 <= u <= 0xD
    ||| u == 0x20
    ||| u == 0x85
    ||| u == 0xA0
    ||| u == 0x1680
    ||| 0x2000 <= u <= 0x200A
    ||| u == 0x2028
    ||| u == 0x2029
    ||| u == 0x202F
    ||| u == 0x205F
    ||| u == 0x3000
}

/// The text without its leading white space.
pub open spec fn trim_front(s: Seq<char>) -> Seq<char>
    decreases s.len(),
{
    if s.len() > 0 && is_white_space(s[0]) {
        trim_front(s.drop_first())
    } else {
        s
    }
}

/// The text without its trailing white space.
pub open spec fn trim_back(s: Seq<char>) -> Seq<char>
    decreases s.len(),
{
    if s.len() > 0 && is_white_space(s.last()) {
        trim_back(s.drop_last())
    } else {
        s
    }
}

/// The text without white space at either end.
pub open spec fn trimmed(s: Seq<char>) -> Seq<char> {
    trim_back(trim_front(s))
}

/// Newline, carriage return and tab become `_`; other characters stay.
pub open spec fn underscore_controls(c: char) -> char {
    if c == '\n' || c == '\r' || c == '\t' {
        '_'
    } else {
        c
    }
}

/// The cleaned-up key: trimmed, with newline, carriage return and tab turned into
/// `_`, cut to its first 100 characters.
pub open spec fn sanitized_key(k: Seq<char>) -> Seq<char> {
    let t = trimmed(k);
    let u = Seq::new(t.len(), |i: int| underscore_controls(t[i]));
    if u.len() <= 100 {
        u
    } else {
        u.take(100)
    }
}

pub fn is_white_space_char(c: char) -> (r: bool)
    ensures
        r == is_white_space(c),
{
    let u = c as u32;
    (0x9 <= u && u <= 0xD) || u == 0x20 || u == 0x85 || u == 0xA0 || u == 0x1680 || (0x2000 <= u && u
        <= 0x200A) || u == 0x2028 || u == 0x2029 || u == 0x202F || u == 0x205F || u == 0x3000
}

/// Where the trimmed text starts and ends.
fn trim_bounds(cs: &Vec<char>) -> (r: (usize, usize))
    ensures
        r.0 <= r.1 <= cs@.len(),
        trimmed(cs@) == cs@.subrange(r.0 as int, r.1 as int),
{
    let n = cs.len();
    let mut a: usize = 0;
    assert(cs@.subrange(0, n as int) =~= cs@);
    while a < n && is_white_space_char(cs[a])
        invariant
            n == cs@.len(),
            a <= n,
            trim_front(cs@) == trim_front(cs@.subrange(a as int, n as int)),
        decreases n - a,
    {
        assert(cs@.subrange(a as int, n as int).drop_first() =~= cs@.subrange(a + 1, n as int));
        a = a + 1;
    }
    assert(trim_front(cs@) == cs@.subrange(a as int, n as int));
    let mut b: usize = n;
    while b > a && is_white_space_char(cs[b - 1])
        invariant
            n == cs@.len(),
            a <= b <= n,
            trimmed(cs@) == trim_back(cs@.subrange(a as int, b as int)),
        decreases b - a,
    {
        assert(cs@.subrange(a as int, b as int).drop_last() =~= cs@.subrange(a as int, b - 1));
        b = b - 1;
    }
    (a, b)
}

impl SemanticItem {
    /// The key trimmed, with newline, carriage return and tab turned into `_`, and
    /// cut to 100 characters.
    pub fn sanitize_metadata_key(key: &str) -> (r: String)
        ensures
            r@ == sanitized_key(key@),
    {
        let cs = chars_of(key);
        let (a, b) = trim_bounds(&cs);
        let end = if b - a <= 100 {
            b
        } else {
            a + 100
        };
        let ghost t = trimmed(key@);
        let ghost u = Seq::new(t.len(), |i: int| underscore_controls(t[i]));
        proof {
            reveal_strlit("_");
            assert("_"@ =~= seq!['_']);
        }
        let mut r = String::new();
        let mut i: usize = a;
        while i < end
            invariant
                cs@ == key@,
                a <= i <= end <= b <= cs@.len(),
                end - a == if u.len() <= 100 { u.len() } else { 100 },
                t == cs@.subrange(a as int, b as int),
                u == Seq::new(t.len(), |i: int| underscore_controls(t[i])),
                "_"@ == seq!['_'],
                r@ == u.take(i - a),
            decreases end - i,
        {
            let c = cs[i];
            if c == '\n' || c == '\r' || c == '\t' {
                r.append("_");
            } else {
                let piece = key.substring_char(i, i + 1);
                r.append(piece);
            }
            assert(r@ =~= u.take(i + 1 - a));
            i = i + 1;
        }
        assert(r@ =~= sanitized_key(key@));
        r
    }
}

/// The live keys among the first `n` entries whose lower-cased form is `low`, in
/// entry order.
pub open spec fn keys_lowering_to(m: Seq<(String, JsonValue)>, low: Seq<char>, n: int) -> Seq<Seq<char>>
    decreases n,
{
    if n <= 0 {
        Seq::empty()
    } else {
        keys_lowering_to(m, low, n - 1) + if live(m, n - 1) && lowercase(m[n - 1].0@) == low {
            seq![m[n - 1].0@]
        } else {
            Seq::empty()
        }
    }
}

/// No earlier live entry's key lower-cases the same as entry `i`'s.
pub open spec fn first_of_its_case(m: Seq<(String, JsonValue)>, i: int) -> bool {
    forall|j: int| 0 <= j < i && live(m, j) ==> lowercase(#[trigger] m[j].0@) != lowercase(m[i].0@)
}

/// The groups of two or more keys that differ only by case, among the live entries
/// before `n`: a group for each lower-cased form, at the first key that has it, listing
/// all keys that have it in entry order.
pub open spec fn duplicate_groups(m: Seq<(String, JsonValue)>, n: int) -> Seq<Seq<Seq<char>>>
    decreases n,
{
    if n <= 0 {
        Seq::empty()
    } else {
        let g = keys_lowering_to(m, lowercase(m[n - 1].0@), m.len() as int);
        duplicate_groups(m, n - 1) + if live(m, n - 1) && first_of_its_case(m, n - 1) && g.len() > 1 {
            seq![g]
        } else {
            Seq::empty()
        }
    }
}

/// Groups of strings by their characters.
pub open spec fn groups_view(g: Seq<Vec<String>>) -> Seq<Seq<Seq<char>>> {
    g.map_values(|v: Vec<String>| strings_view(v@))
}

/// The live keys lower-casing to `low`.
fn collect_case_group(m: &Metadata, low: &String) -> (r: Vec<String>)
    ensures
        strings_view(r@) == keys_lowering_to(m@, low@, m@.len() as int),
{
    let mut out: Vec<String> = Vec::new();
    let mut j: usize = 0;
    while j < m.len()
        invariant
            j <= m@.len(),
            strings_view(out@) == keys_lowering_to(m@, low@, j as int),
        decreases m.len() - j,
    {
        if entry_is_live(m, j) {
            let lj = to_lowercase(m[j].0.as_str());
            if str_eq(lj.as_str(), low.as_str()) {
                let ghost before = out@;
                out.push(m[j].0.clone());
                assert(strings_view(out@) =~= strings_view(before).push(m@[j as int].0@));
            }
        }
        j = j + 1;
    }
    out
}

/// Whether no live entry before `i` has a key lower-casing to `low`.
fn first_case_at(m: &Metadata, i: usize, low: &String) -> (r: bool)
    requires
        i < m@.len(),
        low@ == lowercase(m@[i as int].0@),
    ensures
        r == first_of_its_case(m@, i as int),
{
    let mut j: usize = 0;
    while j < i
        invariant
            i < m@.len(),
            j <= i,
            low@ == lowercase(m@[i as int].0@),
            forall|t: int| 0 <= t < j && live(m@, t) ==> lowercase(#[trigger] m@[t].0@) != low@,
        decreases i - j,
    {
        if entry_is_live(m, j) {
            let lj = to_lowercase(m[j].0.as_str());
            if str_eq(lj.as_str(), low.as_str()) {
                return false;
            }
        }
        j = j + 1;
    }
    true
}

impl SemanticItem {
    /// Groups of metadata keys that differ only by case, each group in entry order,
    /// groups in the order of their first key.
    pub fn find_duplicate_metadata_keys(&self) -> (r: Vec<Vec<String>>)
        ensures
            groups_view(r@) == duplicate_groups(self.metadata@, self.metadata@.len() as int),
            forall|a: int, b: int|
                #![trigger live(self.metadata@, a), live(self.metadata@, b)]
                0 <= a < self.metadata@.len() && 0 <= b < self.metadata@.len() && live(self.metadata@, a) && live(
                    self.metadata@,
                    b,
                ) && self.metadata@[a].0@ != self.metadata@[b].0@ && lowercase(self.metadata@[a].0@) == lowercase(
                    self.metadata@[b].0@,
                ) ==> exists|t: int|
                    0 <= t < groups_view(r@).len() && (#[trigger] groups_view(r@)[t]).contains(self.metadata@[a].0@)
                        && groups_view(r@)[t].contains(self.metadata@[b].0@),
            forall|t: int|
                0 <= t < groups_view(r@).len() ==> (#[trigger] groups_view(r@)[t]).len() >= 2 && forall|x: Seq<char>, y: Seq<char>|
                    groups_view(r@)[t].contains(x) && groups_view(r@)[t].contains(y) ==> lowercase(x) == lowercase(y),
    {
        let m = &self.metadata;
        let mut out: Vec<Vec<String>> = Vec::new();
        let mut i: usize = 0;
        while i < m.len()
            invariant
                i <= m@.len(),
                m == &self.metadata,
                groups_view(out@) == duplicate_groups(m@, i as int),
            decreases m.len() - i,
        {
            if entry_is_live(m, i) {
                let low = to_lowercase(m[i].0.as_str());
                if first_case_at(m, i, &low) {
                    let group = collect_case_group(m, &low);
                    if group.len() > 1 {
                        let ghost before = out@;
                        let ghost gv = strings_view(group@);
                        out.push(group);
                        assert(groups_view(out@) =~= groups_view(before).push(gv));
                    }
                }
            }
            i = i + 1;
        }
        proof {
            crate::result_laws::law_case_duplicates_are_grouped(m@, groups_view(out@));
        }
        out
    }
}


/// The renames cleanup makes, for the live entries before `n`: each invalid key whose
/// cleaned-up form differs, paired with that form.
pub open spec fn rename_pairs(m: Seq<(String, JsonValue)>, n: int) -> Seq<(Seq<char>, Seq<char>)>
    decreases n,
{
    if n <= 0 {
        Seq::empty()
    } else {
        let k = m[n - 1].0@;
        rename_pairs(m, n - 1) + if live(m, n - 1) && !valid_key(k) && sanitized_key(k) != k {
            seq![(k, sanitized_key(k))]
        } else {
            Seq::empty()
        }
    }
}

/// Moves, in turn, the value of each present old key to its new key; gives the map and
/// how many moved.
pub open spec fn run_renames(m: Map<Seq<char>, JsonData>, moved: nat, pairs: Seq<(Seq<char>, Seq<char>)>) -> (Map<
    Seq<char>,
    JsonData,
>, nat)
    decreases pairs.len(),
{
    if pairs.len() == 0 {
        (m, moved)
    } else {
        let p = pairs[0];
        if m.contains_key(p.0) {
            run_renames(m.remove(p.0).insert(p.1, m[p.0]), moved + 1, pairs.drop_first())
        } else {
            run_renames(m, moved, pairs.drop_first())
        }
    }
}

/// The keys whose value is null.
pub open spec fn null_keys(m: Map<Seq<char>, JsonData>) -> Set<Seq<char>> {
    m.dom().filter(|k: Seq<char>| m[k] == JsonData::Null)
}

/// Keys of the live entries before `n` whose value is null, in entry order.
pub open spec fn null_entry_keys(m: Seq<(String, JsonValue)>, n: int) -> Seq<Seq<char>>
    decreases n,
{
    if n <= 0 {
        Seq::empty()
    } else {
        null_entry_keys(m, n - 1) + if live(m, n - 1) && m[n - 1].1@ == JsonData::Null {
            seq![m[n - 1].0@]
        } else {
            Seq::empty()
        }
    }
}

/// The null keys of live entries are distinct, each an earlier live entry's key, and
/// together they are the null keys of the map.
proof fn lemma_null_entry_keys(m: Seq<(String, JsonValue)>, n: int)
    requires
        0 <= n <= m.len(),
    ensures
        null_entry_keys(m, n).no_duplicates(),
        null_entry_keys(m, n).len() <= n,
        forall|k: Seq<char>|
            #[trigger] null_entry_keys(m, n).contains(k) <==> exists|j: int|
                0 <= j < n && live(m, j) && m[j].0@ == k && m[j].1@ == JsonData::Null,
    decreases n,
{
    if n > 0 {
        lemma_null_entry_keys(m, n - 1);
        let prev = null_entry_keys(m, n - 1);
        let cur = null_entry_keys(m, n);
        if live(m, n - 1) && m[n - 1].1@ == JsonData::Null {
            assert(cur == prev.push(m[n - 1].0@));
            assert(!prev.contains(m[n - 1].0@)) by {
                if prev.contains(m[n - 1].0@) {
                    let j = choose|j: int| 0 <= j < n - 1 && live(m, j) && m[j].0@ == m[n - 1].0@ && m[j].1@ == JsonData::Null;
                    assert(m[n - 1].0@ != m[j].0@);
                }
            }
            assert forall|k: Seq<char>| #[trigger] cur.contains(k) <==> exists|j: int|
                0 <= j < n && live(m, j) && m[j].0@ == k && m[j].1@ == JsonData::Null by {
                if cur.contains(k) {
                    if k == m[n - 1].0@ {
                        assert(0 <= n - 1 < n && live(m, n - 1) && m[n - 1].0@ == k && m[n - 1].1@ == JsonData::Null);
                    } else {
                        let t = choose|t: int| 0 <= t < cur.len() && cur[t] == k;
                        assert(prev[t] == k);
                        assert(prev.contains(k));
                        let j = choose|j: int| 0 <= j < n - 1 && live(m, j) && m[j].0@ == k && m[j].1@ == JsonData::Null;
                        assert(0 <= j < n && live(m, j) && m[j].0@ == k && m[j].1@ == JsonData::Null);
                    }
                }
                if exists|j: int| 0 <= j < n && live(m, j) && m[j].0@ == k && m[j].1@ == JsonData::Null {
                    let j = choose|j: int| 0 <= j < n && live(m, j) && m[j].0@ == k && m[j].1@ == JsonData::Null;
                    if k != m[n - 1].0@ {
                        assert(j < n - 1);
                        assert(0 <= j < n - 1 && live(m, j) && m[j].0@ == k && m[j].1@ == JsonData::Null);
                        assert(prev.contains(k));
                        let t = choose|t: int| 0 <= t < prev.len() && prev[t] == k;
                        assert(cur[t] == k);
                    } else {
                        assert(cur[cur.len() - 1] == k);
                    }
                }
            }
        } else {
            assert(cur =~= prev);
        }
    }
}

/// The null keys of the live entries, as a set, are the null keys of the map.
proof fn lemma_null_keys_set(m: Seq<(String, JsonValue)>)
    ensures
        null_entry_keys(m, m.len() as int).to_set() == null_keys(meta_view(m)),
{
    lemma_null_entry_keys(m, m.len() as int);
    let s = null_entry_keys(m, m.len() as int);
    let mv = meta_view(m);
    assert forall|k: Seq<char>| #[trigger] s.to_set().contains(k) <==> null_keys(mv).contains(k) by {
        if s.contains(k) {
            let j = choose|j: int| 0 <= j < m.len() && live(m, j) && m[j].0@ == k && m[j].1@ == JsonData::Null;
            lemma_meta_view_last(m, j);
        }
        if null_keys(mv).contains(k) {
            lemma_live_covers(m, k);
            let j = choose|j: int| live(m, j) && (#[trigger] m[j]).0@ == k;
            lemma_meta_view_last(m, j);
            assert(s.contains(k));
        }
    }
    assert(s.to_set() =~= null_keys(mv));
}

impl SemanticItem {
    /// Cleans the metadata up: every invalid key whose cleaned-up form
    /// (`sanitize_metadata_key`) differs is moved to that form, then every key holding
    /// null is removed. Gives the number of moves and removals.
    pub fn cleanup_metadata(&mut self) -> (r: usize)
        requires
            old(self).metadata@.len() <= usize::MAX / 2,
        ensures
            ({
                let renamed = run_renames(old(self).meta(), 0, rename_pairs(old(self).metadata@, old(self).metadata@.len() as int));
                &&& final(self).meta() == renamed.0.remove_keys(null_keys(renamed.0))
                &&& r == renamed.1 + null_keys(renamed.0).len()
            }),
            final(self).same_but_metadata(*old(self)),
            final(self).updated_at == old(self).updated_at,
    {
        let n0 = self.metadata.len();
        let mut pairs: Vec<(String, String)> = Vec::new();
        let mut i: usize = 0;
        while i < self.metadata.len()
            invariant
                i <= self.metadata@.len(),
                self.metadata@ == old(self).metadata@,
                pairs@.len() <= i,
                pairs@.map_values(|p: (String, String)| (p.0@, p.1@)) == rename_pairs(self.metadata@, i as int),
            decreases self.metadata.len() - i,
        {
            let ghost before = pairs@.map_values(|p: (String, String)| (p.0@, p.1@));
            if entry_is_live(&self.metadata, i) && !Self::is_valid_metadata_key(self.metadata[i].0.as_str()) {
                let cleaned = Self::sanitize_metadata_key(self.metadata[i].0.as_str());
                if !str_eq(cleaned.as_str(), self.metadata[i].0.as_str()) {
                    pairs.push((self.metadata[i].0.clone(), cleaned));
                }
            }
            assert(pairs@.map_values(|p: (String, String)| (p.0@, p.1@)) =~= rename_pairs(self.metadata@, i + 1));
            i = i + 1;
        }
        let ghost pv = pairs@.map_values(|p: (String, String)| (p.0@, p.1@));
        let ghost goal = run_renames(self.meta(), 0, pv);
        let mut fixes: usize = 0;
        let mut t: usize = 0;
        assert(pv.skip(0) =~= pv);
        while t < pairs.len()
            invariant
                t <= pairs@.len(),
                pairs@.len() <= n0,
                n0 == old(self).metadata@.len(),
                n0 <= usize::MAX / 2,
                pv == pairs@.map_values(|p: (String, String)| (p.0@, p.1@)),
                run_renames(self.meta(), fixes as nat, pv.skip(t as int)) == goal,
                fixes <= t,
                self.metadata@.len() <= n0,
                self.same_but_metadata(*old(self)),
                self.updated_at == old(self).updated_at,
            decreases pairs.len() - t,
        {
            let ghost rest = pv.skip(t as int);
            assert(rest[0] == pv[t as int]);
            assert(rest.drop_first() =~= pv.skip(t + 1));
            let ghost before = self.meta();
            let ghost fixes_before = fixes as nat;
            match meta_remove(&mut self.metadata, pairs[t].0.as_str()) {
                Some(v) => {
                    meta_insert(&mut self.metadata, pairs[t].1.clone(), v);
                    fixes = fixes + 1;
                    assert(run_renames(before, fixes_before, rest) == run_renames(self.meta(), fixes as nat, pv.skip(t + 1)));
                },
                None => {
                    assert(self.meta() =~= before);
                    assert(run_renames(before, fixes_before, rest) == run_renames(self.meta(), fixes as nat, pv.skip(t + 1)));
                },
            }
            t = t + 1;
        }
        assert(pv.skip(t as int) =~= Seq::<(Seq<char>, Seq<char>)>::empty());
        let ghost m2 = self.meta();
        let ghost v2 = self.metadata@;
        let ghost moved = fixes;
        assert(goal == (m2, moved as nat));
        let mut nulls: Vec<String> = Vec::new();
        let mut j: usize = 0;
        while j < self.metadata.len()
            invariant
                j <= self.metadata@.len(),
                self.metadata@ == v2,
                nulls@.map_values(|s: String| s@) == null_entry_keys(v2, j as int),
            decreases self.metadata.len() - j,
        {
            if entry_is_live(&self.metadata, j) && self.metadata[j].1.is_null() {
                nulls.push(self.metadata[j].0.clone());
            }
            assert(nulls@.map_values(|s: String| s@) =~= null_entry_keys(v2, j + 1));
            j = j + 1;
        }
        let ghost nk = nulls@.map_values(|s: String| s@);
        proof {
            lemma_null_entry_keys(v2, v2.len() as int);
            lemma_null_keys_set(v2);
            nk.unique_seq_to_set();
            assert(nk.take(0) =~= Seq::<Seq<char>>::empty());
            assert(m2.remove_keys(nk.take(0).to_set()) =~= m2);
        }
        let mut u: usize = 0;
        while u < nulls.len()
            invariant
                u <= nulls@.len(),
                nk == nulls@.map_values(|s: String| s@),
                nk.len() <= n0,
                moved <= n0,
                n0 <= usize::MAX / 2,
                fixes == moved + u,
                self.meta() == m2.remove_keys(nk.take(u as int).to_set()),
                self.same_but_metadata(*old(self)),
                self.updated_at == old(self).updated_at,
            decreases nulls.len() - u,
        {
            let ghost before = self.meta();
            meta_remove(&mut self.metadata, nulls[u].as_str());
            proof {
                assert(nk.take(u + 1) =~= nk.take(u as int).push(nk[u as int]));
                nk.take(u as int).lemma_push_to_set_commute(nk[u as int]);
                assert(self.meta() =~= m2.remove_keys(nk.take(u + 1).to_set()));
            }
            fixes = fixes + 1;
            u = u + 1;
        }
        proof {
            assert(nk.take(nk.len() as int) =~= nk);
        }
        fixes
    }
}

} // verus!
