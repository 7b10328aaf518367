//! Byte-string tests used on markup names, attributes and text.
use vstd::prelude::*;
use crate::decimal::lit;

verus! {

/// Whether `s` ends with `suffix`.
pub open spec fn ends_with(s: Seq<u8>, suffix: Seq<u8>) -> bool {
    s.len() >= suffix.len() && s.subrange(s.len() - suffix.len(), s.len() as int) == suffix
}

/// The one-byte whitespace characters: tab, line feed, vertical tab, form
/// feed, carriage return and space.
pub open spec fn is_ascii_ws(b: u8) -> bool {
    (9u8 <= b <= 13u8) || b == 32u8
}

/// The three-byte UTF-8 encodings of whitespace: U+1680, U+2000 to U+200A,
/// U+2028, U+2029, U+202F, U+205F and U+3000.
pub open spec fn is_ws3(a: u8, b: u8, c: u8) -> bool {
    ||| (a == 0xE1u8 && b == 0x9Au8 && c == 0x80u8)
    ||| (a == 0xE2u8 && b == 0x80u8 && ((0x80u8 <= c <= 0x8Au8) || c == 0xA8u8 || c == 0xA9u8 || c == 0xAFu8))
    ||| (a == 0xE2u8 && b == 0x81u8 && c == 0x9Fu8)
    ||| (a == 0xE3u8 && b == 0x80u8 && c == 0x80u8)
}

/// The byte length of the whitespace character that UTF-8 text `s` starts
/// with, or 0. The two-byte ones are U+0085 and U+00A0.
pub open spec fn ws_len_at_start(s: Seq<u8>) -> nat {
    if s.len() >= 1 && is_ascii_ws(s[0]) {
        1
    } else if s.len() >= 2 && s[0] == 0xC2u8 && (s[1] == 0x85u8 || s[1] == 0xA0u8) {
        2
    } else if s.len() >= 3 && is_ws3(s[0], s[1], s[2]) {
        3
    } else {
        0
    }
}

/// The byte length of the whitespace character that UTF-8 text `s` ends
/// with, or 0. A lead byte never occurs inside a character, so a match at the
/// end is the last character.
pub open spec fn ws_len_at_end(s: Seq<u8>) -> nat {
    let n = s.len() as int;
    if n >= 1 && is_ascii_ws(s[n - 1]) {
        1
    } else if n >= 2 && s[n - 2] == 0xC2u8 && (s[n - 1] == 0x85u8 || s[n - 1] == 0xA0u8) {
        2
    } else if n >= 3 && is_ws3(s[n - 3], s[n - 2], s[n - 1]) {
        3
    } else {
        0
    }
}

pub open spec fn trim_start(s: Seq<u8>) -> Seq<u8>
    decreases s.len(),
{
    if ws_len_at_start(s) > 0 {
        trim_start(s.subrange(ws_len_at_start(s) as int, s.len() as int))
    } else {
        s
    }
}

pub open spec fn trim_end(s: Seq<u8>) -> Seq<u8>
    decreases s.len(),
{
    if ws_len_at_end(s) > 0 {
        trim_end(s.subrange(0, s.len() - ws_len_at_end(s)))
    } else {
        s
    }
}

/// UTF-8 text `s` without its leading and trailing Unicode whitespace.
pub open spec fn trim(s: Seq<u8>) -> Seq<u8> {
    trim_end(trim_start(s))
}

/// Whether UTF-8 text `s` is made of whitespace characters alone.
pub open spec fn all_ws(s: Seq<u8>) -> bool
    decreases s.len(),
{
    s.len() == 0 || (ws_len_at_start(s) > 0 && all_ws(s.subrange(ws_len_at_start(s) as int, s.len() as int)))
}

/// Whitespace alone trims to nothing.
pub proof fn lemma_blank_trims_empty(s: Seq<u8>)
    requires
        all_ws(s),
    ensures
        trim(s).len() == 0,
    decreases s.len(),
{
    if s.len() > 0 {
        lemma_blank_trims_empty(s.subrange(ws_len_at_start(s) as int, s.len() as int));
    }
}

/// Whether `a` holds exactly the bytes of the literal `s`.
pub fn eq_lit(a: &[u8], s: &str) -> (r: bool)
    ensures
        r == (a@ == lit(s)),
{
    let b = s.as_bytes();
    if a.len() != b.len() {
        return false;
    }
    let mut i: usize = 0;
    while i < a.len()
        invariant
            a@.len() == b@.len(),
            b@ == lit(s),
            i <= a@.len(),
            forall|j: int| 0 <= j < i ==> a@[j] == b@[j],
        decreases a@.len() - i,
    {
        if a[i] != b[i] {
            return false;
        }
        i = i + 1;
    }
    assert(a@ =~= b@);
    true
}

/// Whether `a` ends with the bytes of the literal `s`.
pub fn ends_with_lit(a: &[u8], s: &str) -> (r: bool)
    ensures
        r == ends_with(a@, lit(s)),
{
    let b = s.as_bytes();
    if a.len() < b.len() {
        return false;
    }
    let off: usize = a.len() - b.len();
    let mut k: usize = off;
    while k < a.len()
        invariant
            b@ == lit(s),
            off + b@.len() == a@.len(),
            off <= k <= a@.len(),
            forall|j: int| 0 <= j < k - off ==> a@[off + j] == b@[j],
        decreases a@.len() - k,
    {
        if a[k] != b[k - off] {
            assert(a@.subrange(off as int, a@.len() as int)[k - off] != b@[k - off]);
            return false;
        }
        k = k + 1;
    }
    assert(a@.subrange(off as int, a@.len() as int) =~= b@);
    true
}

/// Whether two byte strings are equal.
pub fn eq_bytes(a: &[u8], b: &[u8]) -> (r: bool)
    ensures
        r == (a@ == b@),
{
    if a.len() != b.len() {
        return false;
    }
    let mut i: usize = 0;
    while i < a.len()
        invariant
            a@.len() == b@.len(),
            i <= a@.len(),
            forall|j: int| 0 <= j < i ==> a@[j] == b@[j],
        decreases a@.len() - i,
    {
        if a[i] != b[i] {
            return false;
        }
        i = i + 1;
    }
    assert(a@ =~= b@);
    true
}

fn ws3(a: u8, b: u8, c: u8) -> (r: bool)
    ensures
        r == is_ws3(a, b, c),
{
    (a == 0xE1u8 && b == 0x9Au8 && c == 0x80u8) || (a == 0xE2u8 && b == 0x80u8 && ((0x80u8 <= c && c
        <= 0x8Au8) || c == 0xA8u8 || c == 0xA9u8 || c == 0xAFu8)) || (a == 0xE2u8 && b == 0x81u8 && c
        == 0x9Fu8) || (a == 0xE3u8 && b == 0x80u8 && c == 0x80u8)
}

/// Byte length of the whitespace character at `s[i..j]`'s start.
fn ws_at_start(s: &[u8], i: usize, j: usize) -> (r: usize)
    requires
        i <= j <= s@.len(),
    ensures
        r == ws_len_at_start(s@.subrange(i as int, j as int)),
{
    let n = j - i;
    if n >= 1 && ((9u8 <= s[i] && s[i] <= 13u8) || s[i] == 32u8) {
        1
    } else if n >= 2 && s[i] == 0xC2u8 && (s[i + 1] == 0x85u8 || s[i + 1] == 0xA0u8) {
        2
    } else if n >= 3 && ws3(s[i], s[i + 1], s[i + 2]) {
        3
    } else {
        0
    }
}

/// Byte length of the whitespace character at `s[i..j]`'s end.
fn ws_at_end(s: &[u8], i: usize, j: usize) -> (r: usize)
    requires
        i <= j <= s@.len(),
    ensures
        r == ws_len_at_end(s@.subrange(i as int, j as int)),
{
    let n = j - i;
    if n >= 1 && ((9u8 <= s[j - 1] && s[j - 1] <= 13u8) || s[j - 1] == 32u8) {
        1
    } else if n >= 2 && s[j - 2] == 0xC2u8 && (s[j - 1] == 0x85u8 || s[j - 1] == 0xA0u8) {
        2
    } else if n >= 3 && ws3(s[j - 3], s[j - 2], s[j - 1]) {
        3
    } else {
        0
    }
}

/// A copy of UTF-8 text `s` without leading and trailing whitespace.
pub fn trimmed(s: &[u8]) -> (r: Vec<u8>)
    ensures
        r@ == trim(s@),
{
    let mut i: usize = 0;
    let n = s.len();
    assert(s@.subrange(0, n as int) =~= s@);
    loop
        invariant
            i <= n,
            n == s@.len(),
            trim_start(s@) == trim_start(s@.subrange(i as int, n as int)),
        ensures
            i <= n,
            n == s@.len(),
            trim_start(s@) == s@.subrange(i as int, n as int),
        decreases n - i,
    {
        let k = ws_at_start(s, i, n);
        if k == 0 {
            break;
        }
        assert(s@.subrange(i as int, n as int).subrange(k as int, n - i) =~= s@.subrange(i + k, n as int));
        i = i + k;
    }
    assert(trim_start(s@) == s@.subrange(i as int, n as int));
    let mut j: usize = n;
    assert(trim(s@) == trim_end(s@.subrange(i as int, j as int)));
    loop
        invariant
            i <= j <= n,
            n == s@.len(),
            trim(s@) == trim_end(s@.subrange(i as int, j as int)),
        ensures
            i <= j <= n,
            n == s@.len(),
            trim(s@) == s@.subrange(i as int, j as int),
        decreases j,
    {
        let k = ws_at_end(s, i, j);
        if k == 0 {
            break;
        }
        assert(s@.subrange(i as int, j as int).subrange(0, j - i - k) =~= s@.subrange(i as int, j - k));
        j = j - k;
    }
    let mut r: Vec<u8> = Vec::new();
    let mut k: usize = i;
    while k < j
        invariant
            i <= k <= j,
            j <= s@.len(),
            r@ == s@.subrange(i as int, k as int),
        decreases j - k,
    {
        r.push(s[k]);
        assert(r@ =~= s@.subrange(i as int, k + 1));
        k = k + 1;
    }
    r
}

/// A copy of `s`.
pub fn copied(s: &[u8]) -> (r: Vec<u8>)
    ensures
        r@ == s@,
{
    let mut r: Vec<u8> = Vec::new();
    r.extend_from_slice(s);
    r
}

} // verus!
