//! Character-level scanning helpers shared by the message scanner and
//! the reference parsers.

use vstd::prelude::*;

verus! {

/// First index of `c` in `s[i..e)`, or `e` when `c` does not occur
/// there. Total for any arguments; callers keep `0 <= i <= e <= s.len()`.
pub open spec fn find_in(s: Seq<char>, i: int, e: int, c: char) -> int
    decreases e - i,
{
    if i < 0 || i >= e || e > s.len() {
        e
    } else if s[i] == c {
        i
    } else {
        find_in(s, i + 1, e, c)
    }
}

/// Where `find_in` lands: on the first occurrence, or at `e`.
pub proof fn lemma_find_in(s: Seq<char>, i: int, e: int, c: char)
    requires
        0 <= i <= e <= s.len(),
    ensures
        i <= find_in(s, i, e, c) <= e,
        find_in(s, i, e, c) < e ==> s[find_in(s, i, e, c)] == c,
        forall|j: int| i <= j < find_in(s, i, e, c) ==> s[j] != c,
    decreases e - i,
{
    if i < e && s[i] != c {
        lemma_find_in(s, i + 1, e, c);
    }
}

/// `p` is a prefix of `s`.
pub open spec fn has_prefix(s: Seq<char>, p: Seq<char>) -> bool {
    p.len() <= s.len() && s.take(p.len() as int) == p
}

/// First index of `c` at or after `i`, or `e` when absent there.
pub fn find_char_in(s: &str, i: usize, e: usize, c: char) -> (r: usize)
    requires
        i <= e,
        e <= s@.len(),
    ensures
        r == find_in(s@, i as int, e as int, c),
{
    let mut j = i;
    while j < e
        invariant
            i <= j <= e,
            e <= s@.len(),
            find_in(s@, i as int, e as int, c) == find_in(s@, j as int, e as int, c),
        decreases e - j,
    {
        if s.get_char(j) == c {
            return j;
        }
        j = j + 1;
    }
    j
}

/// Whether `needle` is a prefix of `s[i..t)`.
pub fn range_has_prefix(s: &str, i: usize, t: usize, needle: &str) -> (r: bool)
    requires
        i <= t,
        t <= s@.len(),
    ensures
        r == has_prefix(s@.subrange(i as int, t as int), needle@),
{
    let plen = needle.unicode_len();
    if t - i < plen {
        return false;
    }
    let ghost sub = s@.subrange(i as int, t as int);
    let mut k: usize = 0;
    while k < plen
        invariant
            k <= plen,
            plen == needle@.len(),
            i <= t <= s@.len(),
            plen <= t - i,
            sub == s@.subrange(i as int, t as int),
            forall|m: int| 0 <= m < k ==> sub[m] == needle@[m],
        decreases plen - k,
    {
        let sc = s.get_char(i + k);
        let nc = needle.get_char(k);
        proof {
            assert(sub[k as int] == s@[i + k]);
        }
        if sc != nc {
            proof {
                assert(!has_prefix(sub, needle@)) by {
                    if has_prefix(sub, needle@) {
                        assert(sub.take(needle@.len() as int)[k as int] == needle@[k as int]);
                    }
                }
            }
            return false;
        }
        k = k + 1;
    }
    proof {
        assert(sub.take(needle@.len() as int) =~= needle@);
    }
    true
}

/// A decimal digit or an ASCII letter.
pub open spec fn alnum_char(c: char) -> bool {
    ||| 0x30 <= c as u32 && c as u32 <= 0x39
    ||| 0x61 <= c as u32 && c as u32 <= 0x7a
    ||| 0x41 <= c as u32 && c as u32 <= 0x5a
}

/// Non-empty and made only of digits and ASCII letters, the shape of a
/// canonical playlist or track identifier.
pub open spec fn alnum_text(s: Seq<char>) -> bool {
    &&& s.len() >= 1
    &&& forall|i: int| 0 <= i < s.len() ==> alnum_char(#[trigger] s[i])
}

/// Decides `alnum_text` for `s[i..e)`.
pub fn range_is_alnum(s: &str, i: usize, e: usize) -> (r: bool)
    requires
        i <= e,
        e <= s@.len(),
    ensures
        r == alnum_text(s@.subrange(i as int, e as int)),
{
    let ghost sub = s@.subrange(i as int, e as int);
    if e == i {
        return false;
    }
    let mut k: usize = i;
    while k < e
        invariant
            i <= k <= e <= s@.len(),
            sub == s@.subrange(i as int, e as int),
            forall|m: int| 0 <= m < k - i ==> alnum_char(#[trigger] sub[m]),
        decreases e - k,
    {
        let c = s.get_char(k);
        let v = c as u32;
        proof {
            assert(sub[k - i] == s@[k as int]);
        }
        if !((0x30 <= v && v <= 0x39) || (0x61 <= v && v <= 0x7a) || (0x41 <= v && v <= 0x5a)) {
            return false;
        }
        k = k + 1;
    }
    true
}

/// The characters a run of bytes stands for, one character per byte.
pub open spec fn bytes_chars(s: Seq<u8>) -> Seq<char> {
    s.map_values(|b: u8| b as char)
}

/// The bytes an ASCII string is written as, one byte per character.
pub open spec fn chars_bytes(s: Seq<char>) -> Seq<u8> {
    s.map_values(|c: char| c as u8)
}

/// Relies on str::from_utf8: a run of ASCII bytes decodes to exactly
/// those characters. Never called on other bytes.
#[verifier::external_body]
pub(crate) fn ascii_to_string(bytes: &[u8]) -> (r: String)
    requires
        forall|i: int| 0 <= i < bytes@.len() ==> bytes@[i] < 0x80,
    ensures
        r@ == bytes_chars(bytes@),
{
    match core::str::from_utf8(bytes) {
        Ok(s) => s.to_owned(),
        Err(_) => String::new(),
    }
}

} // verus!
