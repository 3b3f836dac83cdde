//! Building the authorization URL that starts a link handshake: a
//! random state token from the OAuth client library, and verified
//! percent-encoding around it.

use vstd::prelude::*;

use crate::text::{alnum_char, ascii_to_string, bytes_chars, chars_bytes};

verus! {

/// A character that travels unescaped in a URL query component.
pub open spec fn unreserved_char(c: char) -> bool {
    ||| alnum_char(c)
    ||| c == '-' || c == '.' || c == '_' || c == '~'
}

/// The upper-case hexadecimal digit for `n`.
pub open spec fn hex_digit(n: int) -> char {
    if n == 0 {
        '0'
    } else if n == 1 {
        '1'
    } else if n == 2 {
        '2'
    } else if n == 3 {
        '3'
    } else if n == 4 {
        '4'
    } else if n == 5 {
        '5'
    } else if n == 6 {
        '6'
    } else if n == 7 {
        '7'
    } else if n == 8 {
        '8'
    } else if n == 9 {
        '9'
    } else if n == 10 {
        'A'
    } else if n == 11 {
        'B'
    } else if n == 12 {
        'C'
    } else if n == 13 {
        'D'
    } else if n == 14 {
        'E'
    } else {
        'F'
    }
}

/// How one ASCII character is written in a query component.
pub open spec fn pct_char(c: char) -> Seq<char> {
    if unreserved_char(c) {
        seq![c]
    } else {
        seq!['%', hex_digit((c as u32 / 16) as int), hex_digit((c as u32 % 16) as int)]
    }
}

/// The percent-encoded form of an ASCII string.
pub open spec fn pct_encoded(s: Seq<char>) -> Seq<char>
    decreases s.len(),
{
    if s.len() == 0 {
        Seq::empty()
    } else {
        pct_encoded(s.drop_last()) + pct_char(s.last())
    }
}

/// Appends the percent-encoding of one character, as bytes.
fn push_pct_char(out: &mut Vec<u8>, c: char)
    requires
        (c as u32) < 0x80,
    ensures
        final(out)@ == old(out)@ + chars_bytes(pct_char(c)),
{
    let v = c as u32;
    let unreserved = (0x30 <= v && v <= 0x39) || (0x61 <= v && v <= 0x7a) || (0x41 <= v && v
        <= 0x5a) || c == '-' || c == '.' || c == '_' || c == '~';
    if unreserved {
        out.push(c as u8);
        proof {
            assert(out@ =~= old(out)@ + chars_bytes(pct_char(c)));
        }
    } else {
        let hi = (v / 16) as u8;
        let lo = (v % 16) as u8;
        let hb: u8 = if hi < 10 {
            0x30 + hi
        } else {
            0x41 + (hi - 10)
        };
        let lb: u8 = if lo < 10 {
            0x30 + lo
        } else {
            0x41 + (lo - 10)
        };
        out.push(0x25);
        out.push(hb);
        out.push(lb);
        proof {
            assert(hex_digit((c as u32 / 16) as int) as u8 == hb);
            assert(hex_digit((c as u32 % 16) as int) as u8 == lb);
            assert('%' as u8 == 0x25);
            assert(out@ =~= old(out)@ + chars_bytes(pct_char(c)));
        }
    }
}

/// An ASCII character keeps its value through a byte cast.
proof fn lemma_ascii_char_byte(c: char)
    requires
        (c as u32) < 0x80,
    ensures
        (c as u8) < 0x80,
        ((c as u8) as char) == c,
{
}

/// Every character of a percent-encoding is ASCII.
proof fn lemma_pct_encoded_ascii(s: Seq<char>)
    requires
        forall|i: int| 0 <= i < s.len() ==> ((#[trigger] s[i]) as u32) < 0x80,
    ensures
        forall|i: int|
            0 <= i < pct_encoded(s).len() ==> ((#[trigger] pct_encoded(s)[i]) as u32) < 0x80,
    decreases s.len(),
{
    if s.len() > 0 {
        assert(forall|i: int|
            0 <= i < s.len() - 1 ==> ((#[trigger] s.drop_last()[i]) as u32) < 0x80);
        lemma_pct_encoded_ascii(s.drop_last());
        let p = pct_encoded(s.drop_last());
        let t = pct_char(s.last());
        assert(forall|i: int| 0 <= i < t.len() ==> ((#[trigger] t[i]) as u32) < 0x80);
        assert forall|i: int| 0 <= i < pct_encoded(s).len() implies ((
        #[trigger] pct_encoded(s)[i]) as u32) < 0x80 by {
            if i < p.len() {
                assert(pct_encoded(s)[i] == p[i]);
            } else {
                assert(pct_encoded(s)[i] == t[i - p.len()]);
            }
        }
    }
}

/// The percent-encoded form of an ASCII string, for a URL query
/// component.
pub fn pct_encode(s: &str) -> (r: String)
    requires
        forall|i: int| 0 <= i < s@.len() ==> ((#[trigger] s@[i]) as u32) < 0x80,
    ensures
        r@ == pct_encoded(s@),
{
    let n = s.unicode_len();
    let mut out: Vec<u8> = Vec::new();
    let mut i: usize = 0;
    proof {
        assert(s@.take(0) =~= Seq::<char>::empty());
        assert(out@ =~= chars_bytes(pct_encoded(s@.take(0))));
    }
    while i < n
        invariant
            i <= n,
            n == s@.len(),
            forall|k: int| 0 <= k < s@.len() ==> ((#[trigger] s@[k]) as u32) < 0x80,
            out@ == chars_bytes(pct_encoded(s@.take(i as int))),
        decreases n - i,
    {
        let c = s.get_char(i);
        push_pct_char(&mut out, c);
        proof {
            assert(s@.take(i + 1).drop_last() =~= s@.take(i as int));
            assert(s@.take(i + 1).last() == s@[i as int]);
            assert(chars_bytes(pct_encoded(s@.take(i + 1))) =~= chars_bytes(
                pct_encoded(s@.take(i as int)),
            ) + chars_bytes(pct_char(s@[i as int])));
        }
        i = i + 1;
    }
    proof {
        assert(s@.take(n as int) =~= s@);
        lemma_pct_encoded_ascii(s@);
        assert forall|k: int| 0 <= k < out@.len() implies out@[k] < 0x80 by {
            lemma_ascii_char_byte(pct_encoded(s@)[k]);
            assert(out@[k] == pct_encoded(s@)[k] as u8);
        }
    }
    let r = ascii_to_string(out.as_slice());
    proof {
        assert forall|k: int| 0 <= k < r@.len() implies r@[k] == pct_encoded(s@)[k] by {
            lemma_ascii_char_byte(pct_encoded(s@)[k]);
            assert(r@[k] == (pct_encoded(s@)[k] as u8) as char);
        }
        assert(r@ =~= pct_encoded(s@));
    }
    r
}

/// The authorization URL a link request hands out: the OAuth authorize
/// endpoint with the client, redirect target, fixed scope and the
/// single-use state token.
pub open spec fn authorize_url_chars(
    client_id: Seq<char>,
    redirect_uri: Seq<char>,
    state: Seq<char>,
) -> Seq<char> {
    "https://accounts.spotify.com/authorize?client_id="@ + pct_encoded(client_id)
        + "&response_type=code&redirect_uri="@ + pct_encoded(redirect_uri)
        + "&scope=playlist-modify-public&state="@ + state
}

/// Builds the authorization URL for one link request.
pub fn authorize_url(client_id: &str, redirect_uri: &str, state: &str) -> (r: String)
    requires
        forall|i: int| 0 <= i < client_id@.len() ==> ((#[trigger] client_id@[i]) as u32) < 0x80,
        forall|i: int|
            0 <= i < redirect_uri@.len() ==> ((#[trigger] redirect_uri@[i]) as u32) < 0x80,
    ensures
        r@ == authorize_url_chars(client_id@, redirect_uri@, state@),
{
    let mut out = "https://accounts.spotify.com/authorize?client_id=".to_owned();
    let e1 = pct_encode(client_id);
    out.append(e1.as_str());
    out.append("&response_type=code&redirect_uri=");
    let e2 = pct_encode(redirect_uri);
    out.append(e2.as_str());
    out.append("&scope=playlist-modify-public&state=");
    out.append(state);
    out
}

/// Relies on rspotify::OAuth::default: its `state` field is a freshly
/// drawn random token of 16 alphanumeric characters.
#[verifier::external_body]
pub(crate) fn fresh_state_token() -> (r: String)
    ensures
        r@.len() == 16,
        forall|i: int| 0 <= i < r@.len() ==> alnum_char(#[trigger] r@[i]),
{
    rspotify::OAuth::default().state
}

} // verus!
