//! Finding a track link in a chat message and turning it into the
//! provider-native track URI.

use vstd::prelude::*;

use crate::text::{find_in, has_prefix, lemma_find_in, find_char_in, range_has_prefix};

verus! {

/// The URL prefix every forwardable track link carries.
pub open spec fn track_link_prefix() -> Seq<char> {
    "https://open.spotify.com/track/"@
}

/// The first track link among the whitespace-delimited tokens of
/// `s[i..e)`, scanning left to right.
pub open spec fn line_link_from(s: Seq<char>, i: int, e: int) -> Option<Seq<char>>
    decreases e - i,
{
    if i < 0 || i >= e || e > s.len() {
        None
    } else {
        let t = find_in(s, i, e, ' ');
        if t < i {
            None
        } else if has_prefix(s.subrange(i, t), track_link_prefix()) {
            Some(s.subrange(i, t))
        } else if t >= e {
            None
        } else {
            line_link_from(s, t + 1, e)
        }
    }
}

/// The first track link of the message at or after `i`, line by line;
/// a line whose first character is the quote marker `>` is skipped.
pub open spec fn message_link_from(s: Seq<char>, i: int) -> Option<Seq<char>>
    decreases s.len() - i,
{
    if i < 0 || i >= s.len() {
        None
    } else {
        let e = find_in(s, i, s.len() as int, '\n');
        if e < i {
            None
        } else {
            let found = if s[i] == '>' {
                None
            } else {
                line_link_from(s, i, e)
            };
            if found is Some {
                found
            } else if e >= s.len() {
                None
            } else {
                message_link_from(s, e + 1)
            }
        }
    }
}

/// The track link a message carries, if any: the first
/// whitespace-delimited token with the track URL prefix on a line not
/// quoted with `>`.
pub open spec fn spotify_link_in(msg: Seq<char>) -> Option<Seq<char>> {
    message_link_from(msg, 0)
}

/// The first track link of `s[i..e)`, as its character range.
fn line_link_exec(s: &str, i: usize, e: usize) -> (r: Option<(usize, usize)>)
    requires
        i <= e,
        e <= s@.len(),
    ensures
        match r {
            Some(ab) => {
                &&& line_link_from(s@, i as int, e as int) == Some(
                    s@.subrange(ab.0 as int, ab.1 as int),
                )
                &&& i <= ab.0 <= ab.1 <= e
            },
            None => line_link_from(s@, i as int, e as int) is None,
        },
{
    let mut j = i;
    while j < e
        invariant
            i <= j <= e,
            e <= s@.len(),
            line_link_from(s@, i as int, e as int) == line_link_from(s@, j as int, e as int),
        decreases e - j,
    {
        let t = find_char_in(s, j, e, ' ');
        proof {
            lemma_find_in(s@, j as int, e as int, ' ');
        }
        if range_has_prefix(s, j, t, "https://open.spotify.com/track/") {
            return Some((j, t));
        }
        if t >= e {
            return None;
        }
        j = t + 1;
    }
    None
}

/// The track link a message carries, if any. A token qualifies only
/// when it begins a track URL; lines quoted with `>` are passed over.
pub fn search_spotify_link(message: &str) -> (r: Option<String>)
    ensures
        match r {
            Some(t) => spotify_link_in(message@) == Some(t@),
            None => spotify_link_in(message@) is None,
        },
{
    let n = message.unicode_len();
    let mut i: usize = 0;
    while i < n
        invariant
            n == message@.len(),
            i <= n,
            spotify_link_in(message@) == message_link_from(message@, i as int),
        decreases n - i,
    {
        let e = find_char_in(message, i, n, '\n');
        proof {
            lemma_find_in(message@, i as int, n as int, '\n');
        }
        if message.get_char(i) != '>' {
            match line_link_exec(message, i, e) {
                Some((a, b)) => {
                    let tok = message.substring_char(a, b);
                    return Some(tok.to_owned());
                },
                None => {},
            }
        }
        if e >= n {
            return None;
        }
        i = e + 1;
    }
    None
}

/// Index of the last `/` in `s`, or -1 when there is none.
pub open spec fn last_slash(s: Seq<char>) -> int
    decreases s.len(),
{
    if s.len() == 0 {
        -1
    } else if s.last() == '/' {
        s.len() - 1
    } else {
        last_slash(s.drop_last())
    }
}

/// The canonical track id inside a track URL: what stands after the
/// last `/`, up to the first `?` of the query, if any.
pub open spec fn track_id_of(url: Seq<char>) -> Seq<char> {
    let a = last_slash(url) + 1;
    let b = find_in(url, a, url.len() as int, '?');
    url.subrange(a, b)
}

/// `last_slash` stays inside the sequence.
pub proof fn lemma_last_slash(s: Seq<char>)
    ensures
        -1 <= last_slash(s) < s.len(),
        last_slash(s) >= 0 ==> s[last_slash(s)] == '/',
    decreases s.len(),
{
    if s.len() > 0 && s.last() != '/' {
        lemma_last_slash(s.drop_last());
        assert(forall|i: int| 0 <= i < s.len() - 1 ==> s.drop_last()[i] == #[trigger] s[i]);
    }
}

/// One past the last `/` of `s`, or 0 when there is no slash.
fn after_last_slash(s: &str, n: usize) -> (start: usize)
    requires
        n == s@.len(),
    ensures
        start == last_slash(s@) + 1,
        start <= n,
{
    proof {
        assert(s@.take(n as int) =~= s@);
        lemma_last_slash(s@);
    }
    let mut i: usize = n;
    while i > 0
        invariant
            i <= n,
            n == s@.len(),
            last_slash(s@) == last_slash(s@.take(i as int)),
        decreases i,
    {
        i = i - 1;
        proof {
            assert(s@.take(i + 1).drop_last() =~= s@.take(i as int));
            assert(s@.take(i + 1).last() == s@[i as int]);
        }
        if s.get_char(i) == '/' {
            return i + 1;
        }
    }
    proof {
        assert(s@.take(0) =~= Seq::<char>::empty());
    }
    0
}

/// The provider-native URI for the track a link points at.
pub fn track_uri_from_link(link: &str) -> (r: String)
    ensures
        r@ == "spotify:track:"@ + track_id_of(link@),
{
    let n = link.unicode_len();
    let start = after_last_slash(link, n);
    let q = find_char_in(link, start, n, '?');
    proof {
        lemma_find_in(link@, start as int, n as int, '?');
    }
    let id = link.substring_char(start, q);
    let mut out = "spotify:track:".to_owned();
    out.append(id);
    out
}

/// The public web URL of a playlist, from its bare id or URI tail.
pub fn create_spotify_playlist_link(uri: &str) -> (r: String)
    ensures
        r@ == "https://open.spotify.com/playlist/"@ + uri@,
{
    let mut out = "https://open.spotify.com/playlist/".to_owned();
    out.append(uri);
    out
}

} // verus!
