//! The durable snapshot format: one ASCII line per record, written and
//! parsed by verified code, with a proved round trip.
//!
//! A credential is the line `C <user> <access> <refresh> <expires>` and
//! a subscription the line `S <channel> <owner> <target> <playlist>`,
//! each ending in a newline. Lines with an unknown leading tag are
//! skipped on load; a malformed known line is corrupt and fatal.

use vstd::arithmetic::div_mod::lemma_fundamental_div_mod;
use vstd::prelude::*;
use vstd::slice::{slice_subrange, slice_to_vec};

use crate::directory::{
    credential_users_unique, find_credential, find_subscription, lemma_find_credential_none_iff,
    lemma_find_subscription_none_iff, sub_channels_unique, Directory, DirectoryView,
};
use crate::records::{CredentialRecord, CredentialView, SubscriptionRecord, SubscriptionView};
use crate::text::{ascii_to_string, bytes_chars, chars_bytes};

verus! {

/// An ASCII decimal digit.
pub open spec fn digit_byte(b: u8) -> bool {
    0x30 <= b && b <= 0x39
}

/// A byte allowed inside a stored field: printable ASCII without the
/// space and newline separators.
pub open spec fn token_byte(b: u8) -> bool {
    0x21 <= b && b <= 0x7e
}

/// A non-empty run of field bytes.
pub open spec fn token_bytes(s: Seq<u8>) -> bool {
    &&& s.len() >= 1
    &&& forall|i: int| 0 <= i < s.len() ==> token_byte(#[trigger] s[i])
}

/// A non-empty run of decimal digits.
pub open spec fn is_digits(s: Seq<u8>) -> bool {
    &&& s.len() >= 1
    &&& forall|i: int| 0 <= i < s.len() ==> digit_byte(#[trigger] s[i])
}

/// The shortest decimal spelling of `n`.
pub open spec fn dec_digits(n: nat) -> Seq<u8>
    decreases n,
{
    if n < 10 {
        seq![(0x30 + n) as u8]
    } else {
        dec_digits(n / 10).push((0x30 + n % 10) as u8)
    }
}

/// The number a run of digits spells.
pub open spec fn dec_val(s: Seq<u8>) -> nat
    decreases s.len(),
{
    if s.len() == 0 {
        0
    } else {
        dec_val(s.drop_last()) * 10 + (if 0x30 <= s.last() {
            (s.last() - 0x30) as nat
        } else {
            0
        })
    }
}

/// The decimal spelling of `n` is made of digits and spells `n`.
#[verifier::rlimit(50)]
pub proof fn lemma_dec_digits(n: nat)
    ensures
        is_digits(dec_digits(n)),
        dec_val(dec_digits(n)) == n,
    decreases n,
{
    if n < 10 {
        let s = dec_digits(n);
        assert(s.drop_last() =~= Seq::<u8>::empty());
        assert(s[0] == (0x30 + n) as u8);
        assert(digit_byte(s[0]));
        assert(s.last() == (0x30 + n) as u8);
        assert(dec_val(s) == dec_val(s.drop_last()) * 10 + n);
        assert(dec_val(s) == n);
    } else {
        lemma_dec_digits(n / 10);
        let p = dec_digits(n / 10);
        let s = dec_digits(n);
        assert(s.drop_last() =~= p);
        assert(s.last() == (0x30 + n % 10) as u8);
        lemma_fundamental_div_mod(n as int, 10);
        assert(forall|i: int| 0 <= i < p.len() ==> s[i] == #[trigger] p[i]);
        assert(digit_byte(s[s.len() - 1]));
        assert forall|i: int| 0 <= i < s.len() implies digit_byte(#[trigger] s[i]) by {
            if i < s.len() - 1 {
                assert(s[i] == p[i]);
            }
        }
        assert(is_digits(s));
        assert(dec_val(s) == dec_val(p) * 10 + n % 10);
        assert(dec_val(s) == n);
    }
}

/// Numbers only grow as digits are appended.
pub proof fn lemma_dec_val_extend(s: Seq<u8>, i: int)
    requires
        0 <= i <= s.len(),
    ensures
        dec_val(s) >= dec_val(s.take(i)),
    decreases s.len() - i,
{
    if i < s.len() {
        lemma_dec_val_extend(s, i + 1);
        assert(s.take(i + 1).drop_last() =~= s.take(i));
    } else {
        assert(s.take(i) =~= s);
    }
}

/// First index of `b` in `s[i..e)`, or `e` when `b` does not occur
/// there. Total for any arguments; callers keep `0 <= i <= e <= s.len()`.
pub open spec fn find_byte(s: Seq<u8>, i: int, e: int, b: u8) -> int
    decreases e - i,
{
    if i < 0 || i >= e || e > s.len() {
        e
    } else if s[i] == b {
        i
    } else {
        find_byte(s, i + 1, e, b)
    }
}

/// Where `find_byte` lands: on the first occurrence, or at `e`.
pub proof fn lemma_find_byte(s: Seq<u8>, i: int, e: int, b: u8)
    requires
        0 <= i <= e <= s.len(),
    ensures
        i <= find_byte(s, i, e, b) <= e,
        find_byte(s, i, e, b) < e ==> s[find_byte(s, i, e, b)] == b,
        forall|j: int| i <= j < find_byte(s, i, e, b) ==> s[j] != b,
    decreases e - i,
{
    if i < e && s[i] != b {
        lemma_find_byte(s, i + 1, e, b);
    }
}

/// A known first occurrence is where `find_byte` lands.
pub proof fn lemma_find_byte_hits(s: Seq<u8>, i: int, e: int, b: u8, k: int)
    requires
        0 <= i <= k < e <= s.len(),
        s[k] == b,
        forall|j: int| i <= j < k ==> s[j] != b,
    ensures
        find_byte(s, i, e, b) == k,
    decreases k - i,
{
    if i < k {
        lemma_find_byte_hits(s, i + 1, e, b, k);
    }
}

/// Searching a subrange is searching from its start, shifted.
pub proof fn lemma_find_byte_offset(s: Seq<u8>, i: int, e: int, b: u8)
    requires
        0 <= i <= e <= s.len(),
    ensures
        find_byte(s, i, e, b) == i + find_byte(s.subrange(i, e), 0, e - i, b),
{
    let f = find_byte(s, i, e, b);
    let sub = s.subrange(i, e);
    let g = find_byte(sub, 0, e - i, b);
    lemma_find_byte(s, i, e, b);
    lemma_find_byte(sub, 0, e - i, b);
    if f < e {
        lemma_find_byte_hits(sub, 0, e - i, b, f - i);
    } else {
        if g < e - i {
            assert(s[i + g] == b);
        }
    }
}

/// The fields of one line, split on single spaces. A line always has
/// at least one field; an empty line has one empty field.
pub open spec fn split_fields(line: Seq<u8>) -> Seq<Seq<u8>>
    decreases line.len(),
{
    let t = find_byte(line, 0, line.len() as int, 0x20);
    if t < 0 {
        Seq::empty()
    } else if t >= line.len() {
        seq![line]
    } else {
        seq![line.take(t)] + split_fields(line.skip(t + 1))
    }
}

/// A line without spaces is one field.
pub proof fn lemma_split_single(f: Seq<u8>)
    requires
        forall|i: int| 0 <= i < f.len() ==> f[i] != 0x20,
    ensures
        split_fields(f) == seq![f],
{
    lemma_find_byte(f, 0, f.len() as int, 0x20);
    let t = find_byte(f, 0, f.len() as int, 0x20);
    if t < f.len() {
        assert(f[t] == 0x20);
    }
}

/// Splitting peels one space-free field at a time.
pub proof fn lemma_split_concat(f: Seq<u8>, rest: Seq<u8>)
    requires
        forall|i: int| 0 <= i < f.len() ==> f[i] != 0x20,
    ensures
        split_fields(f + seq![0x20u8] + rest) == seq![f] + split_fields(rest),
{
    let l = f + seq![0x20u8] + rest;
    assert(l[f.len() as int] == 0x20);
    assert(forall|j: int| 0 <= j < f.len() ==> l[j] == #[trigger] f[j]);
    lemma_find_byte_hits(l, 0, l.len() as int, 0x20, f.len() as int);
    assert(l.take(f.len() as int) =~= f);
    assert(l.skip(f.len() as int + 1) =~= rest);
}

/// What one line means.
pub ghost enum LineVal {
    /// A line with a recognized tag but a malformed body: fatal.
    Bad,
    /// A line with an unknown tag: skipped.
    Blank,
    Cred(CredentialView),
    Sub(SubscriptionView),
}

/// The meaning of one snapshot line (without its newline).
pub open spec fn dec_line(line: Seq<u8>) -> LineVal {
    let fs = split_fields(line);
    if fs.len() == 0 {
        LineVal::Bad
    } else if fs[0].len() == 1 && fs[0][0] == 0x43 {
        if fs.len() == 5 && is_digits(fs[1]) && dec_val(fs[1]) <= u64::MAX && token_bytes(fs[2])
            && token_bytes(fs[3]) && is_digits(fs[4]) && dec_val(fs[4]) <= u64::MAX {
            LineVal::Cred(
                CredentialView {
                    external_user_id: dec_val(fs[1]) as u64,
                    access_token: bytes_chars(fs[2]),
                    refresh_token: bytes_chars(fs[3]),
                    expires_at: dec_val(fs[4]) as u64,
                },
            )
        } else {
            LineVal::Bad
        }
    } else if fs[0].len() == 1 && fs[0][0] == 0x53 {
        if fs.len() == 5 && is_digits(fs[1]) && dec_val(fs[1]) <= u64::MAX && is_digits(fs[2])
            && dec_val(fs[2]) <= u64::MAX && token_bytes(fs[3]) && token_bytes(fs[4]) {
            LineVal::Sub(
                SubscriptionView {
                    channel_id: dec_val(fs[1]) as u64,
                    owner_user_id: dec_val(fs[2]) as u64,
                    target_user_id: bytes_chars(fs[3]),
                    playlist_id: bytes_chars(fs[4]),
                },
            )
        } else {
            LineVal::Bad
        }
    } else {
        LineVal::Blank
    }
}

/// The directory the remaining bytes spell, given what earlier lines
/// already contributed. A duplicate user or channel is corrupt.
pub open spec fn dec_from(
    b: Seq<u8>,
    creds: Seq<CredentialView>,
    subs: Seq<SubscriptionView>,
) -> Option<DirectoryView>
    decreases b.len(),
{
    if b.len() == 0 {
        Some(DirectoryView { creds, subs })
    } else {
        let e = find_byte(b, 0, b.len() as int, 0x0a);
        if e < 0 || e >= b.len() {
            None
        } else {
            match dec_line(b.take(e)) {
                LineVal::Bad => None,
                LineVal::Blank => dec_from(b.skip(e + 1), creds, subs),
                LineVal::Cred(c) => if find_credential(creds, c.external_user_id) is Some {
                    None
                } else {
                    dec_from(b.skip(e + 1), creds.push(c), subs)
                },
                LineVal::Sub(v) => if find_subscription(subs, v.channel_id) is Some {
                    None
                } else {
                    dec_from(b.skip(e + 1), creds, subs.push(v))
                },
            }
        }
    }
}

/// The directory a snapshot spells, or nothing when it is corrupt.
pub open spec fn snapshot_value(b: Seq<u8>) -> Option<DirectoryView> {
    dec_from(b, Seq::empty(), Seq::empty())
}

/// The line a credential is written as, newline included.
pub open spec fn enc_cred(c: CredentialView) -> Seq<u8> {
    seq![0x43u8, 0x20u8] + dec_digits(c.external_user_id as nat) + seq![0x20u8] + chars_bytes(
        c.access_token,
    ) + seq![0x20u8] + chars_bytes(c.refresh_token) + seq![0x20u8] + dec_digits(
        c.expires_at as nat,
    ) + seq![0x0au8]
}

/// The line a subscription is written as, newline included.
pub open spec fn enc_sub(v: SubscriptionView) -> Seq<u8> {
    seq![0x53u8, 0x20u8] + dec_digits(v.channel_id as nat) + seq![0x20u8] + dec_digits(
        v.owner_user_id as nat,
    ) + seq![0x20u8] + chars_bytes(v.target_user_id) + seq![0x20u8] + chars_bytes(v.playlist_id)
        + seq![0x0au8]
}

/// The credential lines from index `k` on.
pub open spec fn enc_creds_from(cs: Seq<CredentialView>, k: int) -> Seq<u8>
    decreases cs.len() - k,
{
    if k < 0 || k >= cs.len() {
        Seq::empty()
    } else {
        enc_cred(cs[k]) + enc_creds_from(cs, k + 1)
    }
}

/// The subscription lines from index `k` on.
pub open spec fn enc_subs_from(ss: Seq<SubscriptionView>, k: int) -> Seq<u8>
    decreases ss.len() - k,
{
    if k < 0 || k >= ss.len() {
        Seq::empty()
    } else {
        enc_sub(ss[k]) + enc_subs_from(ss, k + 1)
    }
}

/// The whole snapshot of a directory: its credentials, then its
/// subscriptions, in storage order.
pub open spec fn snapshot_bytes(dv: DirectoryView) -> Seq<u8> {
    enc_creds_from(dv.creds, 0) + enc_subs_from(dv.subs, 0)
}

/// A printable ASCII character keeps its value through a byte cast.
proof fn lemma_token_char_byte(ch: char)
    requires
        0x21 <= ch as u32 && ch as u32 <= 0x7e,
    ensures
        0x21 <= ch as u8 && ch as u8 <= 0x7e,
        (ch as u8) as char == ch,
{
}

/// A printable ASCII byte keeps its value through a character cast.
proof fn lemma_byte_char(b: u8)
    requires
        b < 0x80,
    ensures
        (b as char) as u8 == b,
        (b as char) as u32 == b,
{
}

/// Bytes that may stand inside a line: anything but the newline.
pub open spec fn line_bytes(s: Seq<u8>) -> bool {
    forall|i: int| 0 <= i < s.len() ==> s[i] != 0x0a
}

proof fn lemma_line_bytes_concat(x: Seq<u8>, y: Seq<u8>)
    requires
        line_bytes(x),
        line_bytes(y),
    ensures
        line_bytes(x + y),
{
    assert forall|i: int| 0 <= i < (x + y).len() implies (x + y)[i] != 0x0a by {
        if i < x.len() {
            assert((x + y)[i] == x[i]);
        } else {
            assert((x + y)[i] == y[i - x.len()]);
        }
    }
}

/// How a credential's line reads back: one newline, at the end, and
/// the line before it means exactly the credential.
proof fn lemma_cred_line(c: CredentialView)
    requires
        c.wf(),
    ensures
        enc_cred(c).len() >= 2,
        enc_cred(c).last() == 0x0a,
        line_bytes(enc_cred(c).drop_last()),
        dec_line(enc_cred(c).drop_last()) == LineVal::Cred(c),
{
    let d1 = dec_digits(c.external_user_id as nat);
    let a = chars_bytes(c.access_token);
    let rf = chars_bytes(c.refresh_token);
    let d2 = dec_digits(c.expires_at as nat);
    lemma_dec_digits(c.external_user_id as nat);
    lemma_dec_digits(c.expires_at as nat);
    assert forall|i: int| 0 <= i < a.len() implies token_byte(#[trigger] a[i]) by {
        let ch = c.access_token[i];
        assert(crate::records::token_char(ch));
        lemma_token_char_byte(ch);
        assert(a[i] == ch as u8);
    }
    assert forall|i: int| 0 <= i < rf.len() implies token_byte(#[trigger] rf[i]) by {
        let ch = c.refresh_token[i];
        assert(crate::records::token_char(ch));
        lemma_token_char_byte(ch);
        assert(rf[i] == ch as u8);
    }
    let sp = seq![0x20u8];
    let tag = seq![0x43u8];
    let r3 = rf + sp + d2;
    let r2 = a + sp + r3;
    let r1 = d1 + sp + r2;
    let body = tag + sp + r1;
    let el = enc_cred(c);
    assert(el =~= body.push(0x0a));
    let line = el.drop_last();
    assert(line =~= body);
    assert(el.last() == 0x0a);
    // no newline before the end
    assert(line_bytes(tag));
    assert(line_bytes(sp));
    assert(line_bytes(d1));
    assert(line_bytes(d2));
    assert(line_bytes(a));
    assert(line_bytes(rf));
    lemma_line_bytes_concat(rf, sp);
    lemma_line_bytes_concat(rf + sp, d2);
    lemma_line_bytes_concat(a, sp);
    lemma_line_bytes_concat(a + sp, r3);
    lemma_line_bytes_concat(d1, sp);
    lemma_line_bytes_concat(d1 + sp, r2);
    lemma_line_bytes_concat(tag, sp);
    lemma_line_bytes_concat(tag + sp, r1);
    // the fields
    lemma_split_concat(tag, r1);
    lemma_split_concat(d1, r2);
    lemma_split_concat(a, r3);
    lemma_split_concat(rf, d2);
    lemma_split_single(d2);
    let fs = split_fields(line);
    assert(fs =~= seq![tag, d1, a, rf, d2]);
    assert(fs[0].len() == 1 && fs[0][0] == 0x43);
    assert forall|i: int| 0 <= i < a.len() implies bytes_chars(a)[i] == c.access_token[i] by {
        lemma_token_char_byte(c.access_token[i]);
        assert(a[i] == c.access_token[i] as u8);
    }
    assert(bytes_chars(a) =~= c.access_token);
    assert forall|i: int| 0 <= i < rf.len() implies bytes_chars(rf)[i] == c.refresh_token[i] by {
        lemma_token_char_byte(c.refresh_token[i]);
        assert(rf[i] == c.refresh_token[i] as u8);
    }
    assert(bytes_chars(rf) =~= c.refresh_token);
    assert(dec_val(d1) as u64 == c.external_user_id);
    assert(dec_val(d2) as u64 == c.expires_at);
    assert(dec_line(line) == LineVal::Cred(c));
}

/// How a subscription's line reads back.
proof fn lemma_sub_line(v: SubscriptionView)
    requires
        v.wf(),
    ensures
        enc_sub(v).len() >= 2,
        enc_sub(v).last() == 0x0a,
        line_bytes(enc_sub(v).drop_last()),
        dec_line(enc_sub(v).drop_last()) == LineVal::Sub(v),
{
    let d1 = dec_digits(v.channel_id as nat);
    let d2 = dec_digits(v.owner_user_id as nat);
    let tg = chars_bytes(v.target_user_id);
    let pl = chars_bytes(v.playlist_id);
    lemma_dec_digits(v.channel_id as nat);
    lemma_dec_digits(v.owner_user_id as nat);
    assert forall|i: int| 0 <= i < tg.len() implies token_byte(#[trigger] tg[i]) by {
        let ch = v.target_user_id[i];
        assert(crate::records::token_char(ch));
        lemma_token_char_byte(ch);
        assert(tg[i] == ch as u8);
    }
    assert forall|i: int| 0 <= i < pl.len() implies token_byte(#[trigger] pl[i]) by {
        let ch = v.playlist_id[i];
        assert(crate::records::token_char(ch));
        lemma_token_char_byte(ch);
        assert(pl[i] == ch as u8);
    }
    let sp = seq![0x20u8];
    let tag = seq![0x53u8];
    let r3 = tg + sp + pl;
    let r2 = d2 + sp + r3;
    let r1 = d1 + sp + r2;
    let body = tag + sp + r1;
    let el = enc_sub(v);
    assert(el =~= body.push(0x0a));
    let line = el.drop_last();
    assert(line =~= body);
    assert(el.last() == 0x0a);
    assert(line_bytes(tag));
    assert(line_bytes(sp));
    assert(line_bytes(d1));
    assert(line_bytes(d2));
    assert(line_bytes(tg));
    assert(line_bytes(pl));
    lemma_line_bytes_concat(tg, sp);
    lemma_line_bytes_concat(tg + sp, pl);
    lemma_line_bytes_concat(d2, sp);
    lemma_line_bytes_concat(d2 + sp, r3);
    lemma_line_bytes_concat(d1, sp);
    lemma_line_bytes_concat(d1 + sp, r2);
    lemma_line_bytes_concat(tag, sp);
    lemma_line_bytes_concat(tag + sp, r1);
    lemma_split_concat(tag, r1);
    lemma_split_concat(d1, r2);
    lemma_split_concat(d2, r3);
    lemma_split_concat(tg, pl);
    lemma_split_single(pl);
    let fs = split_fields(line);
    assert(fs =~= seq![tag, d1, d2, tg, pl]);
    assert(fs[0].len() == 1 && fs[0][0] == 0x53);
    assert forall|i: int| 0 <= i < tg.len() implies bytes_chars(tg)[i] == v.target_user_id[i] by {
        lemma_token_char_byte(v.target_user_id[i]);
        assert(tg[i] == v.target_user_id[i] as u8);
    }
    assert(bytes_chars(tg) =~= v.target_user_id);
    assert forall|i: int| 0 <= i < pl.len() implies bytes_chars(pl)[i] == v.playlist_id[i] by {
        lemma_token_char_byte(v.playlist_id[i]);
        assert(pl[i] == v.playlist_id[i] as u8);
    }
    assert(bytes_chars(pl) =~= v.playlist_id);
    assert(dec_val(d1) as u64 == v.channel_id);
    assert(dec_val(d2) as u64 == v.owner_user_id);
    assert(dec_line(line) == LineVal::Sub(v));
}

/// Reading one encoded line off the front of the input.
proof fn lemma_dec_step(el: Seq<u8>, rest: Seq<u8>)
    requires
        el.len() >= 2,
        el.last() == 0x0a,
        line_bytes(el.drop_last()),
    ensures
        find_byte(el + rest, 0, (el + rest).len() as int, 0x0a) == el.len() - 1,
        (el + rest).take(el.len() - 1) == el.drop_last(),
        (el + rest).skip(el.len() as int) == rest,
{
    let b = el + rest;
    assert(b[el.len() - 1] == el.last());
    assert forall|j: int| 0 <= j < el.len() - 1 implies b[j] != 0x0a by {
        assert(b[j] == el.drop_last()[j]);
    }
    lemma_find_byte_hits(b, 0, b.len() as int, 0x0a, el.len() - 1);
    assert(b.take(el.len() - 1) =~= el.drop_last());
    assert(b.skip(el.len() as int) =~= rest);
}

/// Decoding the encoded subscriptions appends them, in order.
proof fn lemma_dec_enc_subs(
    ss: Seq<SubscriptionView>,
    k: int,
    creds: Seq<CredentialView>,
    subs: Seq<SubscriptionView>,
)
    requires
        0 <= k <= ss.len(),
        forall|i: int| 0 <= i < ss.len() ==> (#[trigger] ss[i]).wf(),
        sub_channels_unique(subs + ss.skip(k)),
    ensures
        dec_from(enc_subs_from(ss, k), creds, subs) == Some(
            DirectoryView { creds, subs: subs + ss.skip(k) },
        ),
    decreases ss.len() - k,
{
    if k == ss.len() {
        assert(enc_subs_from(ss, k) =~= Seq::<u8>::empty());
        assert(subs + ss.skip(k) =~= subs);
        assert(DirectoryView { creds, subs: subs + ss.skip(k) } =~= DirectoryView { creds, subs });
    } else {
        let v = ss[k];
        lemma_sub_line(v);
        let el = enc_sub(v);
        let rest = enc_subs_from(ss, k + 1);
        let b = enc_subs_from(ss, k);
        assert(b == el + rest);
        lemma_dec_step(el, rest);
        let e = el.len() - 1;
        assert(dec_line(b.take(e)) == LineVal::Sub(v));
        // no prior entry for this channel
        let all = subs + ss.skip(k);
        assert(all[subs.len() as int] == v);
        assert forall|i: int| 0 <= i < subs.len() implies (#[trigger] subs[i]).channel_id
            != v.channel_id by {
            assert(all[i] == subs[i]);
        }
        lemma_find_subscription_none_iff(subs, v.channel_id);
        assert(subs.push(v) + ss.skip(k + 1) =~= subs + ss.skip(k));
        lemma_dec_enc_subs(ss, k + 1, creds, subs.push(v));
        assert(b.skip(e + 1) == rest);
        assert(dec_from(b, creds, subs) == dec_from(rest, creds, subs.push(v)));
    }
}

/// Decoding the encoded credentials then subscriptions rebuilds both.
proof fn lemma_dec_enc_creds(
    cs: Seq<CredentialView>,
    k: int,
    ss: Seq<SubscriptionView>,
    creds: Seq<CredentialView>,
    subs: Seq<SubscriptionView>,
)
    requires
        0 <= k <= cs.len(),
        forall|i: int| 0 <= i < cs.len() ==> (#[trigger] cs[i]).wf(),
        forall|i: int| 0 <= i < ss.len() ==> (#[trigger] ss[i]).wf(),
        credential_users_unique(creds + cs.skip(k)),
        sub_channels_unique(subs + ss),
    ensures
        dec_from(enc_creds_from(cs, k) + enc_subs_from(ss, 0), creds, subs) == Some(
            DirectoryView { creds: creds + cs.skip(k), subs: subs + ss },
        ),
    decreases cs.len() - k,
{
    if k == cs.len() {
        assert(enc_creds_from(cs, k) + enc_subs_from(ss, 0) =~= enc_subs_from(ss, 0));
        assert(ss.skip(0) =~= ss);
        lemma_dec_enc_subs(ss, 0, creds, subs);
        assert(creds + cs.skip(k) =~= creds);
        assert(DirectoryView { creds: creds + cs.skip(k), subs: subs + ss } =~= DirectoryView {
            creds,
            subs: subs + ss,
        });
    } else {
        let c = cs[k];
        lemma_cred_line(c);
        let el = enc_cred(c);
        let rest = enc_creds_from(cs, k + 1) + enc_subs_from(ss, 0);
        let b = enc_creds_from(cs, k) + enc_subs_from(ss, 0);
        assert(b =~= el + rest);
        lemma_dec_step(el, rest);
        let e = el.len() - 1;
        assert(dec_line(b.take(e)) == LineVal::Cred(c));
        let all = creds + cs.skip(k);
        assert(all[creds.len() as int] == c);
        assert forall|i: int| 0 <= i < creds.len() implies (#[trigger] creds[i]).external_user_id
            != c.external_user_id by {
            assert(all[i] == creds[i]);
        }
        lemma_find_credential_none_iff(creds, c.external_user_id);
        assert(creds.push(c) + cs.skip(k + 1) =~= creds + cs.skip(k));
        lemma_dec_enc_creds(cs, k + 1, ss, creds.push(c), subs);
        assert(b.skip(e + 1) == rest);
        assert(dec_from(b, creds, subs) == dec_from(rest, creds.push(c), subs));
    }
}

/// Loading a saved directory gives that directory back.
pub proof fn lemma_snapshot_round_trip(dv: DirectoryView)
    requires
        dv.wf(),
    ensures
        snapshot_value(snapshot_bytes(dv)) == Some(dv),
{
    let e1 = Seq::<CredentialView>::empty();
    let e2 = Seq::<SubscriptionView>::empty();
    assert(e1 + dv.creds.skip(0) =~= dv.creds);
    assert(e2 + dv.subs =~= dv.subs);
    lemma_dec_enc_creds(dv.creds, 0, dv.subs, e1, e2);
    assert(DirectoryView { creds: e1 + dv.creds.skip(0), subs: e2 + dv.subs } =~= dv);
}

/// Saving what a snapshot loads writes the same bytes again: a
/// save-after-load is a no-op on an already-saved directory.
pub proof fn lemma_save_after_load_identity(b: Seq<u8>, dv: DirectoryView)
    requires
        dv.wf(),
        b == snapshot_bytes(dv),
    ensures
        snapshot_value(b) == Some(dv),
        snapshot_bytes(dv) == b,
{
    lemma_snapshot_round_trip(dv);
}

/// Every character of a stored string is ASCII.
proof fn lemma_token_text_ascii(s: Seq<char>)
    requires
        crate::records::token_text(s),
    ensures
        vstd::utf8::is_ascii_chars(s),
{
    assert forall|i: int| 0 <= i < s.len() implies '\0' <= #[trigger] s[i] <= '\u{7f}' by {
        assert(crate::records::token_char(s[i]));
        lemma_token_char_byte(s[i]);
    }
}

fn push_bytes(out: &mut Vec<u8>, b: &[u8])
    ensures
        final(out)@ == old(out)@ + b@,
{
    let mut i: usize = 0;
    proof {
        assert(out@ =~= old(out)@ + b@.take(0));
    }
    while i < b.len()
        invariant
            i <= b@.len(),
            out@ == old(out)@ + b@.take(i as int),
        decreases b@.len() - i,
    {
        out.push(b[i]);
        proof {
            assert(old(out)@ + b@.take(i + 1) =~= (old(out)@ + b@.take(i as int)).push(
                b@[i as int],
            ));
        }
        i = i + 1;
    }
    proof {
        assert(b@.take(b@.len() as int) =~= b@);
    }
}

/// Appends the decimal spelling of `n`.
fn push_u64_digits(out: &mut Vec<u8>, n: u64)
    ensures
        final(out)@ == old(out)@ + dec_digits(n as nat),
    decreases n,
{
    if n < 10 {
        out.push(0x30 + (n as u8));
        proof {
            assert(out@ =~= old(out)@ + dec_digits(n as nat));
        }
    } else {
        push_u64_digits(out, n / 10);
        out.push(0x30 + ((n % 10) as u8));
        proof {
            assert(out@ =~= old(out)@ + dec_digits(n as nat));
        }
    }
}

/// Appends the bytes a stored string is written as.
fn push_string_bytes(out: &mut Vec<u8>, s: &String)
    requires
        crate::records::token_text(s@),
    ensures
        final(out)@ == old(out)@ + chars_bytes(s@),
{
    proof {
        lemma_token_text_ascii(s@);
    }
    let bytes: &[u8] = s.as_str().as_bytes();
    proof {
        vstd::utf8::is_ascii_chars_encode_utf8(s@);
        assert(bytes@ =~= chars_bytes(s@));
    }
    push_bytes(out, bytes);
}

/// Appends one credential line.
fn push_cred_line(out: &mut Vec<u8>, rec: &CredentialRecord)
    requires
        rec@.wf(),
    ensures
        final(out)@ == old(out)@ + enc_cred(rec@),
{
    out.push(0x43);
    out.push(0x20);
    push_u64_digits(out, rec.external_user_id);
    out.push(0x20);
    push_string_bytes(out, &rec.access_token);
    out.push(0x20);
    push_string_bytes(out, &rec.refresh_token);
    out.push(0x20);
    push_u64_digits(out, rec.expires_at);
    out.push(0x0a);
    proof {
        assert(out@ =~= old(out)@ + enc_cred(rec@));
    }
}

/// Appends one subscription line.
fn push_sub_line(out: &mut Vec<u8>, rec: &SubscriptionRecord)
    requires
        rec@.wf(),
    ensures
        final(out)@ == old(out)@ + enc_sub(rec@),
{
    out.push(0x53);
    out.push(0x20);
    push_u64_digits(out, rec.channel_id);
    out.push(0x20);
    push_u64_digits(out, rec.owner_user_id);
    out.push(0x20);
    push_string_bytes(out, &rec.target_user_id);
    out.push(0x20);
    push_string_bytes(out, &rec.playlist_id);
    out.push(0x0a);
    proof {
        assert(out@ =~= old(out)@ + enc_sub(rec@));
    }
}

/// Serializes the whole directory: the persistence gateway's `save`,
/// short of the file write that the caller performs.
pub fn save(dir: &Directory) -> (r: Vec<u8>)
    requires
        dir.wf(),
    ensures
        r@ == snapshot_bytes(dir@),
{
    let mut out: Vec<u8> = Vec::new();
    let creds = dir.credentials();
    let ghost cvs = dir@.creds;
    let mut i: usize = 0;
    proof {
        assert(out@ =~= Seq::<u8>::empty());
        assert(Seq::<u8>::empty() + enc_creds_from(cvs, 0) =~= enc_creds_from(cvs, 0));
    }
    while i < creds.len()
        invariant
            i <= creds@.len(),
            cvs == creds@.map_values(|c: CredentialRecord| c@),
            cvs == dir@.creds,
            dir.wf(),
            out@ + enc_creds_from(cvs, i as int) == enc_creds_from(cvs, 0),
        decreases creds@.len() - i,
    {
        push_cred_line(&mut out, &creds[i]);
        proof {
            assert(enc_creds_from(cvs, i as int) == enc_cred(cvs[i as int]) + enc_creds_from(
                cvs,
                i + 1,
            ));
            assert((out@ + enc_creds_from(cvs, i + 1)) =~= enc_creds_from(cvs, 0));
        }
        i = i + 1;
    }
    proof {
        assert(enc_creds_from(cvs, cvs.len() as int) =~= Seq::<u8>::empty());
        assert(out@ =~= enc_creds_from(cvs, 0));
    }
    let subs = dir.subscriptions();
    let ghost svs = dir@.subs;
    let mut j: usize = 0;
    proof {
        assert(out@ + enc_subs_from(svs, 0) =~= enc_creds_from(cvs, 0) + enc_subs_from(svs, 0));
    }
    while j < subs.len()
        invariant
            j <= subs@.len(),
            svs == subs@.map_values(|c: SubscriptionRecord| c@),
            svs == dir@.subs,
            cvs == dir@.creds,
            dir.wf(),
            out@ + enc_subs_from(svs, j as int) == enc_creds_from(cvs, 0) + enc_subs_from(svs, 0),
        decreases subs@.len() - j,
    {
        push_sub_line(&mut out, &subs[j]);
        proof {
            assert(enc_subs_from(svs, j as int) == enc_sub(svs[j as int]) + enc_subs_from(
                svs,
                j + 1,
            ));
            assert((out@ + enc_subs_from(svs, j + 1)) =~= enc_creds_from(cvs, 0) + enc_subs_from(
                svs,
                0,
            ));
        }
        j = j + 1;
    }
    proof {
        assert(enc_subs_from(svs, svs.len() as int) =~= Seq::<u8>::empty());
        assert(out@ =~= enc_creds_from(cvs, 0) + enc_subs_from(svs, 0));
    }
    out
}

/// First index of `b` at or after `i`, or `e` when absent there.
fn find_byte_in(bytes: &[u8], i: usize, e: usize, b: u8) -> (r: usize)
    requires
        i <= e,
        e <= bytes@.len(),
    ensures
        r == find_byte(bytes@, i as int, e as int, b),
{
    let mut j = i;
    while j < e
        invariant
            i <= j <= e,
            e <= bytes@.len(),
            find_byte(bytes@, i as int, e as int, b) == find_byte(bytes@, j as int, e as int, b),
        decreases e - j,
    {
        if bytes[j] == b {
            return j;
        }
        j = j + 1;
    }
    j
}

/// Parses a whole field as a decimal number.
fn parse_u64(v: &Vec<u8>) -> (r: Option<u64>)
    ensures
        r == (if is_digits(v@) && dec_val(v@) <= u64::MAX {
            Some(dec_val(v@) as u64)
        } else {
            None::<u64>
        }),
{
    if v.len() == 0 {
        return None;
    }
    let mut acc: u64 = 0;
    let mut i: usize = 0;
    proof {
        assert(v@.take(0) =~= Seq::<u8>::empty());
    }
    while i < v.len()
        invariant
            i <= v@.len(),
            v@.len() >= 1,
            forall|j: int| 0 <= j < i ==> digit_byte(#[trigger] v@[j]),
            acc == dec_val(v@.take(i as int)),
        decreases v@.len() - i,
    {
        let b = v[i];
        if b < 0x30 || b > 0x39 {
            return None;
        }
        let d = (b - 0x30) as u64;
        proof {
            assert(v@.take(i + 1).drop_last() =~= v@.take(i as int));
            assert(v@.take(i + 1).last() == v@[i as int]);
        }
        let m = acc.checked_mul(10);
        if m.is_none() {
            proof {
                lemma_dec_val_extend(v@, i + 1);
            }
            return None;
        }
        let a2 = m.unwrap().checked_add(d);
        if a2.is_none() {
            proof {
                lemma_dec_val_extend(v@, i + 1);
            }
            return None;
        }
        acc = a2.unwrap();
        i = i + 1;
    }
    proof {
        assert(v@.take(v@.len() as int) =~= v@);
        lemma_dec_val_extend(v@, v@.len() as int);
    }
    Some(acc)
}

/// Decides `token_bytes` for a field.
fn field_is_token(v: &Vec<u8>) -> (r: bool)
    ensures
        r == token_bytes(v@),
{
    if v.len() == 0 {
        return false;
    }
    let mut i: usize = 0;
    while i < v.len()
        invariant
            i <= v@.len(),
            v@.len() >= 1,
            forall|j: int| 0 <= j < i ==> token_byte(#[trigger] v@[j]),
        decreases v@.len() - i,
    {
        let b = v[i];
        if b < 0x21 || b > 0x7e {
            return false;
        }
        i = i + 1;
    }
    true
}

/// The fields of the line `bytes[i..e)`, split on single spaces.
fn split_fields_exec(bytes: &[u8], i: usize, e: usize) -> (r: Vec<Vec<u8>>)
    requires
        i <= e,
        e <= bytes@.len(),
    ensures
        r@.map_values(|f: Vec<u8>| f@) == split_fields(bytes@.subrange(i as int, e as int)),
        r@.len() >= 1,
{
    let ghost whole = bytes@.subrange(i as int, e as int);
    let mut out: Vec<Vec<u8>> = Vec::new();
    let mut j = i;
    let mut done = false;
    proof {
        assert(out@.map_values(|f: Vec<u8>| f@) =~= Seq::<Seq<u8>>::empty());
        assert(Seq::<Seq<u8>>::empty() + split_fields(whole) =~= split_fields(whole));
    }
    while !done
        invariant
            i <= j <= e <= bytes@.len(),
            whole == bytes@.subrange(i as int, e as int),
            !done ==> out@.map_values(|f: Vec<u8>| f@) + split_fields(
                bytes@.subrange(j as int, e as int),
            ) == split_fields(whole),
            done ==> out@.map_values(|f: Vec<u8>| f@) == split_fields(whole) && out@.len() >= 1,
        decreases e - j + (if done {
            0int
        } else {
            1int
        }),
    {
        let ghost seg = bytes@.subrange(j as int, e as int);
        let t = find_byte_in(bytes, j, e, 0x20);
        proof {
            lemma_find_byte(bytes@, j as int, e as int, 0x20);
            lemma_find_byte_offset(bytes@, j as int, e as int, 0x20);
        }
        let piece = slice_to_vec(slice_subrange(bytes, j, t));
        let ghost prev = out@.map_values(|f: Vec<u8>| f@);
        out.push(piece);
        proof {
            assert(out@.map_values(|f: Vec<u8>| f@) =~= prev.push(
                bytes@.subrange(j as int, t as int),
            ));
        }
        if t >= e {
            proof {
                assert(find_byte(seg, 0, seg.len() as int, 0x20) == seg.len());
                assert(split_fields(seg) == seq![seg]);
                assert(bytes@.subrange(j as int, t as int) =~= seg);
                assert(prev.push(seg) + Seq::<Seq<u8>>::empty() =~= prev + seq![seg]);
                assert(prev + split_fields(seg) =~= prev.push(seg));
                assert(out@.map_values(|f: Vec<u8>| f@) =~= split_fields(whole));
            }
            done = true;
        } else {
            proof {
                let trel = t - j;
                assert(find_byte(seg, 0, seg.len() as int, 0x20) == trel);
                assert(0 <= trel < seg.len());
                assert(split_fields(seg) == seq![seg.take(trel)] + split_fields(
                    seg.skip(trel + 1),
                ));
                assert(seg.take(trel) =~= bytes@.subrange(j as int, t as int));
                assert(seg.skip(trel + 1) =~= bytes@.subrange(t + 1, e as int));
                assert(prev.push(seg.take(trel)) + split_fields(seg.skip(trel + 1)) =~= prev
                    + split_fields(seg));
            }
            j = t + 1;
        }
    }
    out
}

/// What one line of the snapshot parses to.
enum ParsedLine {
    Bad,
    Blank,
    Cred(CredentialRecord),
    Sub(SubscriptionRecord),
}

/// Parses the line `bytes[i..e)` (without its newline).
fn parse_line(bytes: &[u8], i: usize, e: usize) -> (r: ParsedLine)
    requires
        i <= e,
        e <= bytes@.len(),
    ensures
        (match r {
            ParsedLine::Bad => dec_line(bytes@.subrange(i as int, e as int)) is Bad,
            ParsedLine::Blank => dec_line(bytes@.subrange(i as int, e as int)) is Blank,
            ParsedLine::Cred(c) => dec_line(bytes@.subrange(i as int, e as int)) == LineVal::Cred(
                c@,
            ) && c@.wf(),
            ParsedLine::Sub(s) => dec_line(bytes@.subrange(i as int, e as int)) == LineVal::Sub(s@)
                && s@.wf(),
        }),
{
    let ghost line = bytes@.subrange(i as int, e as int);
    let fields = split_fields_exec(bytes, i, e);
    let ghost fs = split_fields(line);
    if fields[0].len() == 1 && fields[0][0] == 0x43 {
        if fields.len() != 5 {
            return ParsedLine::Bad;
        }
        let user = parse_u64(&fields[1]);
        let expires = parse_u64(&fields[4]);
        if user.is_none() || expires.is_none() || !field_is_token(&fields[2]) || !field_is_token(
            &fields[3],
        ) {
            return ParsedLine::Bad;
        }
        let rec = CredentialRecord {
            external_user_id: user.unwrap(),
            access_token: ascii_to_string(fields[2].as_slice()),
            refresh_token: ascii_to_string(fields[3].as_slice()),
            expires_at: expires.unwrap(),
        };
        proof {
            assert forall|k: int| 0 <= k < rec.access_token@.len() implies crate::records::token_char(
                #[trigger] rec.access_token@[k],
            ) by {
                lemma_byte_char(fs[2][k]);
            }
            assert forall|k: int| 0 <= k < rec.refresh_token@.len() implies crate::records::token_char(
                #[trigger] rec.refresh_token@[k],
            ) by {
                lemma_byte_char(fs[3][k]);
            }
            assert(dec_line(line) == LineVal::Cred(rec@));
        }
        ParsedLine::Cred(rec)
    } else if fields[0].len() == 1 && fields[0][0] == 0x53 {
        if fields.len() != 5 {
            return ParsedLine::Bad;
        }
        let channel = parse_u64(&fields[1]);
        let owner = parse_u64(&fields[2]);
        if channel.is_none() || owner.is_none() || !field_is_token(&fields[3]) || !field_is_token(
            &fields[4],
        ) {
            return ParsedLine::Bad;
        }
        let rec = SubscriptionRecord {
            channel_id: channel.unwrap(),
            owner_user_id: owner.unwrap(),
            target_user_id: ascii_to_string(fields[3].as_slice()),
            playlist_id: ascii_to_string(fields[4].as_slice()),
        };
        proof {
            assert forall|k: int| 0 <= k < rec.target_user_id@.len() implies crate::records::token_char(
                #[trigger] rec.target_user_id@[k],
            ) by {
                lemma_byte_char(fs[3][k]);
            }
            assert forall|k: int| 0 <= k < rec.playlist_id@.len() implies crate::records::token_char(
                #[trigger] rec.playlist_id@[k],
            ) by {
                lemma_byte_char(fs[4][k]);
            }
            assert(dec_line(line) == LineVal::Sub(rec@));
        }
        ParsedLine::Sub(rec)
    } else {
        ParsedLine::Blank
    }
}

/// Why a snapshot cannot be used: it does not parse back to a
/// directory, which is fatal at startup.
#[derive(Debug, PartialEq, Eq, Structural)]
pub enum SnapshotError {
    Corrupt,
}

fn creds_contain(creds: &Vec<CredentialRecord>, user: u64) -> (r: bool)
    ensures
        r == (find_credential(creds@.map_values(|c: CredentialRecord| c@), user) is Some),
{
    let ghost cvs = creds@.map_values(|c: CredentialRecord| c@);
    proof {
        assert(cvs.take(creds@.len() as int) =~= cvs);
    }
    let mut i: usize = creds.len();
    while i > 0
        invariant
            i <= creds@.len(),
            cvs == creds@.map_values(|c: CredentialRecord| c@),
            find_credential(cvs, user) == find_credential(cvs.take(i as int), user),
        decreases i,
    {
        i = i - 1;
        proof {
            assert(cvs.take(i + 1).drop_last() =~= cvs.take(i as int));
            assert(cvs.take(i + 1).last() == cvs[i as int]);
        }
        if creds[i].external_user_id == user {
            return true;
        }
    }
    false
}

fn subs_contain(subs: &Vec<SubscriptionRecord>, channel: u64) -> (r: bool)
    ensures
        r == (find_subscription(subs@.map_values(|c: SubscriptionRecord| c@), channel) is Some),
{
    let ghost svs = subs@.map_values(|c: SubscriptionRecord| c@);
    proof {
        assert(svs.take(subs@.len() as int) =~= svs);
    }
    let mut i: usize = subs.len();
    while i > 0
        invariant
            i <= subs@.len(),
            svs == subs@.map_values(|c: SubscriptionRecord| c@),
            find_subscription(svs, channel) == find_subscription(svs.take(i as int), channel),
        decreases i,
    {
        i = i - 1;
        proof {
            assert(svs.take(i + 1).drop_last() =~= svs.take(i as int));
            assert(svs.take(i + 1).last() == svs[i as int]);
        }
        if subs[i].channel_id == channel {
            return true;
        }
    }
    false
}

/// Parses a snapshot back into a directory: the persistence gateway's
/// `load`, short of the file read that the caller performs. An absent
/// file is an empty input and gives the empty directory; bytes that do
/// not parse are corrupt, which the caller must treat as fatal.
pub fn load(bytes: &[u8]) -> (r: Result<Directory, SnapshotError>)
    ensures
        (match r {
            Ok(d) => snapshot_value(bytes@) == Some(d@) && d.wf(),
            Err(_) => snapshot_value(bytes@) is None,
        }),
{
    let n = bytes.len();
    let mut creds: Vec<CredentialRecord> = Vec::new();
    let mut subs: Vec<SubscriptionRecord> = Vec::new();
    let mut i: usize = 0;
    proof {
        assert(creds@.map_values(|c: CredentialRecord| c@) =~= Seq::<CredentialView>::empty());
        assert(subs@.map_values(|c: SubscriptionRecord| c@) =~= Seq::<SubscriptionView>::empty());
        assert(bytes@.skip(0) =~= bytes@);
    }
    while i < n
        invariant
            i <= n,
            n == bytes@.len(),
            snapshot_value(bytes@) == dec_from(
                bytes@.skip(i as int),
                creds@.map_values(|c: CredentialRecord| c@),
                subs@.map_values(|c: SubscriptionRecord| c@),
            ),
            credential_users_unique(creds@.map_values(|c: CredentialRecord| c@)),
            sub_channels_unique(subs@.map_values(|c: SubscriptionRecord| c@)),
            forall|k: int| 0 <= k < creds@.len() ==> (#[trigger] creds@[k])@.wf(),
            forall|k: int| 0 <= k < subs@.len() ==> (#[trigger] subs@[k])@.wf(),
        decreases n - i,
    {
        let ghost suffix = bytes@.skip(i as int);
        let ghost cvs = creds@.map_values(|c: CredentialRecord| c@);
        let ghost svs = subs@.map_values(|c: SubscriptionRecord| c@);
        let e = find_byte_in(bytes, i, n, 0x0a);
        proof {
            lemma_find_byte(bytes@, i as int, n as int, 0x0a);
            lemma_find_byte_offset(bytes@, i as int, n as int, 0x0a);
            assert(find_byte(suffix, 0, suffix.len() as int, 0x0a) == e - i);
        }
        if e >= n {
            proof {
                assert(dec_from(suffix, cvs, svs) is None);
            }
            return Err(SnapshotError::Corrupt);
        }
        proof {
            assert(suffix.take(e - i) =~= bytes@.subrange(i as int, e as int));
            assert(suffix.skip(e - i + 1) =~= bytes@.skip(e + 1));
        }
        match parse_line(bytes, i, e) {
            ParsedLine::Bad => {
                return Err(SnapshotError::Corrupt);
            },
            ParsedLine::Blank => {},
            ParsedLine::Cred(c) => {
                if creds_contain(&creds, c.external_user_id) {
                    return Err(SnapshotError::Corrupt);
                }
                proof {
                    lemma_find_credential_none_iff(cvs, c.external_user_id);
                }
                let ghost prev = cvs;
                creds.push(c);
                proof {
                    assert(creds@.map_values(|cr: CredentialRecord| cr@) =~= prev.push(c@));
                    assert forall|a: int, b2: int|
                        0 <= a < b2 < prev.push(c@).len() implies prev.push(c@)[a].external_user_id
                        != prev.push(c@)[b2].external_user_id by {
                        if b2 < prev.len() {
                            assert(prev.push(c@)[a] == prev[a] && prev.push(c@)[b2] == prev[b2]);
                        } else {
                            assert(prev.push(c@)[a] == prev[a]);
                        }
                    }
                }
            },
            ParsedLine::Sub(s) => {
                if subs_contain(&subs, s.channel_id) {
                    return Err(SnapshotError::Corrupt);
                }
                proof {
                    lemma_find_subscription_none_iff(svs, s.channel_id);
                }
                let ghost prev = svs;
                subs.push(s);
                proof {
                    assert(subs@.map_values(|cr: SubscriptionRecord| cr@) =~= prev.push(s@));
                    assert forall|a: int, b2: int|
                        0 <= a < b2 < prev.push(s@).len() implies prev.push(s@)[a].channel_id
                        != prev.push(s@)[b2].channel_id by {
                        if b2 < prev.len() {
                            assert(prev.push(s@)[a] == prev[a] && prev.push(s@)[b2] == prev[b2]);
                        } else {
                            assert(prev.push(s@)[a] == prev[a]);
                        }
                    }
                }
            },
        }
        i = e + 1;
    }
    proof {
        assert(bytes@.skip(n as int) =~= Seq::<u8>::empty());
    }
    let d = Directory::from_records(creds, subs);
    proof {
        assert(d@.wf());
    }
    Ok(d)
}

} // verus!
