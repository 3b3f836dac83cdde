//! The workflows over the directory: linking and unlinking accounts,
//! following a playlist from a channel, and planning the forward of a
//! posted track. Network work stays with the caller; every decision is
//! made here, with an exact contract.

use vstd::prelude::*;

use crate::auth::{authorize_url, authorize_url_chars, fresh_state_token};
use crate::directory::{
    find_credential, find_subscription, owned_channels, without_channel, without_credential,
    without_owner, Directory,
};
use crate::records::{
    credential_valid_at, is_token_text, token_text, CredentialRecord, CredentialView,
    SubscriptionRecord, SubscriptionView,
};
use crate::text::{alnum_char, alnum_text, has_prefix, range_has_prefix, range_is_alnum};
use crate::tracks::{search_spotify_link, spotify_link_in, track_id_of, track_uri_from_link};

verus! {

/// What a link request comes back with.
pub enum LinkStart {
    /// A credential already exists for the user; nothing to do.
    AlreadyLinked,
    /// No credential yet: the user must visit `url`, which carries the
    /// single-use `state` token.
    Authorize { url: String, state: String },
}

/// Why completing a link did not store a credential.
#[derive(Debug, PartialEq, Eq, Structural)]
pub enum LinkFailure {
    /// The exchange payload did not carry usable tokens.
    BadPayload,
    /// The token endpoint rejected the exchange; reported by the
    /// caller that performed it.
    ExchangeRejected,
}

/// Starts the link handshake: reports an existing link, or hands out
/// an authorization URL with a fresh unguessable state token.
pub fn request_link(dir: &Directory, user: u64, client_id: &str, redirect_uri: &str) -> (r:
    LinkStart)
    requires
        forall|i: int| 0 <= i < client_id@.len() ==> ((#[trigger] client_id@[i]) as u32) < 0x80,
        forall|i: int|
            0 <= i < redirect_uri@.len() ==> ((#[trigger] redirect_uri@[i]) as u32) < 0x80,
    ensures
        (match r {
            LinkStart::AlreadyLinked => find_credential(dir@.creds, user) is Some,
            LinkStart::Authorize { url, state } => {
                &&& find_credential(dir@.creds, user) is None
                &&& state@.len() == 32
                &&& forall|i: int| 0 <= i < state@.len() ==> alnum_char(#[trigger] state@[i])
                &&& url@ == authorize_url_chars(client_id@, redirect_uri@, state@)
            },
        }),
{
    if dir.get_credential(user).is_some() {
        return LinkStart::AlreadyLinked;
    }
    // one draw is 16 alphanumeric characters, about 95 bits; two give
    // the 16 bytes of entropy an unguessable state token calls for
    let mut state = fresh_state_token();
    let second = fresh_state_token();
    state.append(second.as_str());
    proof {
        assert forall|i: int| 0 <= i < state@.len() implies alnum_char(#[trigger] state@[i]) by {
            if i >= 16 {
                assert(state@[i] == second@[i - 16]);
            }
        }
    }
    let url = authorize_url(client_id, redirect_uri, state.as_str());
    LinkStart::Authorize { url, state }
}

/// Stores the credential a completed handshake produced, never
/// partially: a payload whose tokens cannot be stored is rejected
/// whole.
pub fn complete_link(
    dir: &mut Directory,
    user: u64,
    access_token: String,
    refresh_token: String,
    expires_at: u64,
) -> (r: Result<(), LinkFailure>)
    requires
        old(dir).wf(),
    ensures
        final(dir).wf(),
        r is Ok <==> token_text(access_token@) && token_text(refresh_token@),
        r is Ok ==> final(dir)@.subs == old(dir)@.subs && final(dir)@.creds == without_credential(
            old(dir)@.creds,
            user,
        ).push(
            (CredentialView {
                external_user_id: user,
                access_token: access_token@,
                refresh_token: refresh_token@,
                expires_at,
            }),
        ) && find_credential(final(dir)@.creds, user) == Some(
            (CredentialView {
                external_user_id: user,
                access_token: access_token@,
                refresh_token: refresh_token@,
                expires_at,
            }),
        ),
        r is Err ==> final(dir)@ == old(dir)@ && r == Err::<(), LinkFailure>(
            LinkFailure::BadPayload,
        ),
{
    if !is_token_text(access_token.as_str()) || !is_token_text(refresh_token.as_str()) {
        return Err(LinkFailure::BadPayload);
    }
    let rec = CredentialRecord { external_user_id: user, access_token, refresh_token, expires_at };
    dir.put_credential(rec);
    Ok(())
}

/// What an unlink came to.
#[derive(Debug, PartialEq, Eq, Structural)]
pub enum UnlinkOutcome {
    Unlinked,
    NotLinked,
}

/// Removes the user's credential and, unconditionally, every
/// subscription they own.
pub fn unlink(dir: &mut Directory, user: u64) -> (r: UnlinkOutcome)
    requires
        old(dir).wf(),
    ensures
        final(dir).wf(),
        final(dir)@.creds == without_credential(old(dir)@.creds, user),
        final(dir)@.subs == without_owner(old(dir)@.subs, user),
        find_credential(final(dir)@.creds, user) is None,
        owned_channels(final(dir)@.subs, user) == Seq::<u64>::empty(),
        r == UnlinkOutcome::Unlinked <==> find_credential(old(dir)@.creds, user) is Some,
{
    let had = dir.remove_credential(user);
    dir.purge(user);
    if had {
        UnlinkOutcome::Unlinked
    } else {
        UnlinkOutcome::NotLinked
    }
}

/// Why a follow was refused.
#[derive(Debug, PartialEq, Eq, Structural)]
pub enum FollowRejection {
    /// The playlist reference is not a canonical playlist URI.
    BadFormat,
    /// The requesting user has no stored credential.
    NotLinked,
    /// The stored credential is stale and could not be refreshed.
    CredentialExpired,
    /// The resolved playlist is not the requester's own.
    NotOwner,
    /// A call to the streaming service failed or returned nonsense.
    UpstreamError,
}

/// What a follow came to.
pub enum FollowOutcome {
    Followed { playlist_id: String },
    Rejected { reason: FollowRejection },
}

/// The id a canonical playlist URI carries, if the reference has the
/// canonical shape `spotify:playlist:` followed by a base-62 id.
pub open spec fn playlist_ref_id(s: Seq<char>) -> Option<Seq<char>> {
    let p = "spotify:playlist:"@;
    if has_prefix(s, p) && alnum_text(s.skip(p.len() as int)) {
        Some(s.skip(p.len() as int))
    } else {
        None
    }
}

/// Parses a playlist reference into the playlist id it names.
pub fn parse_playlist_reference(reference: &str) -> (r: Option<String>)
    ensures
        (match r {
            Some(id) => playlist_ref_id(reference@) == Some(id@),
            None => playlist_ref_id(reference@) is None,
        }),
{
    proof {
        reveal_strlit("spotify:playlist:");
    }
    let n = reference.unicode_len();
    proof {
        assert(reference@.subrange(0, n as int) =~= reference@);
    }
    if !range_has_prefix(reference, 0, n, "spotify:playlist:") {
        return None;
    }
    if !range_is_alnum(reference, 17, n) {
        proof {
            assert(reference@.subrange(17, n as int) =~= reference@.skip(17));
        }
        return None;
    }
    proof {
        assert(reference@.subrange(17, n as int) =~= reference@.skip(17));
    }
    let id = reference.substring_char(17, n);
    Some(id.to_owned())
}

/// What a follow request needs next.
pub enum FollowStart {
    /// Refused outright: a malformed reference or an unlinked user.
    Reject { reason: FollowRejection },
    /// The credential is stale: refresh it, then verify ownership of
    /// the named playlist.
    RefreshThenVerify { playlist_id: String },
    /// The credential is live: verify ownership of the named playlist.
    Verify { playlist_id: String },
}

/// The local half of a follow: validates the reference and the
/// requester's credential before any upstream call is made. A
/// malformed reference is refused with no other state consulted.
pub fn follow_begin(dir: &Directory, user: u64, playlist_reference: &str, now: u64) -> (r:
    FollowStart)
    ensures
        (match r {
            FollowStart::Reject { reason } => match reason {
                FollowRejection::BadFormat => playlist_ref_id(playlist_reference@) is None,
                FollowRejection::NotLinked => playlist_ref_id(playlist_reference@) is Some
                    && find_credential(dir@.creds, user) is None,
                _ => false,
            },
            FollowStart::RefreshThenVerify { playlist_id } => {
                &&& playlist_ref_id(playlist_reference@) == Some(playlist_id@)
                &&& match find_credential(dir@.creds, user) {
                    Some(cv) => !credential_valid_at(cv, now),
                    None => false,
                }
            },
            FollowStart::Verify { playlist_id } => {
                &&& playlist_ref_id(playlist_reference@) == Some(playlist_id@)
                &&& match find_credential(dir@.creds, user) {
                    Some(cv) => credential_valid_at(cv, now),
                    None => false,
                }
            },
        }),
{
    let parsed = parse_playlist_reference(playlist_reference);
    if parsed.is_none() {
        return FollowStart::Reject { reason: FollowRejection::BadFormat };
    }
    let playlist_id = parsed.unwrap();
    match dir.get_credential(user) {
        None => FollowStart::Reject { reason: FollowRejection::NotLinked },
        Some(cred) => {
            if crate::records::is_valid_token(cred, now) {
                FollowStart::Verify { playlist_id }
            } else {
                FollowStart::RefreshThenVerify { playlist_id }
            }
        },
    }
}

/// The closing half of a follow, once the caller has fetched the
/// requester's own profile id and resolved the playlist. Ownership
/// means the resolved id is exactly the requested one; on a mismatch
/// nothing is written.
pub fn follow_finish(
    dir: &mut Directory,
    channel_id: u64,
    user: u64,
    requested_playlist_id: String,
    profile_id: String,
    resolved_playlist_id: String,
) -> (r: FollowOutcome)
    requires
        old(dir).wf(),
    ensures
        final(dir).wf(),
        final(dir)@.creds == old(dir)@.creds,
        !alnum_text(requested_playlist_id@) ==> final(dir)@ == old(dir)@ && r
            == (FollowOutcome::Rejected { reason: FollowRejection::BadFormat }),
        alnum_text(requested_playlist_id@) && !(token_text(profile_id@) && token_text(
            resolved_playlist_id@,
        )) ==> final(dir)@ == old(dir)@ && r == (FollowOutcome::Rejected {
            reason: FollowRejection::UpstreamError,
        }),
        alnum_text(requested_playlist_id@) && token_text(profile_id@) && token_text(
            resolved_playlist_id@,
        ) && resolved_playlist_id@ != requested_playlist_id@ ==> final(dir)@ == old(dir)@ && r
            == (FollowOutcome::Rejected { reason: FollowRejection::NotOwner }),
        alnum_text(requested_playlist_id@) && token_text(profile_id@) && token_text(
            resolved_playlist_id@,
        ) && resolved_playlist_id@ == requested_playlist_id@ ==> {
            &&& final(dir)@.subs == without_channel(old(dir)@.subs, channel_id).push(
                (SubscriptionView {
                    channel_id,
                    owner_user_id: user,
                    target_user_id: profile_id@,
                    playlist_id: resolved_playlist_id@,
                }),
            )
            &&& (r matches FollowOutcome::Followed { playlist_id } && playlist_id@
                == resolved_playlist_id@)
        },
{
    if !is_alnum_string(&requested_playlist_id) {
        return FollowOutcome::Rejected { reason: FollowRejection::BadFormat };
    }
    if !is_token_text(profile_id.as_str()) || !is_token_text(resolved_playlist_id.as_str()) {
        return FollowOutcome::Rejected { reason: FollowRejection::UpstreamError };
    }
    if !strings_equal(&resolved_playlist_id, &requested_playlist_id) {
        return FollowOutcome::Rejected { reason: FollowRejection::NotOwner };
    }
    let rec = SubscriptionRecord {
        channel_id,
        owner_user_id: user,
        target_user_id: profile_id,
        playlist_id: resolved_playlist_id.clone(),
    };
    proof {
        assert forall|i: int| 0 <= i < resolved_playlist_id@.len() implies crate::records::token_char(
            #[trigger] resolved_playlist_id@[i],
        ) by {
            assert(alnum_char(resolved_playlist_id@[i]));
        }
    }
    dir.put_subscription(rec);
    FollowOutcome::Followed { playlist_id: resolved_playlist_id }
}

/// Decides `alnum_text` for a whole string.
fn is_alnum_string(s: &String) -> (r: bool)
    ensures
        r == alnum_text(s@),
{
    let st = s.as_str();
    let n = st.unicode_len();
    proof {
        assert(st@.subrange(0, n as int) =~= s@);
    }
    range_is_alnum(st, 0, n)
}

/// Whether two strings spell the same characters.
fn strings_equal(a: &String, b: &String) -> (r: bool)
    ensures
        r == (a@ == b@),
{
    *a == *b
}

/// Why a refresh could not be applied.
#[derive(Debug, PartialEq, Eq, Structural)]
pub enum RefreshError {
    /// No credential is stored for the user.
    NotLinked,
    /// The endpoint's reply did not carry storable tokens.
    MalformedToken,
}

/// Stores the outcome of a token refresh: a new access token and
/// expiry, and the rotated refresh token when the provider sent one,
/// else the stored one. On any error the directory is untouched.
pub fn apply_refresh(
    dir: &mut Directory,
    user: u64,
    access_token: String,
    rotated_refresh_token: Option<String>,
    expires_at: u64,
) -> (r: Result<(), RefreshError>)
    requires
        old(dir).wf(),
    ensures
        final(dir).wf(),
        final(dir)@.subs == old(dir)@.subs,
        (match find_credential(old(dir)@.creds, user) {
            None => r == Err::<(), RefreshError>(RefreshError::NotLinked) && final(dir)@ == old(
                dir,
            )@,
            Some(cv) => {
                let kept = match rotated_refresh_token {
                    Some(t) => t@,
                    None => cv.refresh_token,
                };
                if token_text(access_token@) && token_text(kept) {
                    r is Ok && final(dir)@.creds == without_credential(old(dir)@.creds, user).push(
                        (CredentialView {
                            external_user_id: user,
                            access_token: access_token@,
                            refresh_token: kept,
                            expires_at,
                        }),
                    ) && find_credential(final(dir)@.creds, user) == Some(
                        (CredentialView {
                            external_user_id: user,
                            access_token: access_token@,
                            refresh_token: kept,
                            expires_at,
                        }),
                    )
                } else {
                    r == Err::<(), RefreshError>(RefreshError::MalformedToken) && final(dir)@
                        == old(dir)@
                }
            },
        }),
{
    let existing = match dir.get_credential(user) {
        None => {
            return Err(RefreshError::NotLinked);
        },
        Some(c) => c.clone_record(),
    };
    let kept_refresh = match rotated_refresh_token {
        Some(t) => t,
        None => existing.refresh_token,
    };
    if !is_token_text(access_token.as_str()) || !is_token_text(kept_refresh.as_str()) {
        return Err(RefreshError::MalformedToken);
    }
    let rec = CredentialRecord {
        external_user_id: user,
        access_token,
        refresh_token: kept_refresh,
        expires_at,
    };
    dir.put_credential(rec);
    Ok(())
}

/// Why an inbound message leads to no forward.
#[derive(Debug, PartialEq, Eq, Structural)]
pub enum SkipReason {
    /// The channel has no subscription.
    NoSubscription,
    /// The message carries no track link.
    NoTrackLink,
    /// The subscription's owner has no stored credential.
    NoCredential,
}

/// What an inbound message asks the caller to do.
pub enum ForwardPlan {
    /// Nothing: always a silent no-op, never an error.
    Skip { reason: SkipReason },
    /// Append `track_uri` to `playlist_id` in `target_user_id`'s
    /// catalog as `owner_user_id`, at `position`; refresh the owner's
    /// credential first when `needs_refresh` holds, and persist the
    /// directory afterwards if a refresh was applied.
    Append {
        owner_user_id: u64,
        target_user_id: String,
        playlist_id: String,
        track_uri: String,
        position: u32,
        needs_refresh: bool,
    },
}

/// Plans the forward for one inbound channel message: resolves the
/// subscription, extracts the track link, resolves the owner's
/// credential and decides whether it must be refreshed first. Tracks
/// are inserted at position 0, newest first.
pub fn forward_plan(dir: &Directory, channel_id: u64, message: &str, now: u64) -> (r: ForwardPlan)
    ensures
        (match find_subscription(dir@.subs, channel_id) {
            None => r == (ForwardPlan::Skip { reason: SkipReason::NoSubscription }),
            Some(sv) => match spotify_link_in(message@) {
                None => r == (ForwardPlan::Skip { reason: SkipReason::NoTrackLink }),
                Some(link) => match find_credential(dir@.creds, sv.owner_user_id) {
                    None => r == (ForwardPlan::Skip { reason: SkipReason::NoCredential }),
                    Some(cv) => r matches ForwardPlan::Append {
                        owner_user_id,
                        target_user_id,
                        playlist_id,
                        track_uri,
                        position,
                        needs_refresh,
                    } && owner_user_id == sv.owner_user_id && target_user_id@ == sv.target_user_id
                        && playlist_id@ == sv.playlist_id && track_uri@ == "spotify:track:"@
                        + track_id_of(link) && position == 0 && needs_refresh
                        == !credential_valid_at(cv, now),
                },
            },
        }),
{
    let sub = match dir.get_subscription(channel_id) {
        None => {
            return ForwardPlan::Skip { reason: SkipReason::NoSubscription };
        },
        Some(s) => s.clone_record(),
    };
    let link = match search_spotify_link(message) {
        None => {
            return ForwardPlan::Skip { reason: SkipReason::NoTrackLink };
        },
        Some(l) => l,
    };
    let cred = match dir.get_credential(sub.owner_user_id) {
        None => {
            return ForwardPlan::Skip { reason: SkipReason::NoCredential };
        },
        Some(c) => c.clone_record(),
    };
    let needs_refresh = !crate::records::is_valid_token(&cred, now);
    let track_uri = track_uri_from_link(link.as_str());
    ForwardPlan::Append {
        owner_user_id: sub.owner_user_id,
        target_user_id: sub.target_user_id,
        playlist_id: sub.playlist_id,
        track_uri,
        position: 0,
        needs_refresh,
    }
}

/// The playlist link a channel is bound to, for the `info` command.
pub fn info(dir: &Directory, channel_id: u64) -> (r: Option<String>)
    ensures
        (match find_subscription(dir@.subs, channel_id) {
            Some(sv) => r matches Some(link) && link@ == "https://open.spotify.com/playlist/"@
                + sv.playlist_id,
            None => r is None,
        }),
{
    match dir.get_subscription(channel_id) {
        None => None,
        Some(sub) => Some(
            crate::tracks::create_spotify_playlist_link(sub.playlist_id.as_str()),
        ),
    }
}

} // verus!
