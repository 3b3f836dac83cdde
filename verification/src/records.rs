//! The two record types held by the directory: one OAuth credential per
//! linked user, one playlist subscription per channel.

use vstd::prelude::*;

verus! {

/// Seconds of clock skew allowed for when a credential is considered live.
pub const TOKEN_VALIDITY_SKEW_SECONDS: u64 = 10;

/// A character that may appear in a stored token or identifier: printable
/// ASCII, excluding the space and newline that delimit snapshot fields.
pub open spec fn token_char(c: char) -> bool {
    0x21 <= c as u32 && c as u32 <= 0x7e
}

/// Shape of every string stored in the directory: non-empty printable
/// ASCII without separators, so a snapshot line holds it verbatim.
pub open spec fn token_text(s: Seq<char>) -> bool {
    &&& s.len() >= 1
    &&& forall|i: int| 0 <= i < s.len() ==> token_char(#[trigger] s[i])
}

/// Decides `token_text` for a string.
pub fn is_token_text(s: &str) -> (r: bool)
    ensures
        r == token_text(s@),
{
    let n = s.unicode_len();
    if n == 0 {
        return false;
    }
    let mut i: usize = 0;
    while i < n
        invariant
            n == s@.len(),
            i <= n,
            forall|j: int| 0 <= j < i ==> token_char(#[trigger] s@[j]),
        decreases n - i,
    {
        let c = s.get_char(i);
        let v = c as u32;
        if v < 0x21 || v > 0x7e {
            return false;
        }
        i += 1;
    }
    true
}

/// The OAuth credential stored for one linked chat user.
pub struct CredentialRecord {
    /// Chat-side identifier of the user this credential belongs to.
    pub external_user_id: u64,
    pub access_token: String,
    pub refresh_token: String,
    /// Absolute expiry timestamp, in seconds.
    pub expires_at: u64,
}

/// Mathematical value of a `CredentialRecord`.
#[verifier::ext_equal]
pub ghost struct CredentialView {
    pub external_user_id: u64,
    pub access_token: Seq<char>,
    pub refresh_token: Seq<char>,
    pub expires_at: u64,
}

impl View for CredentialRecord {
    type V = CredentialView;

    open spec fn view(&self) -> CredentialView {
        CredentialView {
            external_user_id: self.external_user_id,
            access_token: self.access_token@,
            refresh_token: self.refresh_token@,
            expires_at: self.expires_at,
        }
    }
}

impl CredentialView {
    /// Both secrets have the shape every stored string must have.
    pub open spec fn wf(self) -> bool {
        &&& token_text(self.access_token)
        &&& token_text(self.refresh_token)
    }
}

/// A credential is live at `now` only with some margin to spare, so a
/// token that expires mid-operation is already treated as stale.
pub open spec fn credential_valid_at(c: CredentialView, now: u64) -> bool {
    now + TOKEN_VALIDITY_SKEW_SECONDS < c.expires_at
}

/// Whether `credential` can still be used at time `now` (seconds).
pub fn is_valid_token(credential: &CredentialRecord, now: u64) -> (r: bool)
    ensures
        r == credential_valid_at(credential@, now),
{
    credential.expires_at > TOKEN_VALIDITY_SKEW_SECONDS && now < credential.expires_at
        - TOKEN_VALIDITY_SKEW_SECONDS
}

/// One channel's binding to one playlist and the user whose credential
/// feeds it.
pub struct SubscriptionRecord {
    pub channel_id: u64,
    /// Chat-side user who created the subscription; their credential is
    /// used for every forward.
    pub owner_user_id: u64,
    /// Streaming-service account that owns the playlist, fixed at
    /// follow time.
    pub target_user_id: String,
    pub playlist_id: String,
}

/// Mathematical value of a `SubscriptionRecord`.
#[verifier::ext_equal]
pub ghost struct SubscriptionView {
    pub channel_id: u64,
    pub owner_user_id: u64,
    pub target_user_id: Seq<char>,
    pub playlist_id: Seq<char>,
}

impl View for SubscriptionRecord {
    type V = SubscriptionView;

    open spec fn view(&self) -> SubscriptionView {
        SubscriptionView {
            channel_id: self.channel_id,
            owner_user_id: self.owner_user_id,
            target_user_id: self.target_user_id@,
            playlist_id: self.playlist_id@,
        }
    }
}

impl SubscriptionView {
    /// Both identifiers have the shape every stored string must have.
    pub open spec fn wf(self) -> bool {
        &&& token_text(self.target_user_id)
        &&& token_text(self.playlist_id)
    }
}

} // verus!
