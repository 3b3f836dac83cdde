//! The shared directory: every linked credential and every channel
//! subscription, with at most one entry per user and per channel.

use vstd::prelude::*;

use crate::records::{CredentialRecord, CredentialView, SubscriptionRecord, SubscriptionView};

verus! {

/// The credential stored for `user`, if any.
pub open spec fn find_credential(s: Seq<CredentialView>, user: u64) -> Option<CredentialView>
    decreases s.len(),
{
    if s.len() == 0 {
        None
    } else if s.last().external_user_id == user {
        Some(s.last())
    } else {
        find_credential(s.drop_last(), user)
    }
}

/// The subscription stored for `channel`, if any.
pub open spec fn find_subscription(s: Seq<SubscriptionView>, channel: u64) -> Option<
    SubscriptionView,
>
    decreases s.len(),
{
    if s.len() == 0 {
        None
    } else if s.last().channel_id == channel {
        Some(s.last())
    } else {
        find_subscription(s.drop_last(), channel)
    }
}

/// The credentials left once `user`'s entry is dropped.
pub open spec fn without_credential(s: Seq<CredentialView>, user: u64) -> Seq<CredentialView>
    decreases s.len(),
{
    if s.len() == 0 {
        Seq::empty()
    } else if s.last().external_user_id == user {
        without_credential(s.drop_last(), user)
    } else {
        without_credential(s.drop_last(), user).push(s.last())
    }
}

/// The subscriptions left once `channel`'s entry is dropped.
pub open spec fn without_channel(s: Seq<SubscriptionView>, channel: u64) -> Seq<SubscriptionView>
    decreases s.len(),
{
    if s.len() == 0 {
        Seq::empty()
    } else if s.last().channel_id == channel {
        without_channel(s.drop_last(), channel)
    } else {
        without_channel(s.drop_last(), channel).push(s.last())
    }
}

/// The subscriptions left once every entry owned by `user` is dropped.
pub open spec fn without_owner(s: Seq<SubscriptionView>, user: u64) -> Seq<SubscriptionView>
    decreases s.len(),
{
    if s.len() == 0 {
        Seq::empty()
    } else if s.last().owner_user_id == user {
        without_owner(s.drop_last(), user)
    } else {
        without_owner(s.drop_last(), user).push(s.last())
    }
}

/// The channels of every subscription owned by `user`, in storage order.
pub open spec fn owned_channels(s: Seq<SubscriptionView>, user: u64) -> Seq<u64>
    decreases s.len(),
{
    if s.len() == 0 {
        Seq::empty()
    } else if s.last().owner_user_id == user {
        owned_channels(s.drop_last(), user).push(s.last().channel_id)
    } else {
        owned_channels(s.drop_last(), user)
    }
}

/// No two stored credentials belong to the same user.
pub open spec fn credential_users_unique(s: Seq<CredentialView>) -> bool {
    forall|i: int, j: int|
        0 <= i < j < s.len() ==> s[i].external_user_id != s[j].external_user_id
}

/// No two stored subscriptions watch the same channel.
pub open spec fn sub_channels_unique(s: Seq<SubscriptionView>) -> bool {
    forall|i: int, j: int| 0 <= i < j < s.len() ==> s[i].channel_id != s[j].channel_id
}

/// Mathematical value of the whole directory.
#[verifier::ext_equal]
pub ghost struct DirectoryView {
    pub creds: Seq<CredentialView>,
    pub subs: Seq<SubscriptionView>,
}

impl DirectoryView {
    /// Keys are unique and every stored string is snapshot-safe.
    pub open spec fn wf(self) -> bool {
        &&& credential_users_unique(self.creds)
        &&& sub_channels_unique(self.subs)
        &&& forall|i: int| 0 <= i < self.creds.len() ==> (#[trigger] self.creds[i]).wf()
        &&& forall|i: int| 0 <= i < self.subs.len() ==> (#[trigger] self.subs[i]).wf()
    }
}

/// Once the subscriptions of `user` are purged, no channel remains
/// listed for that user, whatever was subscribed before: an unlink is
/// always followed by an empty channel list.
pub proof fn lemma_purge_leaves_no_channels(s: Seq<SubscriptionView>, user: u64)
    ensures
        owned_channels(without_owner(s, user), user) == Seq::<u64>::empty(),
{
    lemma_without_owner(s, user);
}

/// At most one subscription record ever exists for a channel: two
/// entries on the same channel are the same entry.
pub proof fn lemma_at_most_one_subscription(s: Seq<SubscriptionView>, i: int, j: int)
    requires
        sub_channels_unique(s),
        0 <= i < s.len(),
        0 <= j < s.len(),
        s[i].channel_id == s[j].channel_id,
    ensures
        i == j,
{
}

/// A lookup misses exactly when no entry carries the key.
pub proof fn lemma_find_credential_none_iff(s: Seq<CredentialView>, user: u64)
    ensures
        (find_credential(s, user) is None) <==> (forall|i: int|
            0 <= i < s.len() ==> (#[trigger] s[i]).external_user_id != user),
    decreases s.len(),
{
    if s.len() > 0 {
        lemma_find_credential_none_iff(s.drop_last(), user);
        assert(forall|i: int| 0 <= i < s.len() - 1 ==> s.drop_last()[i] == #[trigger] s[i]);
        assert(s.last() == s[s.len() - 1]);
    }
}

/// A lookup misses exactly when no entry carries the key.
pub proof fn lemma_find_subscription_none_iff(s: Seq<SubscriptionView>, channel: u64)
    ensures
        (find_subscription(s, channel) is None) <==> (forall|i: int|
            0 <= i < s.len() ==> (#[trigger] s[i]).channel_id != channel),
    decreases s.len(),
{
    if s.len() > 0 {
        lemma_find_subscription_none_iff(s.drop_last(), channel);
        assert(forall|i: int| 0 <= i < s.len() - 1 ==> s.drop_last()[i] == #[trigger] s[i]);
        assert(s.last() == s[s.len() - 1]);
    }
}

/// What dropping one user's credential does to lookups, uniqueness and
/// membership.
pub proof fn lemma_without_credential(s: Seq<CredentialView>, user: u64)
    ensures
        find_credential(without_credential(s, user), user) is None,
        forall|w: u64|
            w != user ==> #[trigger] find_credential(without_credential(s, user), w)
                == find_credential(s, w),
        credential_users_unique(s) ==> credential_users_unique(without_credential(s, user)),
        without_credential(s, user).len() <= s.len(),
        forall|i: int|
            0 <= i < without_credential(s, user).len() ==> s.contains(
                #[trigger] without_credential(s, user)[i],
            ),
    decreases s.len(),
{
    if s.len() > 0 {
        lemma_without_credential(s.drop_last(), user);
        let r = without_credential(s, user);
        let rp = without_credential(s.drop_last(), user);
        assert(forall|i: int| 0 <= i < s.drop_last().len() ==> s.drop_last()[i] == s[i]);
        assert forall|w: u64| w != user implies #[trigger] find_credential(r, w)
            == find_credential(s, w) by {
            if s.last().external_user_id == user {
                assert(r == rp);
                assert(find_credential(rp, w) == find_credential(s.drop_last(), w));
            } else {
                assert(r == rp.push(s.last()));
                assert(r.drop_last() =~= rp);
                assert(r.last() == s.last());
                if s.last().external_user_id != w {
                    assert(find_credential(r, w) == find_credential(rp, w));
                    assert(find_credential(rp, w) == find_credential(s.drop_last(), w));
                }
            }
        }
        if s.last().external_user_id != user {
            assert(r == rp.push(s.last()));
            assert(r.drop_last() =~= rp);
            assert(r.last() == s.last());
            lemma_find_credential_none_iff(rp, s.last().external_user_id);
            if credential_users_unique(s) {
                assert(forall|i: int|
                    0 <= i < rp.len() ==> #[trigger] r[i] == rp[i] && s.contains(rp[i]));
                assert forall|i: int, j: int| 0 <= i < j < r.len() implies r[i].external_user_id
                    != r[j].external_user_id by {
                    if j == r.len() - 1 {
                        let k = choose|k: int| 0 <= k < s.drop_last().len() && s.drop_last()[k] == r[i];
                        assert(s[k] == r[i]);
                    }
                }
            }
        }
    }
}

/// What dropping one channel's subscription does to lookups, uniqueness
/// and membership.
pub proof fn lemma_without_channel(s: Seq<SubscriptionView>, channel: u64)
    ensures
        find_subscription(without_channel(s, channel), channel) is None,
        forall|w: u64|
            w != channel ==> #[trigger] find_subscription(without_channel(s, channel), w)
                == find_subscription(s, w),
        sub_channels_unique(s) ==> sub_channels_unique(without_channel(s, channel)),
        without_channel(s, channel).len() <= s.len(),
        forall|i: int|
            0 <= i < without_channel(s, channel).len() ==> s.contains(
                #[trigger] without_channel(s, channel)[i],
            ),
    decreases s.len(),
{
    if s.len() > 0 {
        lemma_without_channel(s.drop_last(), channel);
        let r = without_channel(s, channel);
        let rp = without_channel(s.drop_last(), channel);
        assert(forall|i: int| 0 <= i < s.drop_last().len() ==> s.drop_last()[i] == s[i]);
        assert forall|w: u64| w != channel implies #[trigger] find_subscription(r, w)
            == find_subscription(s, w) by {
            if s.last().channel_id == channel {
                assert(r == rp);
                assert(find_subscription(rp, w) == find_subscription(s.drop_last(), w));
            } else {
                assert(r == rp.push(s.last()));
                assert(r.drop_last() =~= rp);
                assert(r.last() == s.last());
                if s.last().channel_id != w {
                    assert(find_subscription(r, w) == find_subscription(rp, w));
                    assert(find_subscription(rp, w) == find_subscription(s.drop_last(), w));
                }
            }
        }
        if s.last().channel_id != channel {
            assert(r == rp.push(s.last()));
            assert(r.drop_last() =~= rp);
            assert(r.last() == s.last());
            lemma_find_subscription_none_iff(rp, s.last().channel_id);
            if sub_channels_unique(s) {
                assert(forall|i: int|
                    0 <= i < rp.len() ==> #[trigger] r[i] == rp[i] && s.contains(rp[i]));
                assert forall|i: int, j: int| 0 <= i < j < r.len() implies r[i].channel_id
                    != r[j].channel_id by {
                    if j == r.len() - 1 {
                        let k = choose|k: int| 0 <= k < s.drop_last().len() && s.drop_last()[k] == r[i];
                        assert(s[k] == r[i]);
                    }
                }
            }
        }
    }
}

/// What purging one owner's subscriptions does to lookups, uniqueness
/// and membership.
pub proof fn lemma_without_owner(s: Seq<SubscriptionView>, user: u64)
    ensures
        sub_channels_unique(s) ==> forall|w: u64|
            #[trigger] find_subscription(without_owner(s, user), w) == (
            match find_subscription(s, w) {
                Some(sv) => if sv.owner_user_id == user {
                    None
                } else {
                    Some(sv)
                },
                None => None,
            }),
        sub_channels_unique(s) ==> sub_channels_unique(without_owner(s, user)),
        without_owner(s, user).len() <= s.len(),
        forall|i: int|
            0 <= i < without_owner(s, user).len() ==> s.contains(
                #[trigger] without_owner(s, user)[i],
            ),
        owned_channels(without_owner(s, user), user) == Seq::<u64>::empty(),
        without_owner(s, user).len() + owned_channels(s, user).len() == s.len(),
    decreases s.len(),
{
    if s.len() > 0 {
        lemma_without_owner(s.drop_last(), user);
        let r = without_owner(s, user);
        let rp = without_owner(s.drop_last(), user);
        assert(forall|i: int| 0 <= i < s.drop_last().len() ==> s.drop_last()[i] == s[i]);
        if sub_channels_unique(s) {
            assert(sub_channels_unique(s.drop_last()));
            assert forall|w: u64| #[trigger] find_subscription(r, w) == (
            match find_subscription(s, w) {
                Some(sv) => if sv.owner_user_id == user {
                    None
                } else {
                    Some(sv)
                },
                None => None,
            }) by {
                if s.last().owner_user_id == user {
                    assert(r == rp);
                    if w == s.last().channel_id {
                        lemma_find_subscription_none_iff(s.drop_last(), w);
                        assert(forall|i: int|
                            0 <= i < s.len() - 1 ==> (#[trigger] s[i]).channel_id
                                != s.last().channel_id);
                        assert(find_subscription(s.drop_last(), w) is None);
                    } else {
                        assert(find_subscription(s, w) == find_subscription(s.drop_last(), w));
                    }
                } else {
                    assert(r == rp.push(s.last()));
                    assert(r.drop_last() =~= rp);
                    assert(r.last() == s.last());
                    if w != s.last().channel_id {
                        assert(find_subscription(r, w) == find_subscription(rp, w));
                        assert(find_subscription(s, w) == find_subscription(s.drop_last(), w));
                    }
                }
            }
        }
        if s.last().owner_user_id != user {
            assert(r == rp.push(s.last()));
            assert(r.drop_last() =~= rp);
            assert(r.last() == s.last());
            if sub_channels_unique(s) {
                lemma_find_subscription_none_iff(s.drop_last(), s.last().channel_id);
                lemma_find_subscription_none_iff(rp, s.last().channel_id);
                assert(forall|i: int|
                    0 <= i < rp.len() ==> #[trigger] r[i] == rp[i] && s.contains(rp[i]));
                assert forall|i: int, j: int| 0 <= i < j < r.len() implies r[i].channel_id
                    != r[j].channel_id by {
                    if j == r.len() - 1 {
                        let k = choose|k: int| 0 <= k < s.drop_last().len() && s.drop_last()[k] == r[i];
                        assert(s[k] == r[i]);
                    }
                }
            }
            assert(owned_channels(r, user) == owned_channels(rp, user));
        }
    }
}

/// The in-memory directory. Key uniqueness is part of `wf` and every
/// operation preserves it.
pub struct Directory {
    creds: Vec<CredentialRecord>,
    subs: Vec<SubscriptionRecord>,
}

impl View for Directory {
    type V = DirectoryView;

    closed spec fn view(&self) -> DirectoryView {
        DirectoryView {
            creds: self.creds@.map_values(|r: CredentialRecord| r@),
            subs: self.subs@.map_values(|r: SubscriptionRecord| r@),
        }
    }
}

impl Directory {
    pub open spec fn wf(&self) -> bool {
        self@.wf()
    }

    /// The empty directory of a first start.
    pub fn new() -> (r: Directory)
        ensures
            r.wf(),
            r@.creds == Seq::<CredentialView>::empty(),
            r@.subs == Seq::<SubscriptionView>::empty(),
    {
        let r = Directory { creds: Vec::new(), subs: Vec::new() };
        proof {
            assert(r@.creds =~= Seq::<CredentialView>::empty());
            assert(r@.subs =~= Seq::<SubscriptionView>::empty());
        }
        r
    }

    /// Builds a directory from already-validated records; the snapshot
    /// loader is its one caller.
    pub fn from_records(creds: Vec<CredentialRecord>, subs: Vec<SubscriptionRecord>) -> (r:
        Directory)
        ensures
            r@.creds == creds@.map_values(|c: CredentialRecord| c@),
            r@.subs == subs@.map_values(|c: SubscriptionRecord| c@),
    {
        Directory { creds, subs }
    }

    /// Credential lookup: `get` of the credential store.
    pub fn get_credential(&self, user: u64) -> (r: Option<&CredentialRecord>)
        ensures
            match r {
                Some(c) => find_credential(self@.creds, user) == Some(c@),
                None => find_credential(self@.creds, user) is None,
            },
    {
        proof {
            assert(self@.creds.take(self.creds@.len() as int) =~= self@.creds);
        }
        let mut i: usize = self.creds.len();
        while i > 0
            invariant
                i <= self.creds@.len(),
                self@.creds.len() == self.creds@.len(),
                find_credential(self@.creds, user) == find_credential(
                    self@.creds.take(i as int),
                    user,
                ),
            decreases i,
        {
            i = i - 1;
            proof {
                assert(self@.creds.take(i + 1).drop_last() =~= self@.creds.take(i as int));
                assert(self@.creds.take(i + 1).last() == self@.creds[i as int]);
            }
            if self.creds[i].external_user_id == user {
                return Some(&self.creds[i]);
            }
        }
        None
    }

    /// Subscription lookup by channel.
    pub fn get_subscription(&self, channel: u64) -> (r: Option<&SubscriptionRecord>)
        ensures
            match r {
                Some(c) => find_subscription(self@.subs, channel) == Some(c@),
                None => find_subscription(self@.subs, channel) is None,
            },
    {
        proof {
            assert(self@.subs.take(self.subs@.len() as int) =~= self@.subs);
        }
        let mut i: usize = self.subs.len();
        while i > 0
            invariant
                i <= self.subs@.len(),
                self@.subs.len() == self.subs@.len(),
                find_subscription(self@.subs, channel) == find_subscription(
                    self@.subs.take(i as int),
                    channel,
                ),
            decreases i,
        {
            i = i - 1;
            proof {
                assert(self@.subs.take(i + 1).drop_last() =~= self@.subs.take(i as int));
                assert(self@.subs.take(i + 1).last() == self@.subs[i as int]);
            }
            if self.subs[i].channel_id == channel {
                return Some(&self.subs[i]);
            }
        }
        None
    }

    /// Removes `user`'s credential; true when one existed. Subscriptions
    /// are untouched: the caller decides whether to purge them.
    pub fn remove_credential(&mut self, user: u64) -> (r: bool)
        requires
            old(self).wf(),
        ensures
            final(self).wf(),
            final(self)@.subs == old(self)@.subs,
            final(self)@.creds == without_credential(old(self)@.creds, user),
            find_credential(final(self)@.creds, user) is None,
            forall|w: u64|
                w != user ==> #[trigger] find_credential(final(self)@.creds, w) == find_credential(
                    old(self)@.creds,
                    w,
                ),
            r == (find_credential(old(self)@.creds, user) is Some),
    {
        let ghost orig = self@.creds;
        let mut kept: Vec<CredentialRecord> = Vec::new();
        let mut found = false;
        let mut i: usize = 0;
        proof {
            assert(orig.take(0) =~= Seq::<CredentialView>::empty());
            assert(kept@.map_values(|r: CredentialRecord| r@) =~= Seq::<CredentialView>::empty());
        }
        while i < self.creds.len()
            invariant
                i <= self.creds@.len(),
                self@.creds == orig,
                self@.creds.len() == self.creds@.len(),
                kept@.map_values(|r: CredentialRecord| r@) == without_credential(
                    orig.take(i as int),
                    user,
                ),
                found == (find_credential(orig.take(i as int), user) is Some),
                forall|j: int| 0 <= j < kept@.len() ==> orig.contains(#[trigger] kept@[j]@),
            decreases self.creds@.len() - i,
        {
            proof {
                assert(orig.take(i + 1).drop_last() =~= orig.take(i as int));
                assert(orig.take(i + 1).last() == orig[i as int]);
            }
            let rec = &self.creds[i];
            if rec.external_user_id == user {
                found = true;
            } else {
                let ghost prev = kept@.map_values(|r: CredentialRecord| r@);
                kept.push(self.creds[i].clone_record());
                proof {
                    assert(kept@.map_values(|r: CredentialRecord| r@) =~= prev.push(
                        orig[i as int],
                    ));
                    assert(orig.contains(orig[i as int]));
                }
            }
            i = i + 1;
        }
        proof {
            assert(orig.take(orig.len() as int) =~= orig);
            lemma_without_credential(orig, user);
            lemma_find_credential_none_iff(orig, user);
        }
        self.creds = kept;
        proof {
            assert forall|k: int| 0 <= k < self@.creds.len() implies (
            #[trigger] self@.creds[k]).wf() by {
                assert(orig.contains(self@.creds[k]));
                let m = choose|m: int| 0 <= m < orig.len() && orig[m] == self@.creds[k];
                assert(orig[m].wf());
            }
        }
        found
    }

    /// Inserts or overwrites `user`'s credential: `put` of the
    /// credential store.
    pub fn put_credential(&mut self, rec: CredentialRecord)
        requires
            old(self).wf(),
            rec@.wf(),
        ensures
            final(self).wf(),
            final(self)@.subs == old(self)@.subs,
            final(self)@.creds == without_credential(old(self)@.creds, rec.external_user_id).push(
                rec@,
            ),
            find_credential(final(self)@.creds, rec.external_user_id) == Some(rec@),
            forall|w: u64|
                w != rec.external_user_id ==> #[trigger] find_credential(final(self)@.creds, w)
                    == find_credential(old(self)@.creds, w),
    {
        proof {
            lemma_without_credential(old(self)@.creds, rec.external_user_id);
        }
        let user = rec.external_user_id;
        self.remove_credential(user);
        let ghost mid = self@.creds;
        self.creds.push(rec);
        proof {
            assert(self@.creds =~= mid.push(rec@));
            assert(self@.creds.drop_last() =~= mid);
            assert(self@.creds.last() == rec@);
            assert forall|w: u64| w != rec.external_user_id implies #[trigger] find_credential(
                self@.creds,
                w,
            ) == find_credential(old(self)@.creds, w) by {
                assert(find_credential(self@.creds, w) == find_credential(mid, w));
            }
            lemma_find_credential_none_iff(mid, user);
            assert forall|i: int, j: int| 0 <= i < j < self@.creds.len() implies self@.creds[i].external_user_id
                != self@.creds[j].external_user_id by {
                if j == self@.creds.len() - 1 {
                    assert(self@.creds[i] == mid[i]);
                }
            }
            assert forall|k: int| 0 <= k < self@.creds.len() implies (
            #[trigger] self@.creds[k]).wf() by {
                if k < self@.creds.len() - 1 {
                    assert(self@.creds[k] == mid[k]);
                }
            }
            assert(self@.wf());
        }
    }

    /// Inserts or overwrites `channel`'s subscription: the latest follow
    /// replaces any prior one for that channel.
    pub fn put_subscription(&mut self, rec: SubscriptionRecord)
        requires
            old(self).wf(),
            rec@.wf(),
        ensures
            final(self).wf(),
            final(self)@.creds == old(self)@.creds,
            final(self)@.subs == without_channel(old(self)@.subs, rec.channel_id).push(rec@),
            find_subscription(final(self)@.subs, rec.channel_id) == Some(rec@),
            forall|w: u64|
                w != rec.channel_id ==> #[trigger] find_subscription(final(self)@.subs, w)
                    == find_subscription(old(self)@.subs, w),
    {
        proof {
            lemma_without_channel(old(self)@.subs, rec.channel_id);
        }
        let ghost orig = self@.subs;
        let channel = rec.channel_id;
        let mut kept: Vec<SubscriptionRecord> = Vec::new();
        let mut i: usize = 0;
        proof {
            assert(orig.take(0) =~= Seq::<SubscriptionView>::empty());
            assert(kept@.map_values(|r: SubscriptionRecord| r@) =~= Seq::<
                SubscriptionView,
            >::empty());
        }
        while i < self.subs.len()
            invariant
                i <= self.subs@.len(),
                self@.subs == orig,
                self@.subs.len() == self.subs@.len(),
                kept@.map_values(|r: SubscriptionRecord| r@) == without_channel(
                    orig.take(i as int),
                    channel,
                ),
            decreases self.subs@.len() - i,
        {
            proof {
                assert(orig.take(i + 1).drop_last() =~= orig.take(i as int));
                assert(orig.take(i + 1).last() == orig[i as int]);
            }
            if self.subs[i].channel_id != channel {
                let ghost prev = kept@.map_values(|r: SubscriptionRecord| r@);
                kept.push(self.subs[i].clone_record());
                proof {
                    assert(kept@.map_values(|r: SubscriptionRecord| r@) =~= prev.push(
                        orig[i as int],
                    ));
                }
            }
            i = i + 1;
        }
        proof {
            assert(orig.take(orig.len() as int) =~= orig);
        }
        let ghost mid = without_channel(orig, channel);
        kept.push(rec);
        self.subs = kept;
        proof {
            assert(self@.subs =~= mid.push(rec@));
            assert(self@.subs.drop_last() =~= mid);
            assert(self@.subs.last() == rec@);
            assert forall|w: u64| w != rec.channel_id implies #[trigger] find_subscription(
                self@.subs,
                w,
            ) == find_subscription(old(self)@.subs, w) by {
                assert(find_subscription(self@.subs, w) == find_subscription(mid, w));
            }
            lemma_find_subscription_none_iff(mid, channel);
            assert forall|i2: int, j: int| 0 <= i2 < j < self@.subs.len() implies self@.subs[i2].channel_id
                != self@.subs[j].channel_id by {
                if j == self@.subs.len() - 1 {
                    assert(self@.subs[i2] == mid[i2]);
                }
            }
            assert forall|k: int| 0 <= k < self@.subs.len() implies (
            #[trigger] self@.subs[k]).wf() by {
                if k < self@.subs.len() - 1 {
                    assert(self@.subs[k] == mid[k]);
                    assert(orig.contains(mid[k]));
                    let m = choose|m: int| 0 <= m < orig.len() && orig[m] == mid[k];
                    assert(orig[m].wf());
                }
            }
            assert(self@.wf());
        }
    }

    /// Removes every subscription owned by `user` and reports how many
    /// went; zero is a valid outcome, not an error.
    pub fn purge(&mut self, user: u64) -> (count: usize)
        requires
            old(self).wf(),
        ensures
            final(self).wf(),
            final(self)@.creds == old(self)@.creds,
            final(self)@.subs == without_owner(old(self)@.subs, user),
            owned_channels(final(self)@.subs, user) == Seq::<u64>::empty(),
            count == owned_channels(old(self)@.subs, user).len(),
            forall|w: u64|
                #[trigger] find_subscription(final(self)@.subs, w) == (
                match find_subscription(old(self)@.subs, w) {
                    Some(sv) => if sv.owner_user_id == user {
                        None
                    } else {
                        Some(sv)
                    },
                    None => None,
                }),
    {
        let ghost orig = self@.subs;
        let mut kept: Vec<SubscriptionRecord> = Vec::new();
        let mut count: usize = 0;
        let mut i: usize = 0;
        proof {
            assert(orig.take(0) =~= Seq::<SubscriptionView>::empty());
            assert(kept@.map_values(|r: SubscriptionRecord| r@) =~= Seq::<
                SubscriptionView,
            >::empty());
            assert(owned_channels(orig.take(0), user) =~= Seq::<u64>::empty());
        }
        while i < self.subs.len()
            invariant
                i <= self.subs@.len(),
                self@.subs == orig,
                self@.subs.len() == self.subs@.len(),
                kept@.map_values(|r: SubscriptionRecord| r@) == without_owner(
                    orig.take(i as int),
                    user,
                ),
                count == owned_channels(orig.take(i as int), user).len(),
                count <= i,
            decreases self.subs@.len() - i,
        {
            proof {
                assert(orig.take(i + 1).drop_last() =~= orig.take(i as int));
                assert(orig.take(i + 1).last() == orig[i as int]);
            }
            if self.subs[i].owner_user_id == user {
                count = count + 1;
            } else {
                let ghost prev = kept@.map_values(|r: SubscriptionRecord| r@);
                kept.push(self.subs[i].clone_record());
                proof {
                    assert(kept@.map_values(|r: SubscriptionRecord| r@) =~= prev.push(
                        orig[i as int],
                    ));
                }
            }
            i = i + 1;
        }
        proof {
            assert(orig.take(orig.len() as int) =~= orig);
            lemma_without_owner(orig, user);
        }
        self.subs = kept;
        proof {
            assert forall|k: int| 0 <= k < self@.subs.len() implies (
            #[trigger] self@.subs[k]).wf() by {
                assert(orig.contains(self@.subs[k]));
                let m = choose|m: int| 0 <= m < orig.len() && orig[m] == self@.subs[k];
                assert(orig[m].wf());
            }
        }
        count
    }

    /// The channels `user` is forwarding into, in storage order.
    pub fn get_subs_by_user(&self, user: u64) -> (r: Vec<u64>)
        ensures
            r@ == owned_channels(self@.subs, user),
    {
        let mut r: Vec<u64> = Vec::new();
        let mut i: usize = 0;
        proof {
            assert(self@.subs.take(0) =~= Seq::<SubscriptionView>::empty());
            assert(r@ =~= owned_channels(self@.subs.take(0), user));
        }
        while i < self.subs.len()
            invariant
                i <= self.subs@.len(),
                self@.subs.len() == self.subs@.len(),
                r@ == owned_channels(self@.subs.take(i as int), user),
            decreases self.subs@.len() - i,
        {
            proof {
                assert(self@.subs.take(i + 1).drop_last() =~= self@.subs.take(i as int));
                assert(self@.subs.take(i + 1).last() == self@.subs[i as int]);
            }
            if self.subs[i].owner_user_id == user {
                r.push(self.subs[i].channel_id);
            }
            i = i + 1;
        }
        proof {
            assert(self@.subs.take(self.subs@.len() as int) =~= self@.subs);
        }
        r
    }

    /// How many credentials are stored.
    pub fn credential_count(&self) -> (r: usize)
        ensures
            r == self@.creds.len(),
    {
        self.creds.len()
    }

    /// How many subscriptions are stored.
    pub fn subscription_count(&self) -> (r: usize)
        ensures
            r == self@.subs.len(),
    {
        self.subs.len()
    }

    /// Decides `wf` at run time, for callers outside verified code
    /// that must guard an operation on it.
    pub fn check_invariants(&self) -> (r: bool)
        ensures
            r == self.wf(),
    {
        let creds_ok = creds_well_formed(&self.creds);
        let subs_ok = subs_well_formed(&self.subs);
        proof {
            assert(forall|k: int|
                0 <= k < self.creds@.len() ==> self@.creds[k] == (#[trigger] self.creds@[k])@);
            assert(forall|k: int|
                0 <= k < self.subs@.len() ==> self@.subs[k] == (#[trigger] self.subs@[k])@);
            assert(self@.creds == self.creds@.map_values(|c: CredentialRecord| c@));
            assert(self@.subs == self.subs@.map_values(|c: SubscriptionRecord| c@));
            if creds_ok && subs_ok {
                assert forall|i: int| 0 <= i < self@.creds.len() implies (
                #[trigger] self@.creds[i]).wf() by {
                    assert((self.creds@[i])@.wf());
                }
                assert forall|i: int| 0 <= i < self@.subs.len() implies (
                #[trigger] self@.subs[i]).wf() by {
                    assert((self.subs@[i])@.wf());
                }
            }
            if self.wf() {
                assert forall|k: int| 0 <= k < self.creds@.len() implies (
                #[trigger] self.creds@[k])@.wf() by {
                    assert(self@.creds[k].wf());
                }
                assert forall|k: int| 0 <= k < self.subs@.len() implies (
                #[trigger] self.subs@[k])@.wf() by {
                    assert(self@.subs[k].wf());
                }
            }
        }
        creds_ok && subs_ok
    }

    /// The stored credentials, oldest first.
    pub fn credentials(&self) -> (r: &Vec<CredentialRecord>)
        ensures
            r@.map_values(|c: CredentialRecord| c@) == self@.creds,
    {
        &self.creds
    }

    /// The stored subscriptions, oldest first.
    pub fn subscriptions(&self) -> (r: &Vec<SubscriptionRecord>)
        ensures
            r@.map_values(|c: SubscriptionRecord| c@) == self@.subs,
    {
        &self.subs
    }
}

/// Decides uniqueness and record shape for the credential list.
fn creds_well_formed(creds: &Vec<CredentialRecord>) -> (r: bool)
    ensures
        r == (credential_users_unique(creds@.map_values(|c: CredentialRecord| c@)) && (forall|
            k: int,
        | 0 <= k < creds@.len() ==> (#[trigger] creds@[k])@.wf())),
{
    let ghost cvs = creds@.map_values(|c: CredentialRecord| c@);
    proof {
        assert(forall|k: int| 0 <= k < creds@.len() ==> cvs[k] == (#[trigger] creds@[k])@);
    }
    let n = creds.len();
    let mut i: usize = 0;
    while i < n
        invariant
            i <= n,
            n == creds@.len(),
            cvs == creds@.map_values(|c: CredentialRecord| c@),
            forall|a: int, b: int| 0 <= a < b < n && a < i ==> cvs[a].external_user_id != cvs[b].external_user_id,
            forall|k: int| 0 <= k < i ==> (#[trigger] cvs[k]).wf(),
        decreases n - i,
    {
        if !crate::records::is_token_text(creds[i].access_token.as_str()) || !crate::records::is_token_text(
            creds[i].refresh_token.as_str(),
        ) {
            return false;
        }
        let mut j: usize = i + 1;
        while j < n
            invariant
                i < j <= n,
                n == creds@.len(),
                cvs == creds@.map_values(|c: CredentialRecord| c@),
                forall|b: int| i < b < j ==> cvs[i as int].external_user_id != cvs[b].external_user_id,
            decreases n - j,
        {
            if creds[j].external_user_id == creds[i].external_user_id {
                proof {
                    assert(cvs[i as int].external_user_id == cvs[j as int].external_user_id);
                    assert(!credential_users_unique(cvs));
                }
                return false;
            }
            j = j + 1;
        }
        i = i + 1;
    }
    true
}

/// Decides uniqueness and record shape for the subscription list.
fn subs_well_formed(subs: &Vec<SubscriptionRecord>) -> (r: bool)
    ensures
        r == (sub_channels_unique(subs@.map_values(|c: SubscriptionRecord| c@)) && (forall|k: int|
            0 <= k < subs@.len() ==> (#[trigger] subs@[k])@.wf())),
{
    let ghost svs = subs@.map_values(|c: SubscriptionRecord| c@);
    proof {
        assert(forall|k: int| 0 <= k < subs@.len() ==> svs[k] == (#[trigger] subs@[k])@);
    }
    let n = subs.len();
    let mut i: usize = 0;
    while i < n
        invariant
            i <= n,
            n == subs@.len(),
            svs == subs@.map_values(|c: SubscriptionRecord| c@),
            forall|a: int, b: int| 0 <= a < b < n && a < i ==> svs[a].channel_id != svs[b].channel_id,
            forall|k: int| 0 <= k < i ==> (#[trigger] svs[k]).wf(),
        decreases n - i,
    {
        if !crate::records::is_token_text(subs[i].target_user_id.as_str()) || !crate::records::is_token_text(
            subs[i].playlist_id.as_str(),
        ) {
            return false;
        }
        let mut j: usize = i + 1;
        while j < n
            invariant
                i < j <= n,
                n == subs@.len(),
                svs == subs@.map_values(|c: SubscriptionRecord| c@),
                forall|b: int| i < b < j ==> svs[i as int].channel_id != svs[b].channel_id,
            decreases n - j,
        {
            if subs[j].channel_id == subs[i].channel_id {
                proof {
                    assert(svs[i as int].channel_id == svs[j as int].channel_id);
                    assert(!sub_channels_unique(svs));
                }
                return false;
            }
            j = j + 1;
        }
        i = i + 1;
    }
    true
}

impl CredentialRecord {
    /// A field-for-field copy.
    pub fn clone_record(&self) -> (r: CredentialRecord)
        ensures
            r@ == self@,
    {
        CredentialRecord {
            external_user_id: self.external_user_id,
            access_token: self.access_token.clone(),
            refresh_token: self.refresh_token.clone(),
            expires_at: self.expires_at,
        }
    }
}

impl SubscriptionRecord {
    /// A field-for-field copy.
    pub fn clone_record(&self) -> (r: SubscriptionRecord)
        ensures
            r@ == self@,
    {
        SubscriptionRecord {
            channel_id: self.channel_id,
            owner_user_id: self.owner_user_id,
            target_user_id: self.target_user_id.clone(),
            playlist_id: self.playlist_id.clone(),
        }
    }
}

} // verus!
