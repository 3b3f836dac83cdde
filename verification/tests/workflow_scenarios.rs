use thissy::directory::Directory;
use thissy::records::is_valid_token;
use thissy::records::CredentialRecord;
use thissy::workflows::{
    apply_refresh, complete_link, follow_begin, follow_finish, forward_plan, info,
    parse_playlist_reference, request_link, unlink, FollowOutcome, FollowRejection, FollowStart,
    ForwardPlan, LinkFailure, LinkStart, RefreshError, SkipReason, UnlinkOutcome,
};

const USER_X: u64 = 2282;
const CHANNEL_C: u64 = 555;

fn linked(expires_at: u64) -> Directory {
    let mut d = Directory::new();
    complete_link(
        &mut d,
        USER_X,
        "access0".to_string(),
        "refresh0".to_string(),
        expires_at,
    )
    .unwrap();
    d
}

#[test]
fn token_validity_uses_ten_seconds_of_skew() {
    let c = CredentialRecord {
        external_user_id: USER_X,
        access_token: "a".to_string(),
        refresh_token: "r".to_string(),
        expires_at: 100,
    };
    assert!(is_valid_token(&c, 89));
    assert!(!is_valid_token(&c, 90));
}

#[test]
fn playlist_reference_parsing() {
    assert_eq!(
        parse_playlist_reference("spotify:playlist:abC12"),
        Some("abC12".to_string())
    );
    assert_eq!(parse_playlist_reference("spotify:playlist:"), None);
    assert_eq!(parse_playlist_reference("notaplaylisturi"), None);
    assert_eq!(parse_playlist_reference("spotify:playlist:has space"), None);
}

#[test]
fn bad_format_is_rejected_before_anything_else() {
    let d = Directory::new();
    match follow_begin(&d, USER_X, "notaplaylisturi", 0) {
        FollowStart::Reject { reason } => assert_eq!(reason, FollowRejection::BadFormat),
        _ => panic!("expected a rejection"),
    }
}

#[test]
fn unlinked_user_cannot_follow() {
    let d = Directory::new();
    match follow_begin(&d, USER_X, "spotify:playlist:PL1", 0) {
        FollowStart::Reject { reason } => assert_eq!(reason, FollowRejection::NotLinked),
        _ => panic!("expected a rejection"),
    }
}

#[test]
fn stale_credential_asks_for_refresh_first() {
    let d = linked(5);
    match follow_begin(&d, USER_X, "spotify:playlist:PL1", 1000) {
        FollowStart::RefreshThenVerify { playlist_id } => {
            assert_eq!(playlist_id, "PL1".to_string())
        }
        _ => panic!("expected a refresh step"),
    }
}

#[test]
fn foreign_playlist_is_not_owner_and_writes_nothing() {
    let mut d = linked(u64::MAX);
    let r = follow_finish(
        &mut d,
        CHANNEL_C,
        USER_X,
        "PL1".to_string(),
        "userx".to_string(),
        "OTHER".to_string(),
    );
    match r {
        FollowOutcome::Rejected { reason } => assert_eq!(reason, FollowRejection::NotOwner),
        _ => panic!("expected a rejection"),
    }
    assert!(d.get_subscription(CHANNEL_C).is_none());
}

#[test]
fn link_follow_forward_purge_scenario() {
    let mut d = linked(u64::MAX);
    // follow channel C with playlist PL1, owned by the requester
    match follow_begin(&d, USER_X, "spotify:playlist:PL1", 10) {
        FollowStart::Verify { playlist_id } => {
            let r = follow_finish(
                &mut d,
                CHANNEL_C,
                USER_X,
                playlist_id,
                "userx".to_string(),
                "PL1".to_string(),
            );
            match r {
                FollowOutcome::Followed { playlist_id } => {
                    assert_eq!(playlist_id, "PL1".to_string())
                }
                _ => panic!("expected the follow to land"),
            }
        }
        _ => panic!("expected a live credential"),
    }
    // a later message in C with a track link plans exactly one append at position 0
    let msg = "listen https://open.spotify.com/track/AAA";
    match forward_plan(&d, CHANNEL_C, msg, 10) {
        ForwardPlan::Append {
            owner_user_id,
            target_user_id,
            playlist_id,
            track_uri,
            position,
            needs_refresh,
        } => {
            assert_eq!(owner_user_id, USER_X);
            assert_eq!(target_user_id, "userx".to_string());
            assert_eq!(playlist_id, "PL1".to_string());
            assert_eq!(track_uri, "spotify:track:AAA".to_string());
            assert_eq!(position, 0);
            assert!(!needs_refresh);
        }
        _ => panic!("expected an append plan"),
    }
    // info reports the bound playlist
    assert_eq!(
        info(&d, CHANNEL_C),
        Some("https://open.spotify.com/playlist/PL1".to_string())
    );
    // purge removes the one subscription; later messages are no-ops
    assert_eq!(d.purge(USER_X), 1);
    match forward_plan(&d, CHANNEL_C, msg, 10) {
        ForwardPlan::Skip { reason } => assert_eq!(reason, SkipReason::NoSubscription),
        _ => panic!("expected a skip"),
    }
    assert_eq!(info(&d, CHANNEL_C), None);
}

#[test]
fn expired_credential_plans_refresh_before_append() {
    let mut d = linked(50);
    follow_begin(&d, USER_X, "spotify:playlist:PL1", 10);
    let r = follow_finish(
        &mut d,
        CHANNEL_C,
        USER_X,
        "PL1".to_string(),
        "userx".to_string(),
        "PL1".to_string(),
    );
    assert!(matches!(r, FollowOutcome::Followed { .. }));
    let msg = "https://open.spotify.com/track/BBB";
    // credential for X has expired by now
    match forward_plan(&d, CHANNEL_C, msg, 1000) {
        ForwardPlan::Append { needs_refresh, .. } => assert!(needs_refresh),
        _ => panic!("expected an append plan"),
    }
    // the refresh outcome is applied, then the plan no longer asks for one
    apply_refresh(&mut d, USER_X, "access1".to_string(), None, 2000).unwrap();
    match forward_plan(&d, CHANNEL_C, msg, 1000) {
        ForwardPlan::Append { needs_refresh, .. } => assert!(!needs_refresh),
        _ => panic!("expected an append plan"),
    }
    // the rotated refresh token was kept from the stored record
    let c = d.get_credential(USER_X).unwrap();
    assert_eq!(c.access_token, "access1".to_string());
    assert_eq!(c.refresh_token, "refresh0".to_string());
    assert_eq!(c.expires_at, 2000);
}

#[test]
fn forward_without_track_link_is_a_noop() {
    let mut d = linked(u64::MAX);
    follow_finish(
        &mut d,
        CHANNEL_C,
        USER_X,
        "PL1".to_string(),
        "userx".to_string(),
        "PL1".to_string(),
    );
    match forward_plan(&d, CHANNEL_C, "no link here", 10) {
        ForwardPlan::Skip { reason } => assert_eq!(reason, SkipReason::NoTrackLink),
        _ => panic!("expected a skip"),
    }
}

#[test]
fn orphaned_subscription_is_a_noop() {
    let mut d = linked(u64::MAX);
    follow_finish(
        &mut d,
        CHANNEL_C,
        USER_X,
        "PL1".to_string(),
        "userx".to_string(),
        "PL1".to_string(),
    );
    d.remove_credential(USER_X);
    let msg = "https://open.spotify.com/track/AAA";
    match forward_plan(&d, CHANNEL_C, msg, 10) {
        ForwardPlan::Skip { reason } => assert_eq!(reason, SkipReason::NoCredential),
        _ => panic!("expected a skip"),
    }
}

#[test]
fn a_second_follow_overwrites_the_channel_binding() {
    let mut d = linked(u64::MAX);
    follow_finish(
        &mut d,
        CHANNEL_C,
        USER_X,
        "PL1".to_string(),
        "userx".to_string(),
        "PL1".to_string(),
    );
    follow_finish(
        &mut d,
        CHANNEL_C,
        USER_X,
        "PL2".to_string(),
        "userx".to_string(),
        "PL2".to_string(),
    );
    assert_eq!(d.subscription_count(), 1);
    assert_eq!(
        d.get_subscription(CHANNEL_C).unwrap().playlist_id,
        "PL2".to_string()
    );
}

#[test]
fn unlink_purges_all_subscriptions_of_the_user() {
    let mut d = linked(u64::MAX);
    follow_finish(
        &mut d,
        CHANNEL_C,
        USER_X,
        "PL1".to_string(),
        "userx".to_string(),
        "PL1".to_string(),
    );
    follow_finish(
        &mut d,
        777,
        USER_X,
        "PL2".to_string(),
        "userx".to_string(),
        "PL2".to_string(),
    );
    assert_eq!(unlink(&mut d, USER_X), UnlinkOutcome::Unlinked);
    assert_eq!(d.get_subs_by_user(USER_X), Vec::<u64>::new());
    assert!(d.get_credential(USER_X).is_none());
    assert_eq!(d.subscription_count(), 0);
}

#[test]
fn unlink_of_a_stranger_reports_not_linked() {
    let mut d = Directory::new();
    assert_eq!(unlink(&mut d, 1), UnlinkOutcome::NotLinked);
}

#[test]
fn malformed_exchange_payload_stores_nothing() {
    let mut d = Directory::new();
    let r = complete_link(
        &mut d,
        USER_X,
        "has space".to_string(),
        "refresh0".to_string(),
        10,
    );
    assert_eq!(r, Err(LinkFailure::BadPayload));
    assert!(d.get_credential(USER_X).is_none());
}

#[test]
fn refresh_errors_leave_the_directory_alone() {
    let mut d = Directory::new();
    assert_eq!(
        apply_refresh(&mut d, USER_X, "a".to_string(), None, 10),
        Err(RefreshError::NotLinked)
    );
    let mut d = linked(5);
    assert_eq!(
        apply_refresh(&mut d, USER_X, "bad token".to_string(), None, 10),
        Err(RefreshError::MalformedToken)
    );
    assert_eq!(d.get_credential(USER_X).unwrap().access_token, "access0".to_string());
}

#[test]
fn request_link_on_a_linked_user_says_so() {
    let d = linked(10);
    assert!(matches!(
        request_link(&d, USER_X, "abc123", "http://localhost:8888/callback"),
        LinkStart::AlreadyLinked
    ));
}

#[test]
fn request_link_hands_out_a_url_with_a_fresh_state() {
    let d = Directory::new();
    match request_link(&d, USER_X, "abc123", "http://localhost:8888/callback") {
        LinkStart::Authorize { url, state } => {
            assert_eq!(state.len(), 32);
            assert!(state.chars().all(|c| c.is_ascii_alphanumeric()));
            let expected_prefix = "https://accounts.spotify.com/authorize?client_id=abc123&response_type=code&redirect_uri=http%3A%2F%2Flocalhost%3A8888%2Fcallback&scope=playlist-modify-public&state=";
            assert_eq!(url, format!("{}{}", expected_prefix, state));
        }
        _ => panic!("expected an authorization url"),
    }
}

#[test]
fn garbled_upstream_identifiers_are_an_upstream_error() {
    let mut d = linked(u64::MAX);
    let r = follow_finish(
        &mut d,
        CHANNEL_C,
        USER_X,
        "PL1".to_string(),
        "has space".to_string(),
        "PL1".to_string(),
    );
    match r {
        FollowOutcome::Rejected { reason } => assert_eq!(reason, FollowRejection::UpstreamError),
        _ => panic!("expected a rejection"),
    }
    assert!(d.get_subscription(CHANNEL_C).is_none());
}
