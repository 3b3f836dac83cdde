use thissy::tracks::{create_spotify_playlist_link, search_spotify_link, track_uri_from_link};

#[test]
fn quoted_line_is_skipped() {
    let msg = "check this out\n> https://open.spotify.com/track/AAA\nhttps://open.spotify.com/track/BBB";
    assert_eq!(
        search_spotify_link(msg),
        Some("https://open.spotify.com/track/BBB".to_string())
    );
}

#[test]
fn no_match_returns_none() {
    assert_eq!(search_spotify_link("nothing to see here\njust chatter"), None);
}

#[test]
fn quoted_only_message_returns_none() {
    assert_eq!(
        search_spotify_link("> https://open.spotify.com/track/AAA"),
        None
    );
}

#[test]
fn token_in_the_middle_of_a_line_is_found_whole() {
    let msg = "hey https://open.spotify.com/track/XYZ?si=1 listen";
    assert_eq!(
        search_spotify_link(msg),
        Some("https://open.spotify.com/track/XYZ?si=1".to_string())
    );
}

#[test]
fn prefix_must_start_the_token() {
    assert_eq!(
        search_spotify_link("see:https://open.spotify.com/track/AAA"),
        None
    );
}

#[test]
fn first_match_wins() {
    let msg = "https://open.spotify.com/track/ONE https://open.spotify.com/track/TWO";
    assert_eq!(
        search_spotify_link(msg),
        Some("https://open.spotify.com/track/ONE".to_string())
    );
}

#[test]
fn track_uri_strips_query() {
    assert_eq!(
        track_uri_from_link("https://open.spotify.com/track/XYZ?si=1"),
        "spotify:track:XYZ".to_string()
    );
}

#[test]
fn track_uri_without_query() {
    assert_eq!(
        track_uri_from_link("https://open.spotify.com/track/AAA"),
        "spotify:track:AAA".to_string()
    );
}

#[test]
fn playlist_link_prepends_base() {
    assert_eq!(
        create_spotify_playlist_link("abc"),
        "https://open.spotify.com/playlist/abc".to_string()
    );
}
