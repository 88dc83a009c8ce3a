use wows_toolkit::text::signed_decimal_text;
use wows_toolkit::twitch::{parse_token, resembles_name, seen_text, Participants, Token, MEMORY_WINDOW_NANOS};

const MINUTE: i128 = 60_000_000_000;
const START: i128 = 1_700_000_000_000_000_000;

#[test]
fn token_parses_all_four_fields() {
    let t = parse_token("username=alice;user_id=42;client_id=abc;oauth_token=xyz").unwrap();
    assert_eq!(t.username(), "alice");
    assert_eq!(t.user_id(), 42);
    assert_eq!(t.client_id(), "abc");
    assert_eq!(t.oauth_token(), "xyz");
}

#[test]
fn token_parses_through_from_str() {
    let t: Token = "oauth_token=o;client_id=c;user_id=7;username=bob".parse().unwrap();
    assert_eq!(t.username(), "bob");
    assert_eq!(t.user_id(), 7);
    assert_eq!(t.client_id(), "c");
    assert_eq!(t.oauth_token(), "o");
}

#[test]
fn token_skips_empty_parts() {
    let t = parse_token(";username=a;;user_id=1;client_id=c;oauth_token=o;").unwrap();
    assert_eq!(t.username(), "a");
    assert_eq!(t.user_id(), 1);
}

#[test]
fn token_value_stops_at_second_equals_sign() {
    let t = parse_token("username=a=b;user_id=1;client_id=c;oauth_token=o").unwrap();
    assert_eq!(t.username(), "a");
}

#[test]
fn token_later_field_overrides_earlier() {
    let t = parse_token("username=a;username=b;user_id=1;client_id=c;oauth_token=o").unwrap();
    assert_eq!(t.username(), "b");
}

#[test]
fn token_missing_field_is_refused() {
    assert!(parse_token("username=a;user_id=1;client_id=c").is_err());
    assert!(parse_token("").is_err());
}

#[test]
fn token_unknown_key_is_refused() {
    assert!(parse_token("username=a;user_id=1;client_id=c;oauth_token=o;extra=1").is_err());
}

#[test]
fn token_part_without_value_is_refused() {
    assert!(parse_token("username;user_id=1;client_id=c;oauth_token=o").is_err());
}

#[test]
fn token_non_numeric_user_id_is_refused() {
    assert!(parse_token("username=a;user_id=x1;client_id=c;oauth_token=o").is_err());
    assert!(parse_token("username=a;user_id=-1;client_id=c;oauth_token=o").is_err());
    assert!(parse_token("username=a;user_id=;client_id=c;oauth_token=o").is_err());
}

#[test]
fn token_user_id_accepts_plus_sign() {
    let t = parse_token("username=a;user_id=+15;client_id=c;oauth_token=o").unwrap();
    assert_eq!(t.user_id(), 15);
}

#[test]
fn resemblance_within_three_edits() {
    assert!(resembles_name("longplayernam", "longplayername"));
    assert!(resembles_name("xongplayernamx", "longplayername"));
    assert!(!resembles_name("somebodyelse", "longplayername"));
}

#[test]
fn resemblance_needs_a_name_longer_than_five_bytes() {
    assert!(!resembles_name("abc", "abc"));
    assert!(!resembles_name("abcde", "abcde"));
    assert!(resembles_name("abcdef", "abcdef"));
}

#[test]
fn resemblance_by_a_run_of_wide_characters() {
    // "ééééé" is five characters and ten bytes, so the run counts.
    assert!(resembles_name("watcherééééézzzzzzzzzzzz", "éééééxyz"));
    // ASCII runs of five are five bytes, which is not enough.
    assert!(!resembles_name("zzzzzzzzabcdezzzzzzzzz", "abcdexyzqw"));
}

#[test]
fn new_participants_are_empty() {
    let p = Participants::new();
    assert!(p.entries().is_empty());
}

#[test]
fn recording_a_chatter_keeps_instants_sorted() {
    let mut p = Participants::new();
    p.record_chatter("bob", START + 5 * MINUTE);
    p.record_chatter("alice", START);
    p.record_chatter("bob", START);
    let e = p.entries();
    assert_eq!(e.len(), 2);
    assert_eq!(e[0].0, "bob");
    assert_eq!(e[0].1, vec![START, START + 5 * MINUTE]);
    assert_eq!(e[1].0, "alice");
    assert_eq!(e[1].1, vec![START]);
}

#[test]
fn recording_the_same_instant_twice_changes_nothing() {
    let mut p = Participants::new();
    p.record_chatter("bob", START);
    let before = p.entries().clone();
    p.record_chatter("bob", START);
    assert_eq!(p.entries(), &before);
}

#[test]
fn forgetting_drops_old_instants_but_keeps_names() {
    let mut p = Participants::new();
    p.record_chatter("old", START);
    p.record_chatter("both", START);
    p.record_chatter("both", START + 40 * MINUTE);
    let now = START + 45 * MINUTE;
    p.forget_older_than(now);
    let e = p.entries();
    assert_eq!(e.len(), 2);
    assert_eq!(e[0].0, "old");
    assert!(e[0].1.is_empty());
    assert_eq!(e[1].0, "both");
    assert_eq!(e[1].1, vec![START + 40 * MINUTE]);
    assert_eq!(MEMORY_WINDOW_NANOS, 30 * MINUTE);
}

#[test]
fn forgetting_twice_is_forgetting_once() {
    let mut p = Participants::new();
    p.record_chatter("a", START);
    p.record_chatter("a", START + 31 * MINUTE);
    let now = START + 40 * MINUTE;
    p.forget_older_than(now);
    let once = p.entries().clone();
    p.forget_older_than(now);
    assert_eq!(p.entries(), &once);
}

#[test]
fn snipers_are_found_by_name() {
    let mut p = Participants::new();
    p.record_chatter("longplayernam", START);
    p.record_chatter("unrelated_viewer", START);
    let found = p.potential_stream_snipers("longplayername", START).unwrap();
    assert_eq!(found.len(), 1);
    assert_eq!(found[0].0, "longplayernam");
    assert_eq!(found[0].1, vec![START]);
}

#[test]
fn no_sniper_gives_none() {
    let mut p = Participants::new();
    p.record_chatter("unrelated_viewer", START);
    assert!(p.potential_stream_snipers("longplayername", START).is_none());
    assert!(Participants::new().potential_stream_snipers("longplayername", START).is_none());
}

#[test]
fn snipers_with_no_instant_left_are_not_reported() {
    let mut p = Participants::new();
    p.record_chatter("longplayername", START);
    p.forget_older_than(START + 31 * MINUTE);
    assert!(p.potential_stream_snipers("longplayername", START).is_none());
}

#[test]
fn sniper_instants_keep_their_whole_minutes_window_as_jiff_counts_it() {
    // jiff's `Timestamp - Timestamp` yields a span in seconds, so its minutes
    // field is zero and every recorded instant falls inside the window.
    let mut p = Participants::new();
    p.record_chatter("longplayername", START + 90 * MINUTE);
    let found = p.potential_stream_snipers("longplayername", START).unwrap();
    assert_eq!(found[0].1, vec![START + 90 * MINUTE]);
}

#[test]
fn seen_text_lists_whole_minutes_as_jiff_counts_them() {
    assert_eq!(seen_text(&vec![START, START + 90 * MINUTE], START), "Seen 0, 0 minutes after match start");
    assert_eq!(seen_text(&Vec::new(), START), "Seen  minutes after match start");
}

#[test]
fn signed_numbers_render_like_display() {
    assert_eq!(signed_decimal_text(0), "0");
    assert_eq!(signed_decimal_text(-42), "-42");
    assert_eq!(signed_decimal_text(1234), "1234");
    assert_eq!(signed_decimal_text(i64::MIN), i64::MIN.to_string());
    assert_eq!(signed_decimal_text(i64::MAX), i64::MAX.to_string());
}
