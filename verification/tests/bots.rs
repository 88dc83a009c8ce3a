use wows_toolkit::text::replace_text;
use wows_toolkit::twitch::{TwitchWatch, WatchAction, WatchEvent, WatchStage, MEMORY_WINDOW_NANOS};
use wows_toolkit::twitch_builds::{
    fill_template, BuildBot, BuildBotAction, BuildBotEvent, BuildBotSettings, MAX_PARSE_ATTEMPTS, PARSE_RETRY_DELAY,
};

const MINUTE: i128 = 60_000_000_000;
const START: i128 = 1_700_000_000_000_000_000;

fn settings() -> BuildBotSettings {
    BuildBotSettings {
        command: "!build".to_string(),
        template: "Build: {url} ({url})".to_string(),
        error: "No build available".to_string(),
    }
}

fn said(action: &BuildBotAction) -> Option<&str> {
    match action {
        BuildBotAction::Say(m) => Some(m.as_str()),
        _ => None,
    }
}

#[test]
fn replacing_text_takes_occurrences_left_to_right() {
    assert_eq!(replace_text("a{url}b{url}", "{url}", "X"), "aXbX");
    assert_eq!(replace_text("aaa", "aa", "b"), "ba");
    assert_eq!(replace_text("none here", "{url}", "X"), "none here");
    assert_eq!(replace_text("", "x", "y"), "");
    assert_eq!(replace_text("{url", "{url}", "X"), "{url");
    assert_eq!(fill_template("see {url}", "https://x/y"), "see https://x/y");
}

#[test]
fn other_messages_are_ignored() {
    let (bot, action) = BuildBot::new().step(&settings(), BuildBotEvent::Message("hello".to_string()));
    assert!(matches!(bot, BuildBot::Idle { cached: None }));
    assert!(matches!(action, BuildBotAction::Nothing));
}

#[test]
fn the_command_parses_three_times_and_replies_with_the_last_link() {
    let s = settings();
    let (bot, a) = BuildBot::new().step(&s, BuildBotEvent::Message("!build".to_string()));
    assert!(matches!(a, BuildBotAction::ConsumeNewMatchFlag));
    let (bot, a) = bot.step(&s, BuildBotEvent::NewMatchFlag(false));
    assert!(matches!(a, BuildBotAction::ParseReplay));
    let (bot, a) = bot.step(&s, BuildBotEvent::Parsed(Some("u1".to_string())));
    assert!(matches!(a, BuildBotAction::ParseReplay));
    let (bot, a) = bot.step(&s, BuildBotEvent::Parsed(None));
    assert!(matches!(a, BuildBotAction::Sleep(5000)));
    assert_eq!(PARSE_RETRY_DELAY, 5000);
    let (bot, a) = bot.step(&s, BuildBotEvent::Slept);
    assert!(matches!(a, BuildBotAction::ParseReplay));
    let (bot, a) = bot.step(&s, BuildBotEvent::Parsed(Some("u3".to_string())));
    assert_eq!(said(&a), Some("Build: u3 (u3)"));
    assert_eq!(MAX_PARSE_ATTEMPTS, 3);
    // The link is reused while no new match was loaded.
    let (bot, _) = bot.step(&s, BuildBotEvent::Message("!build".to_string()));
    let (bot, a) = bot.step(&s, BuildBotEvent::NewMatchFlag(false));
    assert_eq!(said(&a), Some("Build: u3 (u3)"));
    // A new match makes the bot parse again.
    let (bot, _) = bot.step(&s, BuildBotEvent::Message("!build".to_string()));
    let (_, a) = bot.step(&s, BuildBotEvent::NewMatchFlag(true));
    assert!(matches!(a, BuildBotAction::ParseReplay));
}

#[test]
fn a_failed_last_parse_sends_the_error() {
    let s = settings();
    let (bot, _) = BuildBot::new().step(&s, BuildBotEvent::Message("!build".to_string()));
    let (bot, _) = bot.step(&s, BuildBotEvent::NewMatchFlag(false));
    let (bot, _) = bot.step(&s, BuildBotEvent::Parsed(Some("u1".to_string())));
    let (bot, _) = bot.step(&s, BuildBotEvent::Parsed(Some("u2".to_string())));
    let (bot, a) = bot.step(&s, BuildBotEvent::Parsed(None));
    assert_eq!(said(&a), Some("No build available"));
    assert!(matches!(bot, BuildBot::Idle { cached: None }));
}

fn fetched(action: &WatchAction) -> Option<&str> {
    match action {
        WatchAction::FetchChatters(u) => Some(u.as_str()),
        _ => None,
    }
}

fn looked_up(action: &WatchAction) -> Option<&str> {
    match action {
        WatchAction::LookUpUser(u) => Some(u.as_str()),
        _ => None,
    }
}

#[test]
fn watch_starts_on_the_token_users_channel() {
    let (mut w, a) = TwitchWatch::begin(String::new(), true);
    assert!(matches!(a, WatchAction::UpdateToken));
    let a = w.step(WatchEvent::TokenState(Some("42".to_string())));
    assert!(matches!(a, WatchAction::Wait));
    assert_eq!(w.monitored_user_id.as_deref(), Some("42"));
    let a = w.step(WatchEvent::Tick(Some("42".to_string())));
    assert_eq!(fetched(&a), Some("42"));
    let a = w.step(WatchEvent::Chatters(Some(vec!["bob".to_string(), "amy".to_string()]), START));
    assert!(matches!(a, WatchAction::ReadClock));
    let a = w.step(WatchEvent::Clock(START + MINUTE));
    assert!(matches!(a, WatchAction::Wait));
    let e = w.participants.entries();
    assert_eq!(e.len(), 2);
    assert_eq!(e[0].0, "bob");
    assert_eq!(e[0].1, vec![START]);
}

#[test]
fn watch_looks_up_the_configured_channel() {
    let (mut w, a) = TwitchWatch::begin("streamer".to_string(), false);
    assert!(matches!(a, WatchAction::ReadToken));
    let a = w.step(WatchEvent::TokenState(Some("42".to_string())));
    assert_eq!(looked_up(&a), Some("streamer"));
    let a = w.step(WatchEvent::UserFound(Some("77".to_string())));
    assert!(matches!(a, WatchAction::Wait));
    assert_eq!(w.monitored_user_id.as_deref(), Some("77"));
    let a = w.step(WatchEvent::UserChanged("other".to_string(), Some("42".to_string())));
    assert_eq!(looked_up(&a), Some("other"));
    let a = w.step(WatchEvent::UserFound(None));
    assert!(matches!(a, WatchAction::ReadClock));
    assert_eq!(w.monitored_user_id.as_deref(), Some("77"));
}

#[test]
fn watch_without_a_token_only_sweeps() {
    let (mut w, _) = TwitchWatch::begin("streamer".to_string(), false);
    let a = w.step(WatchEvent::TokenState(None));
    assert!(matches!(a, WatchAction::Wait));
    assert!(w.monitored_user_id.is_none());
    let a = w.step(WatchEvent::Tick(None));
    assert!(matches!(a, WatchAction::ReadClock));
    let a = w.step(WatchEvent::Clock(START));
    assert!(matches!(a, WatchAction::Wait));
    let a = w.step(WatchEvent::NoUpdate);
    assert!(matches!(a, WatchAction::ReadClock));
}

#[test]
fn new_credentials_fetch_and_choose_the_channel_again() {
    let (mut w, _) = TwitchWatch::begin("streamer".to_string(), false);
    w.step(WatchEvent::TokenState(Some("42".to_string())));
    w.step(WatchEvent::UserFound(Some("77".to_string())));
    let a = w.step(WatchEvent::TokenChanged(false));
    assert!(matches!(a, WatchAction::UpdateToken));
    let a = w.step(WatchEvent::TokenState(Some("43".to_string())));
    assert_eq!(fetched(&a), Some("77"));
    let a = w.step(WatchEvent::Chatters(None, START));
    assert_eq!(looked_up(&a), Some("streamer"));
    assert_eq!(w.monitored_user_id.as_deref(), Some("43"));
    let a = w.step(WatchEvent::UserFound(Some("78".to_string())));
    assert!(matches!(a, WatchAction::ReadClock));
    assert_eq!(w.monitored_user_id.as_deref(), Some("78"));
    assert!(matches!(w.stage, WatchStage::Sweeping));
}

#[test]
fn sweeping_forgets_instants_older_than_the_window() {
    let (mut w, _) = TwitchWatch::begin(String::new(), false);
    w.step(WatchEvent::TokenState(Some("1".to_string())));
    w.step(WatchEvent::Tick(Some("1".to_string())));
    w.step(WatchEvent::Chatters(Some(vec!["old".to_string()]), START));
    w.step(WatchEvent::Clock(START + MEMORY_WINDOW_NANOS + 1));
    assert_eq!(w.participants.entries()[0].0, "old");
    assert!(w.participants.entries()[0].1.is_empty());
}

#[test]
fn a_run_keeps_only_fetched_instants_within_the_window() {
    let (mut w, _) = TwitchWatch::begin(String::new(), false);
    w.step(WatchEvent::TokenState(Some("1".to_string())));
    w.step(WatchEvent::Tick(Some("1".to_string())));
    w.step(WatchEvent::Chatters(Some(vec!["amy".to_string()]), START));
    w.step(WatchEvent::Clock(START + MINUTE));
    w.step(WatchEvent::Tick(Some("1".to_string())));
    w.step(WatchEvent::Chatters(Some(vec!["amy".to_string(), "bob".to_string()]), START + 20 * MINUTE));
    let clock = START + 35 * MINUTE;
    w.step(WatchEvent::Clock(clock));
    let e = w.participants.entries();
    assert_eq!(e.len(), 2);
    assert_eq!(e[0], ("amy".to_string(), vec![START + 20 * MINUTE]));
    assert_eq!(e[1], ("bob".to_string(), vec![START + 20 * MINUTE]));
    assert!(e.iter().all(|(_, ts)| ts.iter().all(|t| *t > clock - MEMORY_WINDOW_NANOS)));
}

#[test]
fn replacing_the_empty_pattern_matches_std() {
    assert_eq!(replace_text("abc", "", "-"), "abc".replace("", "-"));
    assert_eq!(replace_text("", "", "xy"), "".replace("", "xy"));
    assert_eq!(replace_text("a.b.c", ".", ""), "a.b.c".replace(".", ""));
}
