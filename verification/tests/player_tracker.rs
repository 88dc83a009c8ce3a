use wows_toolkit::player_tracker::{
    ascii_lowercase, encounter_level, tracker_header_text, ArenaPlayer, ArenaReport, EncounterLevel, PlayerTracker, ReplayRecord,
    SortOrder, SortedBy, TimePeriod, TrackedPlayer, HOUR_NANOS,
};

const T: i128 = 1_700_000_000_000_000_000;

fn player(name: &str, db_id: i64, clan: &str, division_id: u32) -> ArenaPlayer {
    ArenaPlayer { name: name.to_string(), db_id, clan: clan.to_string(), clan_id: db_id * 10, division_id }
}

fn replay(game_type: &str, timestamp: i128, arena_id: i64, foe_name: &str) -> ReplayRecord {
    ReplayRecord {
        game_type: game_type.to_string(),
        timestamp,
        vehicles: vec![("me".to_string(), 0), ("friend".to_string(), 1), (foe_name.to_string(), 2)],
        report: Some(ArenaReport {
            arena_id,
            players: vec![
                player("me", 1, "OWN", 5),
                player("friend", 2, "OWN", 5),
                player(foe_name, 3, "FOE", 0),
                player("ally", 4, "", 0),
            ],
        }),
    }
}

fn find(tracker: &PlayerTracker, db_id: i64) -> Option<&TrackedPlayer> {
    tracker.tracked_players().iter().find(|p| p.db_id() == db_id)
}

fn row_names(tracker: &PlayerTracker, now: i128) -> Vec<String> {
    tracker.table_rows(now).iter().map(|i| tracker.tracked_players()[*i].last_name().to_string()).collect()
}

#[test]
fn new_tracker_defaults() {
    let t = PlayerTracker::new();
    assert!(t.tracked_players().is_empty());
    assert_eq!(t.filter_time_period(), TimePeriod::LastDay);
    assert_eq!(t.sort_order(), SortedBy::TimesEncounteredInTimeRange(SortOrder::Desc));
    assert_eq!(t.player_filter(), "");
    assert!(t.live_game_players().is_none());
    assert_eq!(TimePeriod::default(), TimePeriod::LastDay);
    assert_eq!(SortedBy::default(), SortedBy::TimesEncounteredInTimeRange(SortOrder::Desc));
}

#[test]
fn replay_tracks_everyone_but_self_and_division() {
    let mut t = PlayerTracker::new();
    t.update_from_replay(&replay("RandomBattle", T, 1, "foe"));
    assert_eq!(t.tracked_players().len(), 2);
    assert!(find(&t, 1).is_none());
    assert!(find(&t, 2).is_none());
    let foe = find(&t, 3).unwrap();
    assert_eq!(foe.last_name(), "foe");
    assert_eq!(foe.clan(), "FOE");
    assert_eq!(foe.clan_id(), 30);
    assert_eq!(foe.timestamps(), &vec![T]);
    assert_eq!(foe.arena_ids(), &vec![1]);
    assert!(foe.names().is_empty());
    assert_eq!(foe.notes(), "");
    assert!(find(&t, 4).is_some());
}

#[test]
fn a_replay_counts_once() {
    let mut t = PlayerTracker::new();
    let r = replay("RankedBattle", T, 1, "foe");
    t.update_from_replay(&r);
    t.update_from_replay(&r);
    assert_eq!(find(&t, 3).unwrap().timestamps(), &vec![T]);
    assert_eq!(find(&t, 3).unwrap().arena_ids(), &vec![1]);
}

#[test]
fn other_game_types_and_unparsed_replays_are_ignored() {
    let mut t = PlayerTracker::new();
    t.update_from_replay(&replay("CooperativeBattle", T, 1, "foe"));
    assert!(t.tracked_players().is_empty());
    let mut r = replay("RandomBattle", T, 1, "foe");
    r.report = None;
    t.update_from_replay(&r);
    assert!(t.tracked_players().is_empty());
}

#[test]
fn without_a_known_self_nobody_is_skipped() {
    let mut t = PlayerTracker::new();
    let mut r = replay("RandomBattle", T, 1, "foe");
    r.vehicles = Vec::new();
    t.update_from_replay(&r);
    assert_eq!(t.tracked_players().len(), 4);
}

#[test]
fn a_later_name_becomes_the_last_name_and_the_old_one_an_alias() {
    let mut t = PlayerTracker::new();
    t.update_from_replay(&replay("RandomBattle", T, 1, "foe"));
    t.update_from_replay(&replay("RandomBattle", T + HOUR_NANOS, 2, "renamed"));
    let foe = find(&t, 3).unwrap();
    assert_eq!(foe.last_name(), "renamed");
    assert_eq!(foe.names(), &vec!["foe".to_string()]);
    assert_eq!(foe.timestamps(), &vec![T, T + HOUR_NANOS]);
    assert_eq!(foe.arena_ids(), &vec![1, 2]);
}

#[test]
fn an_earlier_replay_does_not_change_the_name() {
    let mut t = PlayerTracker::new();
    t.update_from_replay(&replay("RandomBattle", T + HOUR_NANOS, 2, "renamed"));
    t.update_from_replay(&replay("RandomBattle", T, 1, "foe"));
    let foe = find(&t, 3).unwrap();
    assert_eq!(foe.last_name(), "renamed");
    assert!(foe.names().is_empty());
    assert_eq!(foe.timestamps(), &vec![T, T + HOUR_NANOS]);
}

#[test]
fn table_lists_players_by_encounters() {
    let mut t = PlayerTracker::new();
    t.set_filter_time_period(TimePeriod::AllTime);
    t.update_from_replay(&replay("RandomBattle", T, 1, "foe"));
    let mut second = replay("RandomBattle", T + HOUR_NANOS, 2, "foe");
    if let Some(report) = second.report.as_mut() {
        report.players.pop();
    }
    t.update_from_replay(&second);
    assert_eq!(row_names(&t, T + 2 * HOUR_NANOS), vec!["foe".to_string(), "ally".to_string()]);
    t.click_column_header(SortedBy::TimesEncounteredInTimeRange(SortOrder::Desc));
    assert_eq!(t.sort_order(), SortedBy::TimesEncounteredInTimeRange(SortOrder::Asc));
    assert_eq!(row_names(&t, T + 2 * HOUR_NANOS), vec!["ally".to_string(), "foe".to_string()]);
    t.click_column_header(SortedBy::Name(SortOrder::Desc));
    assert_eq!(t.sort_order(), SortedBy::Name(SortOrder::Desc));
    assert_eq!(row_names(&t, T + 2 * HOUR_NANOS), vec!["foe".to_string(), "ally".to_string()]);
    t.click_column_header(SortedBy::Name(SortOrder::Desc));
    assert_eq!(t.sort_order(), SortedBy::Name(SortOrder::Asc));
    assert_eq!(row_names(&t, T + 2 * HOUR_NANOS), vec!["ally".to_string(), "foe".to_string()]);
}

#[test]
fn table_keeps_players_seen_in_the_period() {
    let mut t = PlayerTracker::new();
    t.set_filter_time_period(TimePeriod::LastHour);
    t.update_from_replay(&replay("RandomBattle", T, 1, "foe"));
    let mut second = replay("RandomBattle", T + HOUR_NANOS, 2, "foe");
    if let Some(report) = second.report.as_mut() {
        report.players.pop();
    }
    t.update_from_replay(&second);
    let now = T + HOUR_NANOS + 60_000_000_000;
    assert_eq!(row_names(&t, now), vec!["foe".to_string()]);
    t.set_filter_time_period(TimePeriod::LastSixHours);
    assert_eq!(row_names(&t, now).len(), 2);
}

#[test]
fn table_filter_matches_names_clans_and_aliases() {
    let mut t = PlayerTracker::new();
    t.set_filter_time_period(TimePeriod::AllTime);
    t.update_from_replay(&replay("RandomBattle", T, 1, "foe"));
    t.update_from_replay(&replay("RandomBattle", T + HOUR_NANOS, 2, "renamed"));
    let now = T + 2 * HOUR_NANOS;
    t.set_player_filter("FO".to_string());
    assert_eq!(t.player_filter(), "FO");
    assert_eq!(row_names(&t, now), vec!["renamed".to_string()]);
    t.set_player_filter("ALL".to_string());
    assert_eq!(row_names(&t, now), vec!["ally".to_string()]);
    t.set_player_filter("nobody".to_string());
    assert!(row_names(&t, now).is_empty());
}

#[test]
fn clearing_forgets_everyone() {
    let mut t = PlayerTracker::new();
    t.set_filter_time_period(TimePeriod::AllTime);
    t.update_from_replay(&replay("RandomBattle", T, 1, "foe"));
    t.clear_stats();
    assert!(t.tracked_players().is_empty());
    assert!(t.table_rows(T).is_empty());
    assert_eq!(t.filter_time_period(), TimePeriod::AllTime);
}

#[test]
fn live_game_players_are_kept() {
    let mut t = PlayerTracker::new();
    t.update_from_live_arena_info(T, vec!["a".to_string(), "b".to_string()]);
    let (ts, names) = t.live_game_players().as_ref().unwrap();
    assert_eq!(*ts, T);
    assert_eq!(names, &vec!["a".to_string(), "b".to_string()]);
}

#[test]
fn time_periods() {
    assert_eq!(TimePeriod::LastHour.description(), "Past Hour");
    assert_eq!(TimePeriod::LastSixHours.description(), "Past 6 Hour");
    assert_eq!(TimePeriod::LastDay.description(), "Past 24 Hours");
    assert_eq!(TimePeriod::LastWeek.description(), "Past Week");
    assert_eq!(TimePeriod::LastMonth.description(), "Past Month");
    assert_eq!(TimePeriod::AllTime.description(), "All Time");
    assert_eq!(TimePeriod::LastHour.to_date(T), Some(T - HOUR_NANOS));
    assert_eq!(TimePeriod::LastSixHours.to_date(T), Some(T - 6 * HOUR_NANOS));
    assert_eq!(TimePeriod::AllTime.to_date(T), None);
    assert_eq!(HOUR_NANOS, 3_600_000_000_000);
}

#[test]
fn sort_orders() {
    assert_eq!(SortOrder::Asc.icon(), "\u{E444}");
    assert_eq!(SortOrder::Desc.icon(), "\u{E446}");
    let mut o = SortOrder::Asc;
    o.toggle();
    assert_eq!(o, SortOrder::Desc);
    o.toggle();
    assert_eq!(o, SortOrder::Asc);
}

#[test]
fn clicking_a_header_twice_restores_the_order() {
    let mut s = SortedBy::Clan(SortOrder::Asc);
    s.transition_to(SortedBy::Clan(SortOrder::Asc));
    assert_eq!(s, SortedBy::Clan(SortOrder::Desc));
    s.transition_to(SortedBy::Clan(SortOrder::Asc));
    assert_eq!(s, SortedBy::Clan(SortOrder::Asc));
    s.transition_to(SortedBy::LastEncountered(SortOrder::Desc));
    assert_eq!(s, SortedBy::LastEncountered(SortOrder::Desc));
}

#[test]
fn encounter_levels() {
    assert_eq!(encounter_level(0), EncounterLevel::Rare);
    assert_eq!(encounter_level(1), EncounterLevel::Rare);
    assert_eq!(encounter_level(2), EncounterLevel::Repeated);
    assert_eq!(encounter_level(3), EncounterLevel::Repeated);
    assert_eq!(encounter_level(4), EncounterLevel::Frequent);
    assert_eq!(encounter_level(5), EncounterLevel::Frequent);
    assert_eq!(encounter_level(6), EncounterLevel::Constant);
}

#[test]
fn ascii_lowercasing_leaves_other_characters() {
    assert_eq!(ascii_lowercase("AbC-Ä"), vec!['a', 'b', 'c', '-', 'Ä']);
}

#[test]
fn tracker_headers_show_the_order_icon_of_the_sorted_column() {
    let current = SortedBy::Clan(SortOrder::Desc);
    assert_eq!(tracker_header_text("Clan", SortedBy::Clan(SortOrder::Asc), current), "Clan \u{E446}");
    assert_eq!(tracker_header_text("Player Name", SortedBy::Name(SortOrder::Asc), current), "Player Name");
    let asc = SortedBy::LastEncountered(SortOrder::Asc);
    assert_eq!(tracker_header_text("Last Encountered", SortedBy::LastEncountered(SortOrder::Asc), asc), "Last Encountered \u{E444}");
}

#[test]
fn row_cells_count_encounters_and_render_times() {
    let mut t = PlayerTracker::new();
    t.set_filter_time_period(TimePeriod::LastHour);
    t.update_from_replay(&replay("RandomBattle", T, 1, "foe"));
    t.update_from_replay(&replay("RandomBattle", T + HOUR_NANOS, 2, "renamed"));
    let now = T + HOUR_NANOS + 60_000_000_000;
    let index = t.tracked_players().iter().position(|p| p.db_id() == 3).unwrap();
    let row = t.row_cells(index, now);
    assert_eq!(row.times_encountered, 2);
    assert_eq!(row.times_encountered_in_range, 1);
    assert_eq!(row.level, EncounterLevel::Rare);
    assert_eq!(row.aliases, "foe");
    let last = jiff::Timestamp::from_nanosecond(T + HOUR_NANOS).unwrap();
    let now_ts = jiff::Timestamp::from_nanosecond(now).unwrap();
    let printer = jiff::fmt::friendly::SpanPrinter::new().designator(jiff::fmt::friendly::Designator::HumanTime);
    assert_eq!(row.last_encountered, printer.span_to_string(&(now_ts - last)));
    assert_eq!(row.last_encountered_at, last.strftime("%Y-%m-%d %H:%M:%S").to_string());
    assert_eq!(row.last_encountered_at, "2023-11-14 23:13:20");
    t.set_filter_time_period(TimePeriod::AllTime);
    let row = t.row_cells(index, now);
    assert_eq!(row.times_encountered_in_range, 2);
    assert_eq!(row.level, EncounterLevel::Repeated);
}
