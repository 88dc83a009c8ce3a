use wows_toolkit::listing::{
    better_file_name, chat_line, chat_message_text, check_replay_build, clan_color, count_wins_and_losses,
    date_leaf_label, group_by_date, group_by_ship, order_ship_records, replay_label, session_achievements,
    ship_leaf_label, AchievementCount, ChatChannel, ShipRecord,
};
use wows_toolkit::report::BattleResult;

#[test]
fn replay_label_has_one_part_per_line() {
    assert_eq!(
        replay_label("Yamato", "Ocean", "Domination", "Random", "01.02.2024 13:45:10"),
        "Yamato\nOcean\nDomination\nRandom\n01.02.2024 13:45:10"
    );
}

#[test]
fn better_file_name_replaces_separators() {
    assert_eq!(
        better_file_name("Yamato", "Ocean", "Domination", "Random", "01.02.2024 13:45:10"),
        "Yamato_Ocean_Domination_Random_01-02-2024-13-45-10"
    );
    assert_eq!(better_file_name("A B", "", "", "", ""), "A-B____");
}

#[test]
fn file_name_is_the_label_with_separators_replaced() {
    let parts = ["Shima kaze", "Ice.Islands", "Epicenter", "Ranked", "02.03.2024 09:08:07"];
    let label = replay_label(parts[0], parts[1], parts[2], parts[3], parts[4]);
    let expected = label.replace('\n', "_").replace(['.', ':', ' '], "-");
    assert_eq!(better_file_name(parts[0], parts[1], parts[2], parts[3], parts[4]), expected);
}

#[test]
fn replay_build_must_match() {
    assert!(check_replay_build("0,12,3,456789", "456789").is_ok());
    let e = check_replay_build("0,12,3,456789", "456790").unwrap_err();
    assert_eq!(e.game_version, "456790");
    assert_eq!(e.replay_version, "456789");
}

#[test]
fn clan_colors_split_into_channels() {
    assert_eq!(clan_color("ABC", 0x12_34_56), Some((0x12, 0x34, 0x56)));
    assert_eq!(clan_color("ABC", 0xFF_00_80), Some((0xFF, 0x00, 0x80)));
    assert_eq!(clan_color("", 0x12_34_56), None);
}

#[test]
fn chat_message_prefers_the_translation() {
    assert_eq!(chat_message_text("&lt;gg&gt;", Some("good game".to_string())), "good game");
}

#[test]
fn chat_message_decodes_html_references() {
    assert_eq!(chat_message_text("&lt;gg&gt; &amp; wp", None), "<gg> & wp");
    assert_eq!(chat_message_text("plain text", None), "plain text");
}

#[test]
fn chat_lines_name_clan_sender_and_channel() {
    assert_eq!(chat_line("ABC", "bob", ChatChannel::Team, "hi"), "[ABC] bob (Team): hi");
    assert_eq!(chat_line("", "bob", ChatChannel::Global, "hi"), "bob (Global): hi");
    assert_eq!(chat_line("X", "al", ChatChannel::Division, "go"), "[X] al (Division): go");
}

#[test]
fn replays_group_by_consecutive_dates() {
    let times = vec![
        "02.02.2024 10:00:00".to_string(),
        "02.02.2024 09:00:00".to_string(),
        "01.02.2024 23:00:00".to_string(),
        "02.02.2024 08:00:00".to_string(),
    ];
    assert_eq!(
        group_by_date(&times),
        vec![
            ("02.02.2024".to_string(), vec![0, 1]),
            ("01.02.2024".to_string(), vec![2]),
            ("02.02.2024".to_string(), vec![3]),
        ]
    );
    assert!(group_by_date(&Vec::new()).is_empty());
}

#[test]
fn replays_group_by_ship_in_first_seen_order() {
    let ships = vec!["Yamato".to_string(), "Iowa".to_string(), "Yamato".to_string(), "Kiev".to_string()];
    assert_eq!(
        group_by_ship(&ships),
        vec![
            ("Yamato".to_string(), vec![0, 2]),
            ("Iowa".to_string(), vec![1]),
            ("Kiev".to_string(), vec![3]),
        ]
    );
}

#[test]
fn wins_and_losses_are_counted() {
    let results = vec![Some(BattleResult::Win(0)), Some(BattleResult::Loss(1)), None, Some(BattleResult::Draw), Some(BattleResult::Win(1))];
    assert_eq!(count_wins_and_losses(&results, &vec![0, 1, 2, 3, 4]), (2, 1));
    assert_eq!(count_wins_and_losses(&results, &vec![1, 9]), (0, 1));
    assert_eq!(count_wins_and_losses(&results, &Vec::new()), (0, 0));
}

#[test]
fn leaf_labels() {
    assert_eq!(date_leaf_label("Yamato", "Ocean", "01.02.2024 13:45:10"), "Yamato - Ocean (13:45:10)");
    assert_eq!(date_leaf_label("Yamato", "Ocean", "noday"), "Yamato - Ocean (noday)");
    assert_eq!(ship_leaf_label("Ocean", "01.02.2024 13:45:10"), "Ocean - 01.02.2024 13:45:10");
}

fn achievement(id: u32, name: &str, count: usize) -> AchievementCount {
    AchievementCount { id, display_name: name.to_string(), description: format!("{} desc", name), count }
}

#[test]
fn session_achievements_merge_and_sort_by_count() {
    let merged = session_achievements(vec![
        achievement(1, "First Blood", 1),
        achievement(2, "Kraken", 1),
        achievement(1, "First Blood", 1),
        achievement(3, "Confederate", 5),
    ]);
    let shown: Vec<(u32, usize)> = merged.iter().map(|a| (a.id, a.count)).collect();
    assert_eq!(shown, vec![(3, 5), (1, 2), (2, 1)]);
    assert_eq!(merged[1].display_name, "First Blood");
}

#[test]
fn session_achievements_with_equal_counts_keep_first_earned_order() {
    let merged = session_achievements(vec![
        achievement(7, "Witherer", 1),
        achievement(4, "Dreadnought", 2),
        achievement(9, "Devastating Strike", 1),
        achievement(5, "Fireproof", 1),
    ]);
    let ids: Vec<u32> = merged.iter().map(|a| a.id).collect();
    assert_eq!(ids, vec![4, 7, 9, 5]);
}

#[test]
fn ship_records_order_by_wins_losses_and_name() {
    let ordered = order_ship_records(vec![
        ShipRecord { ship_name: "B".to_string(), wins: 1, losses: 0 },
        ShipRecord { ship_name: "C".to_string(), wins: 2, losses: 3 },
        ShipRecord { ship_name: "A".to_string(), wins: 1, losses: 0 },
        ShipRecord { ship_name: "D".to_string(), wins: 2, losses: 1 },
        ShipRecord { ship_name: "E".to_string(), wins: 0, losses: 0 },
    ]);
    let names: Vec<&str> = ordered.iter().map(|r| r.ship_name.as_str()).collect();
    assert_eq!(names, vec!["D", "C", "A", "B", "E"]);
}
