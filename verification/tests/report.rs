use wows_toolkit::models::{Damage, Hits, PlayerStats, PotentialDamage};
use wows_toolkit::report::{
    battle_outcome, battle_result, breakdown, cell_content, damage_dealt, detail_total, is_division_mate, CellContent, damage_report, division_labels, find_name, hits_report,
    interaction_detail, interaction_label, interaction_rows, lookup_value, potential_report, relevant_hits,
    skill_summary, time_lived_text, total_value, BattleResult, BreakdownEntry, InteractionRow, SkillSummary,
};
use wows_toolkit::sorting::{
    column_name_with_sort_order, sort_player_stats, ColumnLayout, ColumnSettings, ReplayColumn, SortColumn, SortOrder,
};

fn names(list: &[Option<&str>]) -> Vec<Option<String>> {
    list.iter().map(|n| n.map(|s| s.to_string())).collect()
}

fn values(list: &[(&str, u64)]) -> Vec<(String, u64)> {
    list.iter().map(|(k, v)| (k.to_string(), *v)).collect()
}

#[test]
fn battle_outcomes() {
    assert_eq!(battle_outcome(0, 0), BattleResult::Win(0));
    assert_eq!(battle_outcome(0, 1), BattleResult::Loss(1));
    assert_eq!(battle_outcome(1, -1), BattleResult::Draw);
}

#[test]
fn battle_result_reads_the_winner_column() {
    let n = names(&[Some("arena_id"), None, Some("winner_team_id")]);
    assert_eq!(battle_result(&n, &Some(vec![Some(7), None, Some(1)]), Some(1)), Some(BattleResult::Win(1)));
    assert_eq!(battle_result(&n, &Some(vec![Some(7), None, Some(0)]), Some(1)), Some(BattleResult::Loss(0)));
    assert_eq!(battle_result(&n, &Some(vec![Some(7), None, Some(-1)]), Some(1)), Some(BattleResult::Draw));
    assert_eq!(battle_result(&n, &Some(vec![Some(7)]), Some(1)), None);
    assert_eq!(battle_result(&n, &None, Some(1)), None);
    assert_eq!(battle_result(&n, &Some(vec![Some(7), None, Some(1)]), None), None);
    assert_eq!(battle_result(&names(&[Some("x")]), &Some(vec![Some(1)]), Some(1)), None);
}

#[test]
fn names_are_found_at_their_first_position() {
    let n = names(&[None, Some("a"), Some("b"), Some("a")]);
    assert_eq!(find_name(&n, "a"), Some(1));
    assert_eq!(find_name(&n, "b"), Some(2));
    assert_eq!(find_name(&n, "c"), None);
}

#[test]
fn skill_summaries() {
    assert_eq!(
        skill_summary(&Some(vec![1, 2, 4, 1, 3])),
        SkillSummary { skill_points: 11, num_skills: 5, highest_tier: 4, num_tier_1_skills: 2 }
    );
    assert_eq!(
        skill_summary(&None),
        SkillSummary { skill_points: 0, num_skills: 0, highest_tier: 0, num_tier_1_skills: 0 }
    );
    assert_eq!(
        skill_summary(&Some(Vec::new())),
        SkillSummary { skill_points: 0, num_skills: 0, highest_tier: 0, num_tier_1_skills: 0 }
    );
}

#[test]
fn time_lived_is_minutes_and_two_digit_seconds() {
    assert_eq!(time_lived_text(0), "0:00");
    assert_eq!(time_lived_text(65), "1:05");
    assert_eq!(time_lived_text(600), "10:00");
    assert_eq!(time_lived_text(1199), "19:59");
}

fn entry(key: &str, description: &str, value: Option<u64>) -> BreakdownEntry {
    BreakdownEntry {
        key: key.to_string(),
        description: description.to_string(),
        value,
        value_text: match value {
            Some(v) => v.to_string(),
            None => "-".to_string(),
        },
    }
}

#[test]
fn breakdown_keeps_positive_values_and_aligns_descriptions() {
    let b = breakdown(&vec![
        entry("damage_main_ap", "AP", Some(1200)),
        entry("damage_fire", "Fire", Some(0)),
        entry("damage_main_he", "HE shells", Some(300)),
        entry("damage_flood", "Flooding", None),
    ]);
    assert_eq!(b.values, values(&[("damage_main_ap", 1200), ("damage_main_he", 300)]));
    assert_eq!(b.hover_text, "AP        : 1200\nHE shells : 300");
    let empty = breakdown(&Vec::new());
    assert!(empty.values.is_empty());
    assert_eq!(empty.hover_text, "");
}

#[test]
fn lookups_take_the_last_value_of_a_key() {
    let v = values(&[("a", 1), ("b", 2), ("a", 3)]);
    assert_eq!(lookup_value(&v, "a"), Some(3));
    assert_eq!(lookup_value(&v, "b"), Some(2));
    assert_eq!(lookup_value(&v, "c"), None);
    assert_eq!(total_value(&v), 5);
    assert_eq!(total_value(&Vec::new()), 0);
}

#[test]
fn damage_hits_and_potential_reports() {
    let v = values(&[
        ("damage_main_ap", 10),
        ("damage_main_cs", 11),
        ("damage_main_he", 12),
        ("damage_atba_he", 13),
        ("damage_atba_cs", 14),
        ("damage_tpd_normal", 15),
        ("damage_tpd_deep", 16),
        ("damage_fire", 17),
        ("damage_flood", 18),
        ("hits_main_ap", 1),
        ("hits_main_he", 2),
        ("hits_tpd", 3),
        ("agro_art", 100),
        ("agro_air", 300),
    ]);
    assert_eq!(
        damage_report(&v),
        Damage {
            ap: Some(10),
            sap: Some(11),
            he: Some(12),
            he_secondaries: Some(13),
            sap_secondaries: Some(14),
            torps: Some(15),
            deep_water_torps: Some(16),
            fire: Some(17),
            flooding: Some(18),
        }
    );
    assert_eq!(
        hits_report(&v),
        Hits { ap: Some(1), sap: None, he: Some(2), he_secondaries: None, sap_secondaries: None, torps: Some(3) }
    );
    assert_eq!(potential_report(&v), PotentialDamage { artillery: 100, torpedoes: 0, planes: 300 });
}

#[test]
fn relevant_hits_depend_on_the_ship_type() {
    let v = values(&[
        ("hits_main_ap", 1),
        ("hits_main_cs", 2),
        ("hits_main_he", 4),
        ("hits_rocket", 8),
        ("hits_rocket_airsupport", 16),
        ("hits_skip", 32),
        ("hits_skip_alt", 64),
        ("hits_skip_airsupport", 128),
    ]);
    assert_eq!(relevant_hits(&v, false), 7);
    assert_eq!(relevant_hits(&v, true), 248);
    assert_eq!(relevant_hits(&Vec::new(), true), 0);
}

#[test]
fn division_letters_follow_first_appearance() {
    assert_eq!(
        division_labels(&vec![0, 7, 3, 7, 0, 3, 9]),
        vec![None, Some('A'), Some('B'), Some('A'), None, Some('B'), Some('C')]
    );
    let many: Vec<u32> = (1..=28).collect();
    let labels = division_labels(&many);
    assert_eq!(labels[0], Some('A'));
    assert_eq!(labels[25], Some('Z'));
    assert_eq!(labels[26], Some('?'));
    assert_eq!(labels[27], Some('?'));
}

#[test]
fn interaction_details_and_damage_dealt() {
    let n = names(&[Some("fires"), Some("damage_main_he"), None, Some("damage_main_ap")]);
    let v = vec![Some(2), Some(500), Some(9), None];
    assert_eq!(interaction_detail(&n, &v, "fires"), 2);
    assert_eq!(interaction_detail(&n, &v, "damage_main_ap"), 0);
    assert_eq!(interaction_detail(&n, &v, "floods"), 0);
    let keys = vec!["damage_main_he".to_string(), "damage_main_ap".to_string(), "fires".to_string()];
    assert_eq!(damage_dealt(&n, &v, &keys), 502);
    assert_eq!(damage_dealt(&n, &v, &Vec::new()), 0);
}

#[test]
fn interaction_rows_drop_zero_damage_and_sort_by_damage() {
    let rows = interaction_rows(vec![
        InteractionRow { db_id: 1, damage: 100 },
        InteractionRow { db_id: 2, damage: 0 },
        InteractionRow { db_id: 3, damage: 300 },
        InteractionRow { db_id: 4, damage: 100 },
    ]);
    let ids: Vec<i64> = rows.iter().map(|r| r.db_id).collect();
    assert_eq!(ids, vec![3, 1, 4]);
    assert_eq!(interaction_label("Yamato", "1,200", "45%"), "Yamato: 1,200 (45%)");
}

fn stats(db_id: i64, team_id: i64, relation: u32, name: &str, species: u32, observed_damage: u64) -> PlayerStats {
    PlayerStats {
        db_id,
        team_id,
        relation,
        name: name.to_string(),
        clan: String::new(),
        ship_name: format!("ship{}", db_id),
        species,
        division_label: None,
        base_xp: None,
        raw_xp: None,
        observed_damage,
        observed_damage_text: observed_damage.to_string(),
        actual_damage: None,
        actual_damage_report: None,
        actual_damage_text: None,
        actual_damage_hover_text: None,
        hits: None,
        hits_report: None,
        spotting_damage: Some(5),
        potential_damage: None,
        potential_damage_text: None,
        potential_damage_hover_text: None,
        potential_damage_report: None,
        time_lived_secs: None,
        time_lived_text: None,
        received_damage: None,
        received_damage_text: None,
        received_damage_hover_text: None,
        received_damage_report: None,
        fires: None,
        floods: None,
        citadels: None,
        crits: None,
        distance_traveled: None,
        is_test_ship: false,
        manual_stat_hide_toggle: false,
        kills: Some(1),
        observed_kills: 0,
        personal_rating: None,
    }
}

#[test]
fn player_flags() {
    let me = stats(1, 0, 0, "me", 0, 0);
    let foe = stats(2, 1, 2, "foe", 0, 0);
    assert!(me.is_self());
    assert!(!me.is_enemy());
    assert!(foe.is_enemy());
    let mut test_ship = stats(3, 1, 2, "tester", 0, 0);
    test_ship.is_test_ship = true;
    assert!(test_ship.should_hide_stats());
    let mut own_test_ship = stats(1, 0, 0, "me", 0, 0);
    own_test_ship.is_test_ship = true;
    assert!(!own_test_ship.should_hide_stats());
    own_test_ship.manual_stat_hide_toggle = true;
    assert!(own_test_ship.should_hide_stats());
}

#[test]
fn nda_ships_lose_their_damage_numbers() {
    let mut p = stats(1, 0, 2, "x", 0, 1234);
    p.fires = Some(3);
    p.received_damage_text = Some("999".to_string());
    p.remove_nda_info();
    assert_eq!(p.observed_damage, 0);
    assert_eq!(p.observed_damage_text, "NDA");
    assert_eq!(p.actual_damage, Some(0));
    assert_eq!(p.actual_damage_text.as_deref(), Some("NDA"));
    assert_eq!(p.potential_damage_text.as_deref(), Some("NDA"));
    assert_eq!(p.received_damage_text.as_deref(), Some("NDA"));
    assert_eq!(p.fires, Some(0));
    assert_eq!(p.spotting_damage, Some(5));
    assert_eq!(p.kills, Some(1));
}

#[test]
fn players_sort_by_team_then_column() {
    let players = vec![
        stats(1, 1, 2, "e1", 2, 300),
        stats(2, 0, 1, "a1", 1, 100),
        stats(3, 0, 0, "me", 3, 200),
        stats(4, 1, 2, "e2", 1, 900),
    ];
    let desc: Vec<i64> =
        sort_player_stats(players, SortOrder::Desc(SortColumn::ObservedDamage), 0, false).iter().map(|p| p.db_id).collect();
    assert_eq!(desc, vec![3, 2, 4, 1]);
    let players = vec![
        stats(1, 1, 2, "e1", 2, 300),
        stats(2, 0, 1, "a1", 1, 100),
        stats(3, 0, 0, "me", 3, 200),
        stats(4, 1, 2, "e2", 1, 900),
    ];
    let by_name: Vec<i64> =
        sort_player_stats(players, SortOrder::Asc(SortColumn::Name), 0, false).iter().map(|p| p.db_id).collect();
    assert_eq!(by_name, vec![2, 3, 1, 4]);
}

#[test]
fn header_clicks_cycle_through_orders() {
    let mut order = SortOrder::default();
    assert_eq!(order, SortOrder::Asc(SortColumn::ShipClass));
    assert_eq!(order.update_column(SortColumn::Kills), SortOrder::Desc(SortColumn::Kills));
    assert_eq!(order.update_column(SortColumn::Kills), SortOrder::Asc(SortColumn::Kills));
    assert_eq!(order.update_column(SortColumn::Kills), SortOrder::Asc(SortColumn::ShipClass));
    assert_eq!(order.column(), SortColumn::ShipClass);
    assert_eq!(order.icon(), "\u{E444}");
    order.toggle();
    assert_eq!(order, SortOrder::Asc(SortColumn::ShipClass));
    let mut d = SortOrder::Desc(SortColumn::Fires);
    assert_eq!(d.icon(), "\u{E446}");
    d.toggle();
    assert_eq!(d, SortOrder::Asc(SortColumn::Fires));
}

#[test]
fn column_headers_show_info_and_order_icons() {
    let order = SortOrder::Desc(SortColumn::Kills);
    assert_eq!(column_name_with_sort_order("Kills", false, order, SortColumn::Kills), "Kills \u{E446}");
    assert_eq!(column_name_with_sort_order("Kills", true, order, SortColumn::Kills), "Kills \u{E2CE} \u{E446}");
    assert_eq!(column_name_with_sort_order("Fires", true, order, SortColumn::Fires), "Fires \u{E2CE}");
    assert_eq!(column_name_with_sort_order("Fires", false, order, SortColumn::Fires), "Fires");
}

#[test]
fn optional_columns_follow_the_settings() {
    let mut layout = ColumnLayout::initial();
    assert_eq!(layout.columns.len(), 20);
    assert_eq!(layout.columns[0], ReplayColumn::Actions);
    let settings = ColumnSettings {
        show_raw_xp: false,
        show_observed_damage: true,
        show_fires: false,
        show_floods: true,
        show_citadels: false,
        show_crits: false,
        show_received_damage: true,
        show_distance_traveled: false,
    };
    layout.update_visible_columns(&settings);
    assert!(!layout.columns.contains(&ReplayColumn::RawXp));
    assert!(!layout.columns.contains(&ReplayColumn::Fires));
    assert!(layout.columns.contains(&ReplayColumn::Floods));
    assert!(layout.columns.contains(&ReplayColumn::Skills));
    assert_eq!(layout.columns.len(), 15);
    let once = layout.columns.clone();
    layout.update_visible_columns(&settings);
    assert_eq!(layout.columns, once);
    assert_eq!(layout.columns[3], ReplayColumn::Skills);
}

#[test]
fn interaction_details_add_up_over_victims() {
    let n = names(&[Some("fires"), Some("floods"), Some("citadels")]);
    let victims = vec![vec![Some(1), Some(0), Some(2)], vec![Some(3), None], vec![]];
    assert_eq!(detail_total(&n, &victims, "fires"), 4);
    assert_eq!(detail_total(&n, &victims, "floods"), 0);
    assert_eq!(detail_total(&n, &victims, "citadels"), 2);
    assert_eq!(detail_total(&n, &victims, "crits"), 0);
    assert_eq!(detail_total(&n, &Vec::new(), "fires"), 0);
}

#[test]
fn division_mates_share_a_positive_division() {
    assert!(is_division_mate(Some((1, 5)), 2, 5));
    assert!(!is_division_mate(Some((1, 5)), 1, 5));
    assert!(!is_division_mate(Some((1, 0)), 2, 0));
    assert!(!is_division_mate(Some((1, 5)), 2, 6));
    assert!(!is_division_mate(None, 2, 5));
}

#[test]
fn table_cells_hide_and_dash() {
    let mut p = stats(1, 1, 2, "e1", 2, 300);
    p.actual_damage_text = Some("1,200".to_string());
    p.fires = Some(2);
    p.hits = Some(7);
    p.base_xp = Some(1500);
    assert_eq!(cell_content(&p, ReplayColumn::ObservedDamage, false), CellContent::Text("300".to_string()));
    assert_eq!(cell_content(&p, ReplayColumn::ActualDamage, false), CellContent::Text("1,200".to_string()));
    assert_eq!(cell_content(&p, ReplayColumn::ReceivedDamage, false), CellContent::Missing);
    assert_eq!(cell_content(&p, ReplayColumn::Fires, false), CellContent::Count(2));
    assert_eq!(cell_content(&p, ReplayColumn::Floods, false), CellContent::Missing);
    assert_eq!(cell_content(&p, ReplayColumn::Hits, false), CellContent::Count(7));
    assert_eq!(cell_content(&p, ReplayColumn::BaseXp, false), CellContent::Signed(1500));
    assert_eq!(cell_content(&p, ReplayColumn::RawXp, false), CellContent::Missing);
    assert_eq!(cell_content(&p, ReplayColumn::Kills, false), CellContent::Signed(1));
    assert_eq!(cell_content(&p, ReplayColumn::SpottingDamage, false), CellContent::Count(5));
    assert_eq!(cell_content(&p, ReplayColumn::ShipName, false), CellContent::Text("ship1".to_string()));
    assert_eq!(cell_content(&p, ReplayColumn::Skills, false), CellContent::Missing);
    assert_eq!(cell_content(&p, ReplayColumn::Skills, true), CellContent::Drawn);
    assert_eq!(cell_content(&p, ReplayColumn::DistanceTraveled, false), CellContent::Missing);
    assert_eq!(cell_content(&p, ReplayColumn::Name, false), CellContent::Drawn);
    p.is_test_ship = true;
    assert_eq!(cell_content(&p, ReplayColumn::ObservedDamage, false), CellContent::Hidden);
    assert_eq!(cell_content(&p, ReplayColumn::ActualDamage, false), CellContent::Hidden);
    assert_eq!(cell_content(&p, ReplayColumn::ReceivedDamage, false), CellContent::Missing);
    assert_eq!(cell_content(&p, ReplayColumn::Fires, false), CellContent::Hidden);
    assert_eq!(cell_content(&p, ReplayColumn::Fires, true), CellContent::Count(2));
    p.kills = None;
    p.observed_kills = 3;
    assert_eq!(cell_content(&p, ReplayColumn::Kills, false), CellContent::Signed(3));
}
