use wows_toolkit::armor::{
    build_hull_part_groups, comparison_search, hull_group_order, hull_part_group, ship_tree_filter, MAX_SEARCH_RESULTS,
};
use wows_toolkit::files::{entry_hover_text, filter_file_list, viewable_file, ViewableKind};

#[test]
fn viewable_files_by_extension() {
    assert_eq!(viewable_file("content/GameParams.xml"), Some((ViewableKind::PlainText, ".xml")));
    assert_eq!(viewable_file("a.json"), Some((ViewableKind::PlainText, ".json")));
    assert_eq!(viewable_file("readme.txt"), Some((ViewableKind::PlainText, ".txt")));
    assert_eq!(viewable_file("icon.png"), Some((ViewableKind::Image, ".png")));
    assert_eq!(viewable_file("photo.jpg"), Some((ViewableKind::Image, ".jpg")));
    assert_eq!(viewable_file("logo.svg"), Some((ViewableKind::Image, ".svg")));
    assert_eq!(viewable_file("model.geometry"), None);
    assert_eq!(viewable_file("xml"), None);
}

fn paths() -> Vec<String> {
    vec![
        "content/GameParams.xml".to_string(),
        "gui/icons/ship.png".to_string(),
        "content/readme.txt".to_string(),
        "gui/a[*b".to_string(),
    ]
}

#[test]
fn short_filters_give_no_list() {
    assert_eq!(filter_file_list("", &paths()), None);
    assert_eq!(filter_file_list("ab", &paths()), None);
    // Three bytes in two characters are enough.
    assert_eq!(filter_file_list("é.", &paths()), Some(Vec::new()));
}

#[test]
fn filters_without_a_star_match_substrings() {
    assert_eq!(filter_file_list("content", &paths()), Some(vec![0, 2]));
    assert_eq!(filter_file_list("nothing", &paths()), Some(Vec::new()));
}

#[test]
fn filters_with_a_star_match_as_globs() {
    assert_eq!(filter_file_list("*.xml", &paths()), Some(vec![0]));
    assert_eq!(filter_file_list("gui/*", &paths()), Some(vec![1, 3]));
    assert_eq!(filter_file_list("content/*.txt", &paths()), Some(vec![2]));
}

#[test]
fn invalid_globs_match_as_substrings() {
    assert_eq!(filter_file_list("a[*", &paths()), Some(vec![3]));
}

#[test]
fn hull_parts_are_grouped_by_hard_point() {
    assert_eq!(hull_part_group("Hull"), "Hull");
    assert_eq!(hull_part_group("Superstructure"), "Superstructure");
    assert_eq!(hull_part_group("DeckHouse"), "DeckHouse");
    assert_eq!(hull_part_group("Turret[HP_AGM1]"), "Main Battery");
    assert_eq!(hull_part_group("Sec[HP_AGS2]"), "Secondary Battery");
    assert_eq!(hull_part_group("AA[HP_AGA3]"), "AA Guns");
    assert_eq!(hull_part_group("Tube[HP_ATBA1]"), "Torpedoes");
    assert_eq!(hull_part_group("Tube[HP_AT_1]"), "Torpedoes");
    assert_eq!(hull_part_group("Radar[HP_RDR]"), "Other");
}

#[test]
fn hull_group_orders() {
    assert_eq!(hull_group_order("Hull"), 0);
    assert_eq!(hull_group_order("Main Battery"), 1);
    assert_eq!(hull_group_order("Secondary Battery"), 2);
    assert_eq!(hull_group_order("AA Guns"), 3);
    assert_eq!(hull_group_order("Torpedoes"), 4);
    assert_eq!(hull_group_order("Other"), 5);
    assert_eq!(hull_group_order("Something"), 6);
}

#[test]
fn hull_part_groups_are_ordered_and_deduplicated() {
    let names = vec![
        "Turret[HP_AGM2]".to_string(),
        "Superstructure".to_string(),
        "Turret[HP_AGM1]".to_string(),
        "Hull".to_string(),
        "Radar[HP_RDR]".to_string(),
        "DeckHouse".to_string(),
        "Hull".to_string(),
    ];
    assert_eq!(
        build_hull_part_groups(&names),
        vec![
            ("Hull".to_string(), vec!["Hull".to_string()]),
            ("Main Battery".to_string(), vec!["Turret[HP_AGM1]".to_string(), "Turret[HP_AGM2]".to_string()]),
            ("Other".to_string(), vec!["Radar[HP_RDR]".to_string()]),
            ("DeckHouse".to_string(), vec!["DeckHouse".to_string()]),
            ("Superstructure".to_string(), vec!["Superstructure".to_string()]),
        ]
    );
    assert!(build_hull_part_groups(&Vec::new()).is_empty());
}

fn catalog() -> Vec<(String, String)> {
    vec![
        ("yamato".to_string(), "PJSB018".to_string()),
        ("iowa".to_string(), "PASB018".to_string()),
        ("yamato b".to_string(), "PJSB999".to_string()),
        ("kiev".to_string(), "PRSD208".to_string()),
    ]
}

#[test]
fn comparison_search_lowercases_and_transliterates() {
    assert_eq!(comparison_search("YAMATO", &catalog(), &Vec::new()), vec![0, 2]);
    assert_eq!(comparison_search("Кiev", &catalog(), &Vec::new()), vec![3]);
    assert_eq!(comparison_search("yamáto", &catalog(), &Vec::new()), vec![0, 2]);
}

#[test]
fn comparison_search_skips_ships_already_compared() {
    assert_eq!(comparison_search("yamato", &catalog(), &vec!["PJSB018".to_string()]), vec![2]);
}

#[test]
fn comparison_search_lists_at_most_ten() {
    let many: Vec<(String, String)> = (0..15).map(|i| (format!("ship{}", i), format!("P{}", i))).collect();
    let found = comparison_search("ship", &many, &Vec::new());
    assert_eq!(MAX_SEARCH_RESULTS, 10);
    assert_eq!(found, (0..10).collect::<Vec<usize>>());
}

#[test]
fn file_list_hover_texts() {
    assert_eq!(entry_hover_text(false, 123), "Folder");
    assert_eq!(entry_hover_text(true, 1500), format!("File ({})", humansize::format_size(1500u64, humansize::DECIMAL)));
    assert_eq!(entry_hover_text(true, 1500), "File (1.50 kB)");
    assert_eq!(entry_hover_text(true, 999), "File (999 B)");
}

fn ship_tree() -> Vec<Vec<Vec<String>>> {
    let names = |v: &[&str]| v.iter().map(|s| s.to_string()).collect::<Vec<String>>();
    vec![
        vec![names(&["yamato", "musashi"]), names(&["shimakaze"])],
        vec![names(&["iowa"]), names(&[])],
    ]
}

#[test]
fn ship_tree_without_query_shows_everything() {
    assert_eq!(
        ship_tree_filter("", &ship_tree()),
        vec![(0, vec![(0, vec![0, 1]), (1, vec![0])]), (1, vec![(0, vec![0]), (1, vec![])])]
    );
}

#[test]
fn ship_tree_keeps_only_branches_with_a_match() {
    assert_eq!(ship_tree_filter("MUSA", &ship_tree()), vec![(0, vec![(0, vec![1])])]);
    assert_eq!(ship_tree_filter("\u{00cf}owa", &ship_tree()), vec![(1, vec![(0, vec![0])])]);
    assert_eq!(ship_tree_filter("bismarck", &ship_tree()), Vec::<(usize, Vec<(usize, Vec<usize>)>)>::new());
}

#[test]
fn armor_parts_and_plates_start_shown() {
    let v = wows_toolkit::armor_visibility::ArmorVisibility::new();
    assert!(v.part_visible("Citadel", "Deck"));
    assert!(v.plate_visible("Citadel", "Deck", 250));
    assert!(v.triangle_shown(false, false, false, false, "Citadel", "Deck", 250));
    assert!(!v.triangle_shown(false, true, false, false, "Citadel", "Deck", 0));
    assert!(!v.triangle_shown(true, false, true, false, "Citadel", "Deck", 250));
}

#[test]
fn plates_toggle_and_parts_reset_their_plates() {
    let mut v = wows_toolkit::armor_visibility::ArmorVisibility::new();
    v.toggle_plate("Citadel", "Deck", 250);
    assert!(!v.plate_visible("Citadel", "Deck", 250));
    assert!(v.plate_visible("Citadel", "Deck", 320));
    assert_eq!(v.part_check_box("Citadel", "Deck", &vec![250, 320], false), (false, true));
    v.toggle_plate("Citadel", "Deck", 250);
    assert!(v.plate_visible("Citadel", "Deck", 250));
    v.toggle_plate("Citadel", "Deck", 250);
    v.set_part_visible("Citadel", "Deck", true, &vec![250, 320]);
    assert!(v.plate_visible("Citadel", "Deck", 250));
    assert_eq!(v.part_check_box("Citadel", "Deck", &vec![250, 320], false), (true, false));
    v.set_part_visible("Citadel", "Deck", false, &vec![]);
    assert!(!v.part_visible("Citadel", "Deck"));
    assert_eq!(v.part_check_box("Citadel", "Deck", &vec![250], false), (false, false));
    v.set_parts_visible(&vec![("Citadel".to_string(), "Deck".to_string()), ("Bow".to_string(), "Belt".to_string())], true);
    assert!(v.part_visible("Citadel", "Deck"));
    v.toggle_plate("Bow", "Belt", 0);
    assert_eq!(v.part_check_box("Bow", "Belt", &vec![0], false), (true, false));
    assert_eq!(v.part_check_box("Bow", "Belt", &vec![0], true), (false, true));
    v.clear_plates();
    assert!(v.plate_visible("Bow", "Belt", 0));
}
