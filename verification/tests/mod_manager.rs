use wows_toolkit::mod_manager::{IndexModInfo, ModInfo, ModManagerIndex, ModManagerInfo};

fn index_mod(id: &str, category: &str, name: &str, author: &str) -> IndexModInfo {
    IndexModInfo::new(
        id.to_string(),
        category.to_string(),
        author.to_string(),
        name.to_string(),
        format!("{} description", name),
        format!("https://example.com/{}", id),
        vec![format!("{}.png", id)],
        None,
        "c0ffee".to_string(),
        vec![format!("res_mods/{}", id)],
        Vec::new(),
    )
}

fn names(info: &ModManagerInfo) -> Vec<(String, Vec<(String, bool, Vec<String>)>)> {
    info.categories()
        .iter()
        .map(|(g, cs)| {
            (
                g.clone(),
                cs.iter()
                    .map(|c| (c.name.clone(), c.enabled, c.mods.iter().map(|m| m.meta.unique_id().to_string()).collect()))
                    .collect(),
            )
        })
        .collect()
}

fn sample_index() -> ModManagerIndex {
    ModManagerIndex {
        mods: vec![
            index_mod("m1", "Skins/Ships", "Big Guns", "ann"),
            index_mod("m2", "Audio/Voices", "Loud Voices", "bob"),
            index_mod("m3", "Skins/Flags", "Flags", "cid"),
            index_mod("m4", "Uncategorised", "Lost", "dan"),
            index_mod("m5", "Skins/Ships/Extra", "Small Guns", "eve"),
        ],
    }
}

#[test]
fn index_mod_getters() {
    let m = IndexModInfo::new(
        "id".to_string(),
        "A/B".to_string(),
        "author".to_string(),
        "name".to_string(),
        "desc".to_string(),
        "url".to_string(),
        vec!["p1".to_string(), "p2".to_string()],
        Some("discord".to_string()),
        "commit".to_string(),
        vec!["path".to_string()],
        vec!["dep".to_string()],
    );
    assert_eq!(m.unique_id(), "id");
    assert_eq!(m.category(), "A/B");
    assert_eq!(m.author(), "author");
    assert_eq!(m.name(), "name");
    assert_eq!(m.description(), "desc");
    assert_eq!(m.repo_url(), "url");
    assert_eq!(m.preview_images(), &vec!["p1".to_string(), "p2".to_string()]);
    assert_eq!(m.discord_approval_url(), Some(&"discord".to_string()));
    assert_eq!(m.commit(), "commit");
    assert_eq!(m.paths(), &vec!["path".to_string()]);
    assert_eq!(m.dependencies(), &vec!["dep".to_string()]);
    let d = m.duplicate();
    assert_eq!(d.unique_id(), "id");
    assert_eq!(d.discord_approval_url(), Some(&"discord".to_string()));
}

#[test]
fn new_manager_is_empty() {
    let info = ModManagerInfo::new();
    assert_eq!(info.index_hash(), "");
    assert!(info.categories().is_empty());
    assert_eq!(info.filter_text(), "");
}

#[test]
fn index_is_grouped_and_sorted() {
    let mut info = ModManagerInfo::new();
    info.update_index("hash1".to_string(), sample_index());
    assert_eq!(info.index_hash(), "hash1");
    assert_eq!(
        names(&info),
        vec![
            ("Audio".to_string(), vec![("Voices".to_string(), true, vec!["m2".to_string()])]),
            (
                "Skins".to_string(),
                vec![
                    ("Flags".to_string(), true, vec!["m3".to_string()]),
                    ("Ships".to_string(), true, vec!["m1".to_string(), "m5".to_string()]),
                ]
            ),
        ]
    );
    for (_, cs) in info.categories() {
        for c in cs {
            for m in &c.mods {
                assert!(!m.enabled);
                assert!(m.mod_paths.is_empty());
            }
        }
    }
}

#[test]
fn mod_state_carries_over_to_a_new_index() {
    let mut info = ModManagerInfo::new();
    info.update_index("hash1".to_string(), sample_index());
    {
        let groups = info.categories_mut();
        let ships = &mut groups[1].1[1];
        assert_eq!(ships.name, "Ships");
        ships.mods[0].enabled = true;
        ships.mods[0].mod_paths = vec!["res_mods/a.txt".to_string()];
    }
    let renamed = ModManagerIndex {
        mods: vec![
            index_mod("m9", "Skins/Ships", "Newcomer", "zed"),
            index_mod("m1", "Skins/Ships", "Bigger Guns", "ann"),
        ],
    };
    info.update_index("hash2".to_string(), renamed);
    assert_eq!(info.index_hash(), "hash2");
    let ships = &info.categories()[0].1[0];
    assert_eq!(ships.mods.len(), 2);
    assert_eq!(ships.mods[0].meta.unique_id(), "m9");
    assert!(!ships.mods[0].enabled);
    assert_eq!(ships.mods[1].meta.name(), "Bigger Guns");
    assert!(ships.mods[1].enabled);
    assert_eq!(ships.mods[1].mod_paths, vec!["res_mods/a.txt".to_string()]);
}

#[test]
fn only_the_first_mod_with_an_id_takes_its_state() {
    let mut info = ModManagerInfo::new();
    info.update_categories(vec![index_mod("m1", "A/B", "one", "x")]);
    info.categories_mut()[0].1[0].mods[0].enabled = true;
    info.update_categories(vec![index_mod("m1", "A/B", "first", "x"), index_mod("m1", "A/C", "second", "x")]);
    let groups = info.categories();
    assert_eq!(groups[0].1[0].name, "B");
    assert!(groups[0].1[0].mods[0].enabled);
    assert_eq!(groups[0].1[1].name, "C");
    assert!(!groups[0].1[1].mods[0].enabled);
}

#[test]
fn categories_come_back_enabled_after_an_update() {
    let mut info = ModManagerInfo::new();
    info.update_categories(vec![index_mod("m1", "A/B", "one", "x")]);
    info.categories_mut()[0].1[0].enabled = false;
    assert!(!info.categories()[0].1[0].enabled);
    info.update_categories(vec![index_mod("m1", "A/B", "one", "x")]);
    assert!(info.categories()[0].1[0].enabled);
}

#[test]
fn updating_keeps_the_filter_and_hash() {
    let mut info = ModManagerInfo::new();
    info.set_filter_text("guns".to_string());
    info.update_index("h".to_string(), sample_index());
    info.update_categories(Vec::new());
    assert_eq!(info.filter_text(), "guns");
    assert_eq!(info.index_hash(), "h");
    assert!(info.categories().is_empty());
}

#[test]
fn mods_are_found_by_id_in_list_order() {
    let mut info = ModManagerInfo::new();
    info.update_categories(vec![index_mod("dup", "Z/Z", "later", "x"), index_mod("dup", "A/A", "earlier", "x")]);
    assert_eq!(info.mod_by_id("dup").unwrap().meta.name(), "earlier");
    assert!(info.mod_by_id("nothing").is_none());
}

#[test]
fn filter_matches_names_but_not_authors() {
    let m = ModInfo { enabled: false, mod_paths: Vec::new(), meta: index_mod("m", "A/B", "Big GUNS", "ann") };
    assert!(m.shown_under_filter(""));
    assert!(m.shown_under_filter("guns"));
    assert!(m.shown_under_filter("BIG"));
    assert!(!m.shown_under_filter("small"));
    let by_gunner = ModInfo { enabled: false, mod_paths: Vec::new(), meta: index_mod("m", "A/B", "Big Guns", "gunsmith") };
    assert!(!by_gunner.shown_under_filter("guns"));
}

#[test]
fn meta_update_keeps_state() {
    let mut m = ModInfo { enabled: true, mod_paths: vec!["x".to_string()], meta: index_mod("m", "A/B", "old", "a") };
    let other = ModInfo { enabled: false, mod_paths: Vec::new(), meta: index_mod("m", "A/B", "new", "a") };
    m.update_meta(&other);
    assert!(m.enabled);
    assert_eq!(m.mod_paths, vec!["x".to_string()]);
    assert_eq!(m.meta.name(), "new");
}

#[test]
fn mods_without_a_group_and_category_form_no_group() {
    let mut info = ModManagerInfo::new();
    info.update_categories(vec![
        index_mod("b", "Zeta/y", "B", "x"),
        index_mod("a", "Alpha/x", "A", "x"),
        index_mod("c", "Misc", "C", "x"),
    ]);
    assert_eq!(
        names(&info),
        vec![
            ("Alpha".to_string(), vec![("x".to_string(), true, vec!["a".to_string()])]),
            ("Zeta".to_string(), vec![("y".to_string(), true, vec!["b".to_string()])]),
        ]
    );
    assert!(info.mod_by_id("c").is_none());
}
