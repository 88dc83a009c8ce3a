use wows_toolkit::models::{
    ability_title_id, module_description_id, module_title_id, sort_crew_skills, TranslatedCrewSkill, TranslatedModule,
};

#[test]
fn game_text_keys_are_upper_cased() {
    assert_eq!(module_title_id("PCM030_MainWeapon_Mod_I"), "IDS_TITLE_PCM030_MAINWEAPON_MOD_I");
    assert_eq!(module_description_id("pcm030"), "IDS_DESC_PCM030");
    assert_eq!(ability_title_id("PCY009_CrashCrewPremium"), "IDS_DOCK_CONSUME_TITLE_PCY009_CRASHCREWPREMIUM");
    assert_eq!(module_title_id("straße"), "IDS_TITLE_STRASSE");
}

#[test]
fn blank_module_descriptions_are_dropped() {
    let m = TranslatedModule::new("PCM".to_string(), Some("Main".to_string()), Some(" ".to_string()));
    assert_eq!(m.description, None);
    assert_eq!(m.name.as_deref(), Some("Main"));
    assert_eq!(m.game_params_name, "PCM");
    let m = TranslatedModule::new("PCM".to_string(), None, Some(String::new()));
    assert_eq!(m.description, None);
    let m = TranslatedModule::new("PCM".to_string(), None, Some("  ".to_string()));
    assert_eq!(m.description.as_deref(), Some("  "));
}

fn skill(tier: usize, name: &str) -> TranslatedCrewSkill {
    TranslatedCrewSkill { tier, name: Some(name.to_string()), description: None, internal_name: name.to_string() }
}

#[test]
fn crew_skills_sort_by_tier_stably() {
    let sorted = sort_crew_skills(vec![skill(3, "a"), skill(1, "b"), skill(3, "c"), skill(2, "d"), skill(1, "e")]);
    let names: Vec<&str> = sorted.iter().map(|s| s.internal_name.as_str()).collect();
    assert_eq!(names, vec!["b", "e", "d", "a", "c"]);
}
