use wows_toolkit::outside::ReleaseVersion;
use wows_toolkit::task::{
    app_update_status, builds_from_listing, choose_latest_build, constants_check_due, constants_outdated,
    extension_of, fallback_candidates, friendly_build, is_replay_file_name, localization_dirs, localization_file,
    parse_client_version, versioned_constants_file, versioned_constants_repo_path,
    should_upload_builds, skipped_in_scan, version_from_preferences, BackgroundTaskKind, ClientVersion,
    ConstantsAction, ConstantsEvent, ConstantsSearch, DataExportSettings, DownloadProgress, ParserSettings,
    ReplayBackgroundParserThreadMessage, ReplayExportFormat, SentReplays, ToastLevel, ToastMessage, UpdateCheck,
    CONSTANTS_CHECK_INTERVAL_SECS,
};

fn chars(s: &str) -> Vec<char> {
    s.chars().collect()
}

#[test]
fn toasts_carry_their_level() {
    let t = ToastMessage::success("done".to_string());
    assert_eq!(t.message, "done");
    assert_eq!(t.level, ToastLevel::Success);
    assert_eq!(ToastMessage::info("i".to_string()).level, ToastLevel::Info);
    assert_eq!(ToastMessage::error("e".to_string()).level, ToastLevel::Error);
}

#[test]
fn status_labels_of_task_kinds() {
    assert_eq!(BackgroundTaskKind::LoadingData.status_label(), Some("Loading game data..."));
    assert_eq!(BackgroundTaskKind::LoadingReplay.status_label(), Some("Loading replay..."));
    assert_eq!(BackgroundTaskKind::LoadingConstants.status_label(), Some("Loading data constants..."));
    assert_eq!(
        BackgroundTaskKind::PopulatePlayerInspectorFromReplays.status_label(),
        Some("Populating player inspector from historical replays...")
    );
    assert_eq!(BackgroundTaskKind::Updating { last_progress: None }.status_label(), None);
    assert_eq!(BackgroundTaskKind::LoadingPersonalRatingData.status_label(), None);
}

#[test]
fn progress_is_kept_only_by_an_update_task() {
    let mut k = BackgroundTaskKind::Updating { last_progress: None };
    k.record_progress(DownloadProgress { downloaded: 5, total: 10 });
    match k {
        BackgroundTaskKind::Updating { last_progress: Some(p) } => {
            assert_eq!(p.downloaded, 5);
            assert_eq!(p.total, 10);
        }
        _ => panic!("progress lost"),
    }
    let mut other = BackgroundTaskKind::LoadingData;
    other.record_progress(DownloadProgress { downloaded: 1, total: 2 });
    assert!(matches!(other, BackgroundTaskKind::LoadingData));
}

#[test]
fn export_formats() {
    assert!(matches!(ReplayExportFormat::default(), ReplayExportFormat::Json));
    assert_eq!(ReplayExportFormat::Json.as_str(), "JSON");
    assert_eq!(ReplayExportFormat::Json.extension(), "json");
    assert_eq!(ReplayExportFormat::Cbor.as_str(), "CBOR");
    assert_eq!(ReplayExportFormat::Cbor.extension(), "cbor");
    assert_eq!(ReplayExportFormat::Csv.as_str(), "CSV");
    assert_eq!(ReplayExportFormat::Csv.extension(), "csv");
}

#[test]
fn extensions_as_path_gives_them() {
    assert_eq!(extension_of(&chars("a.wowsreplay")), Some(chars("wowsreplay")));
    assert_eq!(extension_of(&chars("a.b.c")), Some(chars("c")));
    assert_eq!(extension_of(&chars("name.")), Some(chars("")));
    assert_eq!(extension_of(&chars(".hidden")), None);
    assert_eq!(extension_of(&chars("noext")), None);
    assert_eq!(extension_of(&chars("..")), None);
    assert_eq!(extension_of(&chars("")), None);
}

#[test]
fn replay_file_names() {
    assert!(is_replay_file_name("20240101_shipname.wowsreplay"));
    assert!(!is_replay_file_name("temp.wowsreplay"));
    assert!(!is_replay_file_name("notes.txt"));
    assert!(!is_replay_file_name("wowsreplay"));
}

#[test]
fn scan_skips_other_files_and_the_temp_replay() {
    assert!(skipped_in_scan("notes.txt"));
    assert!(skipped_in_scan("temp.wowsreplay"));
    assert!(!skipped_in_scan("a.wowsreplay"));
    assert!(!skipped_in_scan("noextension"));
}

#[test]
fn version_is_read_from_preferences() {
    let data = "<root>\n  <last_server_version>  0,12,3,456789 \t</last_server_version>\n</root>";
    assert_eq!(version_from_preferences(data), Some("0,12,3,456789".to_string()));
    assert_eq!(version_from_preferences("<root></root>"), None);
    assert_eq!(version_from_preferences("<last_server_version>1,2,3,4"), None);
    assert_eq!(
        version_from_preferences("<last_server_version></last_server_version>"),
        Some(String::new())
    );
}

#[test]
fn client_versions_parse() {
    let v = parse_client_version("0, 12, 3 ,456789").unwrap();
    assert_eq!(v, ClientVersion { major: 0, minor: 12, patch: 3, build: 456789 });
    assert_eq!(parse_client_version("0,12,3"), None);
    assert_eq!(parse_client_version("0,12,3,4,5"), None);
    assert_eq!(parse_client_version("0,12,x,4"), None);
    assert_eq!(parse_client_version("0,12,3,4294967296"), None);
    assert_eq!(
        parse_client_version("1,2,3,4294967295"),
        Some(ClientVersion { major: 1, minor: 2, patch: 3, build: 4294967295 })
    );
}

#[test]
fn latest_build_prefers_the_client_build() {
    let available = vec![100, 200, 300];
    let v = ClientVersion { major: 0, minor: 1, patch: 2, build: 200 };
    assert_eq!(choose_latest_build(&available, Some(v)), 200);
    let missing = ClientVersion { major: 0, minor: 1, patch: 2, build: 250 };
    assert_eq!(choose_latest_build(&available, Some(missing)), 300);
    assert_eq!(choose_latest_build(&available, None), 300);
}

#[test]
fn friendly_build_names_the_replay_folder() {
    let v = ClientVersion { major: 13, minor: 5, patch: 0, build: 8_765_432 };
    assert_eq!(friendly_build(&v), "13.5.0.0");
    let z = ClientVersion { major: 0, minor: 0, patch: 10, build: 1 };
    assert_eq!(friendly_build(&z), "0.0.10.0");
}

#[test]
fn builds_are_uploaded_for_new_random_and_ranked_replays_only() {
    assert!(should_upload_builds("RandomBattle", false, true));
    assert!(should_upload_builds("RankedBattle", false, true));
    assert!(!should_upload_builds("CooperativeBattle", false, true));
    assert!(!should_upload_builds("RandomBattle", true, true));
    assert!(!should_upload_builds("RandomBattle", false, false));
}

#[test]
fn builds_are_listed_in_ascending_order() {
    let names = vec![
        "300.json".to_string(),
        "readme.md".to_string(),
        "100.json".to_string(),
        "x.json".to_string(),
        ".json".to_string(),
        "200.json".to_string(),
    ];
    assert_eq!(builds_from_listing(&names), vec![100, 200, 300]);
    assert_eq!(builds_from_listing(&Vec::new()), Vec::<u32>::new());
}

#[test]
fn fallbacks_are_lower_builds_nearest_first() {
    assert_eq!(fallback_candidates(&vec![100, 200, 300, 400], 300), vec![200, 100]);
    assert_eq!(fallback_candidates(&vec![400, 500], 300), Vec::<u32>::new());
}

#[test]
fn constants_found_on_disk() {
    let (s, a) = ConstantsSearch::begin(300);
    assert!(matches!(a, ConstantsAction::ReadFromDisk(300)));
    let (s, a) = s.step(ConstantsEvent::Found);
    assert!(matches!(s, ConstantsSearch::Done));
    match a {
        ConstantsAction::Finish { source, exact, save_as } => {
            assert_eq!(source, Some(300));
            assert!(exact);
            assert!(save_as.is_empty());
        }
        _ => panic!("expected the search to finish"),
    }
}

#[test]
fn constants_downloaded_for_the_target() {
    let (s, _) = ConstantsSearch::begin(300);
    let (s, a) = s.step(ConstantsEvent::Missing);
    assert!(matches!(a, ConstantsAction::ListAvailableBuilds));
    let (s, a) = s.step(ConstantsEvent::Listed(vec![100, 200, 300]));
    assert!(matches!(a, ConstantsAction::Download(300)));
    let (s, a) = s.step(ConstantsEvent::Found);
    assert!(matches!(s, ConstantsSearch::Done));
    match a {
        ConstantsAction::Finish { source, exact, save_as } => {
            assert_eq!(source, Some(300));
            assert!(exact);
            assert_eq!(save_as, vec![300]);
        }
        _ => panic!("expected the search to finish"),
    }
}

#[test]
fn constants_fall_back_to_a_lower_build() {
    let (s, _) = ConstantsSearch::begin(350);
    let (s, _) = s.step(ConstantsEvent::Missing);
    let (s, a) = s.step(ConstantsEvent::Listed(vec![100, 200, 300, 400]));
    assert!(matches!(a, ConstantsAction::ReadFromDisk(300)));
    let (s, a) = s.step(ConstantsEvent::Missing);
    assert!(matches!(a, ConstantsAction::Download(300)));
    let (s, a) = s.step(ConstantsEvent::Missing);
    assert!(matches!(a, ConstantsAction::ReadFromDisk(200)));
    let (s, a) = s.step(ConstantsEvent::Missing);
    assert!(matches!(a, ConstantsAction::Download(200)));
    let (s, a) = s.step(ConstantsEvent::Found);
    assert!(matches!(s, ConstantsSearch::Done));
    match a {
        ConstantsAction::Finish { source, exact, save_as } => {
            assert_eq!(source, Some(200));
            assert!(!exact);
            assert_eq!(save_as, vec![200, 350]);
        }
        _ => panic!("expected the search to finish"),
    }
}

#[test]
fn constants_fallback_found_on_disk_is_saved_for_the_target() {
    let (s, _) = ConstantsSearch::begin(350);
    let (s, _) = s.step(ConstantsEvent::Missing);
    let (s, _) = s.step(ConstantsEvent::Listed(vec![300]));
    let (_, a) = s.step(ConstantsEvent::Found);
    match a {
        ConstantsAction::Finish { source, exact, save_as } => {
            assert_eq!(source, Some(300));
            assert!(!exact);
            assert_eq!(save_as, vec![350]);
        }
        _ => panic!("expected the search to finish"),
    }
}

#[test]
fn constants_search_gives_up() {
    let (s, _) = ConstantsSearch::begin(50);
    let (s, _) = s.step(ConstantsEvent::Missing);
    let (s, a) = s.step(ConstantsEvent::Listed(vec![100, 200]));
    assert!(matches!(s, ConstantsSearch::Done));
    assert!(matches!(a, ConstantsAction::Finish { source: None, exact: false, .. }));

    let (s, _) = ConstantsSearch::begin(50);
    let (s, _) = s.step(ConstantsEvent::Missing);
    let (s, a) = s.step(ConstantsEvent::ListingFailed);
    assert!(matches!(s, ConstantsSearch::Done));
    assert!(matches!(a, ConstantsAction::Finish { source: None, exact: false, .. }));

    let (s, _) = ConstantsSearch::begin(300);
    let (s, _) = s.step(ConstantsEvent::Missing);
    let (s, _) = s.step(ConstantsEvent::Listed(vec![200, 300]));
    let (s, a) = s.step(ConstantsEvent::Missing);
    assert!(matches!(a, ConstantsAction::ReadFromDisk(200)));
    let (s, _) = s.step(ConstantsEvent::Missing);
    let (s, a) = s.step(ConstantsEvent::Missing);
    assert!(matches!(s, ConstantsSearch::Done));
    assert!(matches!(a, ConstantsAction::Finish { source: None, exact: false, .. }));
}

#[test]
fn update_check_compares_semantic_versions() {
    let current = ReleaseVersion::parse("0.1.49").unwrap();
    assert_eq!(current.text(), "0.1.49");
    assert!(matches!(app_update_status("v0.1.50", &current), UpdateCheck::UpdateAvailable));
    assert!(matches!(app_update_status("v0.1.49", &current), UpdateCheck::UpToDate));
    assert!(matches!(app_update_status("v0.1.3", &current), UpdateCheck::UpToDate));
    assert!(matches!(app_update_status("v0.2.0-beta", &current), UpdateCheck::UpdateAvailable));
}

#[test]
fn update_check_reports_an_unparsable_tag() {
    let current = ReleaseVersion::parse("0.1.49").unwrap();
    match app_update_status("vnext", &current) {
        UpdateCheck::CheckFailed(m) => {
            assert!(m.starts_with("failed to parse release version 'vnext': "));
            assert!(m.len() > "failed to parse release version 'vnext': ".len());
        }
        _ => panic!("expected a failure"),
    }
}

#[test]
fn release_versions_refuse_non_semantic_text() {
    assert!(ReleaseVersion::parse("1.2").is_err());
    match ReleaseVersion::parse("1.2") {
        Err(m) => assert!(!m.is_empty()),
        Ok(_) => panic!("expected an error"),
    }
    assert!(ReleaseVersion::parse("1.2.3").is_ok());
}

#[test]
fn constants_checks_every_half_hour() {
    assert_eq!(CONSTANTS_CHECK_INTERVAL_SECS, 1800);
    assert!(constants_check_due(None));
    assert!(constants_check_due(Some(1800)));
    assert!(!constants_check_due(Some(1799)));
}

#[test]
fn constants_are_outdated_when_the_commit_changed() {
    assert!(!constants_outdated(&Some("abc".to_string()), &None));
    assert!(!constants_outdated(&None, &None));
    assert!(constants_outdated(&None, &Some("abc".to_string())));
    assert!(constants_outdated(&Some("abc".to_string()), &Some("def".to_string())));
    assert!(!constants_outdated(&Some("abc".to_string()), &Some("abc".to_string())));
}

#[test]
fn sent_replays_record_and_forget() {
    let mut s = SentReplays::new();
    assert!(!s.contains("a.wowsreplay"));
    s.record("a.wowsreplay");
    s.record("a.wowsreplay");
    s.record("b.wowsreplay");
    assert!(s.contains("a.wowsreplay"));
    assert!(s.contains("b.wowsreplay"));
    s.forget("a.wowsreplay");
    assert!(!s.contains("a.wowsreplay"));
    assert!(s.contains("b.wowsreplay"));
    assert!(!s.scan_should_parse("b.wowsreplay", "b.wowsreplay"));
    assert!(s.scan_should_parse("c.wowsreplay", "c.wowsreplay"));
    assert!(!s.scan_should_parse("temp.wowsreplay", "temp.wowsreplay"));
    assert!(!s.scan_should_parse("c.txt", "c.txt"));
}

fn settings() -> ParserSettings {
    ParserSettings {
        should_send_replays: false,
        data_export_settings: DataExportSettings {
            should_auto_export: false,
            export_path: String::new(),
            export_format: ReplayExportFormat::Json,
        },
        is_debug: false,
    }
}

#[test]
fn parser_handles_new_and_modified_replays() {
    let mut sent = SentReplays::new();
    sent.record("old.wowsreplay");
    let mut p = settings();
    let r = p.handle(&sent, ReplayBackgroundParserThreadMessage::NewReplay("new.wowsreplay".to_string())).unwrap();
    assert_eq!(r.path, "new.wowsreplay");
    assert!(!r.parsed_before);
    assert!(r.record_when_parsed);
    assert!(!r.may_send_builds);
    let r = p.handle(&sent, ReplayBackgroundParserThreadMessage::ModifiedReplay("old.wowsreplay".to_string())).unwrap();
    assert_eq!(r.path, "old.wowsreplay");
    assert!(r.parsed_before);
    assert!(!r.record_when_parsed);
    assert!(!r.may_send_builds);
}

#[test]
fn modified_replays_are_never_sent() {
    let sent = SentReplays::new();
    let mut p = settings();
    p.handle(&sent, ReplayBackgroundParserThreadMessage::ShouldSendReplaysToServer(true));
    let new = p.handle(&sent, ReplayBackgroundParserThreadMessage::NewReplay("a.wowsreplay".to_string())).unwrap();
    assert!(new.may_send_builds);
    let modified =
        p.handle(&sent, ReplayBackgroundParserThreadMessage::ModifiedReplay("a.wowsreplay".to_string())).unwrap();
    assert!(!modified.parsed_before);
    assert!(!modified.may_send_builds);
    let (job, _) = wows_toolkit::task::ParseJob::begin(modified.parsed_before, modified.may_send_builds, false);
    let (job, _) = job.step(wows_toolkit::task::ParseJobEvent::ReplayRead(true));
    let (job, _) = job.step(wows_toolkit::task::ParseJobEvent::Resolved(wows_toolkit::task::ResolveOutcome::Ready));
    let (_, a) = job.step(wows_toolkit::task::ParseJobEvent::ReportParsed(wows_toolkit::task::ReportOutcome::Parsed {
        players: 12,
        game_type: "RandomBattle".to_string(),
        has_results: false,
    }));
    assert_eq!(a, wows_toolkit::task::ParseJobAction::UpdateTracker);
}

#[test]
fn parser_messages_change_settings() {
    let sent = SentReplays::new();
    let mut p = settings();
    assert!(p.handle(&sent, ReplayBackgroundParserThreadMessage::ShouldSendReplaysToServer(true)).is_none());
    assert!(p.should_send_replays);
    let d = DataExportSettings {
        should_auto_export: true,
        export_path: "/tmp/out".to_string(),
        export_format: ReplayExportFormat::Csv,
    };
    assert!(p.handle(&sent, ReplayBackgroundParserThreadMessage::DataAutoExportSettingChange(d)).is_none());
    assert!(p.data_export_settings.should_auto_export);
    assert_eq!(p.data_export_settings.export_path, "/tmp/out");
    assert!(p.should_send_replays);
    assert!(p.handle(&sent, ReplayBackgroundParserThreadMessage::DebugStateChange(true)).is_none());
    assert!(p.is_debug);
    assert!(p.should_send_replays);
}

#[test]
fn translations_are_searched_by_locale_then_language_then_english() {
    assert_eq!(
        localization_dirs("en-US"),
        Some(vec!["en-US".to_string(), "en".to_string(), "en".to_string()])
    );
    assert_eq!(localization_dirs("de"), Some(vec!["de".to_string(), "de".to_string(), "en".to_string()]));
    assert_eq!(localization_dirs("not a tag!"), None);
    assert_eq!(localization_file(123, "en"), "bin/123/res/texts/en/LC_MESSAGES/global.mo");
}

#[test]
fn constants_file_names() {
    assert_eq!(versioned_constants_file(8765432), "constants_8765432.json");
    assert_eq!(versioned_constants_repo_path(0), "data/versions/0.json");
}

#[test]
fn constants_load_parses_json_or_reports_the_error() {
    let loaded = wows_toolkit::task::load_constants(br#"{"SHIPS": {"count": 3}}"#).unwrap();
    assert_eq!(loaded["SHIPS"]["count"].as_u64(), Some(3));
    let expected = serde_json::from_slice::<serde_json::Value>(b"{\"SHIPS\": ").unwrap_err().to_string();
    assert_eq!(wows_toolkit::task::load_constants(b"{\"SHIPS\": "), Err(expected));
}

#[test]
fn stored_constants_count_only_when_they_parse() {
    assert!(wows_toolkit::task::stored_constants_usable(b"[1, 2, 3]"));
    assert!(!wows_toolkit::task::stored_constants_usable(b"not json"));
    assert!(!wows_toolkit::task::stored_constants_usable(b""));
    assert!(matches!(wows_toolkit::task::constants_read_outcome(&Some(b"{}".to_vec())), ConstantsEvent::Found));
    assert!(matches!(wows_toolkit::task::constants_read_outcome(&Some(b"{".to_vec())), ConstantsEvent::Missing));
    assert!(matches!(wows_toolkit::task::constants_read_outcome(&None), ConstantsEvent::Missing));
}
