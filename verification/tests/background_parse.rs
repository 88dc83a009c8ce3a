use wows_toolkit::task::{
    replay_filepaths, ParseJob, ParseJobAction, ParseJobEvent, ReplayDirEntry, ReportOutcome, ResolveOutcome,
    UploadOutcome, BACKGROUND_PARSE_ATTEMPTS, READ_RETRY_DELAY_SECS,
};

fn entry(name: &str, is_file: bool, created: i128) -> ReplayDirEntry {
    ReplayDirEntry { path: format!("/replays/{}", name), file_name: name.to_string(), is_file, created }
}

#[test]
fn replay_files_come_newest_first() {
    let found = replay_filepaths(vec![
        entry("a.wowsreplay", true, 10),
        entry("temp.wowsreplay", true, 50),
        entry("b.wowsreplay", true, 30),
        entry("notes.txt", true, 40),
        entry("dir.wowsreplay", false, 60),
        entry("c.wowsreplay", true, 20),
    ])
    .unwrap();
    let names: Vec<&str> = found.iter().map(|e| e.file_name.as_str()).collect();
    assert_eq!(names, vec!["b.wowsreplay", "c.wowsreplay", "a.wowsreplay"]);
    assert_eq!(found[0].path, "/replays/b.wowsreplay");
}

#[test]
fn replay_files_created_together_come_in_reverse_listing_order() {
    let found = replay_filepaths(vec![entry("x.wowsreplay", true, 5), entry("y.wowsreplay", true, 5)]).unwrap();
    let names: Vec<&str> = found.iter().map(|e| e.file_name.as_str()).collect();
    assert_eq!(names, vec!["y.wowsreplay", "x.wowsreplay"]);
}

#[test]
fn a_folder_without_replays_gives_none() {
    assert!(replay_filepaths(vec![entry("notes.txt", true, 1)]).is_none());
    assert!(replay_filepaths(Vec::new()).is_none());
}

fn parsed(players: usize, game_type: &str, has_results: bool) -> ParseJobEvent {
    ParseJobEvent::ReportParsed(ReportOutcome::Parsed { players, game_type: game_type.to_string(), has_results })
}

#[test]
fn a_new_random_battle_is_uploaded_tracked_and_exported() {
    let (job, a) = ParseJob::begin(false, true, true);
    assert_eq!(a, ParseJobAction::ReadReplay);
    let (job, a) = job.step(ParseJobEvent::ReplayRead(true));
    assert_eq!(a, ParseJobAction::ResolveGameData);
    let (job, a) = job.step(ParseJobEvent::Resolved(ResolveOutcome::Ready));
    assert_eq!(a, ParseJobAction::ParseReport);
    let (job, a) = job.step(parsed(2, "RandomBattle", true));
    assert_eq!(a, ParseJobAction::UploadBuild(0));
    let (job, a) = job.step(ParseJobEvent::Uploaded(UploadOutcome::NoPayload));
    assert_eq!(a, ParseJobAction::UploadBuild(1));
    let (job, a) = job.step(ParseJobEvent::Uploaded(UploadOutcome::Sent));
    assert_eq!(a, ParseJobAction::UpdateTracker);
    let (job, a) = job.step(ParseJobEvent::TrackerUpdated);
    assert_eq!(a, ParseJobAction::BuildReport);
    let (job, a) = job.step(ParseJobEvent::ReportBuilt);
    assert_eq!(a, ParseJobAction::Export);
    let (_, a) = job.step(ParseJobEvent::Exported);
    assert_eq!(a, ParseJobAction::Finish(true));
}

#[test]
fn a_replay_seen_before_is_neither_uploaded_nor_tracked() {
    let (job, _) = ParseJob::begin(true, true, false);
    let (job, _) = job.step(ParseJobEvent::ReplayRead(true));
    let (job, _) = job.step(ParseJobEvent::Resolved(ResolveOutcome::Ready));
    let (job, a) = job.step(parsed(2, "RandomBattle", true));
    assert_eq!(a, ParseJobAction::BuildReport);
    let (_, a) = job.step(ParseJobEvent::ReportBuilt);
    assert_eq!(a, ParseJobAction::Finish(true));

    let (job, _) = ParseJob::begin(true, true, true);
    let (job, _) = job.step(ParseJobEvent::ReplayRead(true));
    let (job, _) = job.step(ParseJobEvent::Resolved(ResolveOutcome::Ready));
    let (_, a) = job.step(parsed(2, "RandomBattle", false));
    assert_eq!(a, ParseJobAction::Finish(true));
}

#[test]
fn other_game_types_are_tracked_without_uploads() {
    let (job, _) = ParseJob::begin(false, true, false);
    let (job, _) = job.step(ParseJobEvent::ReplayRead(true));
    let (job, _) = job.step(ParseJobEvent::Resolved(ResolveOutcome::Ready));
    let (job, a) = job.step(parsed(2, "CooperativeBattle", false));
    assert_eq!(a, ParseJobAction::UpdateTracker);
    let (_, a) = job.step(ParseJobEvent::TrackerUpdated);
    assert_eq!(a, ParseJobAction::Finish(true));
}

#[test]
fn an_unreachable_service_ends_the_parse_unhandled() {
    let (job, _) = ParseJob::begin(false, true, false);
    let (job, _) = job.step(ParseJobEvent::ReplayRead(true));
    let (job, _) = job.step(ParseJobEvent::Resolved(ResolveOutcome::Ready));
    let (job, _) = job.step(parsed(3, "RankedBattle", true));
    let (_, a) = job.step(ParseJobEvent::Uploaded(UploadOutcome::ConnectError));
    assert_eq!(a, ParseJobAction::Finish(false));
}

#[test]
fn unreadable_replays_are_retried_after_a_wait() {
    let (mut job, _) = ParseJob::begin(false, false, false);
    for attempt in 0..BACKGROUND_PARSE_ATTEMPTS {
        let (next, a) = job.step(ParseJobEvent::ReplayRead(false));
        assert_eq!(a, ParseJobAction::Sleep(READ_RETRY_DELAY_SECS));
        let (next, a) = next.step(ParseJobEvent::Slept);
        if attempt + 1 < BACKGROUND_PARSE_ATTEMPTS {
            assert_eq!(a, ParseJobAction::ReadReplay);
        } else {
            assert_eq!(a, ParseJobAction::Finish(false));
        }
        job = next;
    }
    assert_eq!(READ_RETRY_DELAY_SECS, 5);
}

#[test]
fn failed_reports_are_retried_without_a_wait() {
    let (mut job, _) = ParseJob::begin(false, false, false);
    for attempt in 0..BACKGROUND_PARSE_ATTEMPTS {
        let (next, _) = job.step(ParseJobEvent::ReplayRead(true));
        let (next, _) = next.step(ParseJobEvent::Resolved(ResolveOutcome::Ready));
        let (next, a) = next.step(ParseJobEvent::ReportParsed(ReportOutcome::Failed));
        if attempt + 1 < BACKGROUND_PARSE_ATTEMPTS {
            assert_eq!(a, ParseJobAction::ReadReplay);
        } else {
            assert_eq!(a, ParseJobAction::Finish(false));
        }
        job = next;
    }
}

#[test]
fn missing_data_and_version_mismatches_end_the_parse() {
    let (job, _) = ParseJob::begin(false, false, false);
    let (job, _) = job.step(ParseJobEvent::ReplayRead(true));
    let (_, a) = job.step(ParseJobEvent::Resolved(ResolveOutcome::NoDataForBuild));
    assert_eq!(a, ParseJobAction::Finish(true));

    let (job, _) = ParseJob::begin(false, false, false);
    let (job, _) = job.step(ParseJobEvent::ReplayRead(true));
    let (_, a) = job.step(ParseJobEvent::Resolved(ResolveOutcome::NoMetadata));
    assert_eq!(a, ParseJobAction::Finish(false));

    let (job, _) = ParseJob::begin(false, false, false);
    let (job, _) = job.step(ParseJobEvent::ReplayRead(true));
    let (job, _) = job.step(ParseJobEvent::Resolved(ResolveOutcome::Ready));
    let (_, a) = job.step(ParseJobEvent::ReportParsed(ReportOutcome::VersionMismatch));
    assert_eq!(a, ParseJobAction::Finish(true));
}

#[test]
fn no_builds_are_sent_without_consent() {
    let (job, _) = ParseJob::begin(false, false, false);
    let (job, _) = job.step(ParseJobEvent::ReplayRead(true));
    let (job, _) = job.step(ParseJobEvent::Resolved(ResolveOutcome::Ready));
    let (_, a) = job.step(parsed(12, "RandomBattle", false));
    assert_eq!(a, ParseJobAction::UpdateTracker);
}

#[test]
fn a_report_without_players_sends_nothing() {
    let (job, _) = ParseJob::begin(false, true, false);
    let (job, _) = job.step(ParseJobEvent::ReplayRead(true));
    let (job, _) = job.step(ParseJobEvent::Resolved(ResolveOutcome::Ready));
    let (_, a) = job.step(parsed(0, "RankedBattle", false));
    assert_eq!(a, ParseJobAction::UpdateTracker);
}
