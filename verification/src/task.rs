//! Background task bookkeeping: toasts, task kinds, export settings, and the
//! decisions the loading, parsing and networking tasks take between their
//! I/O steps.

use vstd::prelude::*;

use crate::outside::{json_accepts, json_error_text, parse_json, primary_language, primary_language_of, release_precedes, semver_accepts, semver_error_text, semver_precedes, ReleaseVersion};
use crate::stable_sort::{is_sorted, sort_stable, stable_reordering};
use crate::stable_sort::Ranked;
use crate::text::{
    chars_of, concat_text, decimal, decimal_text, find_chars, first_occurrence, occurs_at, parse_u64, pieces, same_chars,
    same_text, spec_parse_u64, split_chars, string_of, sub_chars, trim, trim_chars,
};

verus! {

/// Progress of a download, in bytes.
#[derive(Debug, Copy, Clone)]
pub struct DownloadProgress {
    pub downloaded: u64,
    pub total: u64,
}

/// How prominent a toast is.
#[derive(Debug, Copy, Clone, PartialEq, Eq, Structural)]
pub enum ToastLevel {
    Success,
    Info,
    Warning,
    Error,
}

/// A short message shown to the user.
#[derive(Debug, Clone)]
pub struct ToastMessage {
    pub message: String,
    pub level: ToastLevel,
}

impl ToastMessage {
    /// A success toast.
    pub fn success(message: String) -> (r: ToastMessage)
        ensures
            r.message@ == message@,
            r.level == ToastLevel::Success,
    {
        ToastMessage { message, level: ToastLevel::Success }
    }

    /// An informational toast.
    pub fn info(message: String) -> (r: ToastMessage)
        ensures
            r.message@ == message@,
            r.level == ToastLevel::Info,
    {
        ToastMessage { message, level: ToastLevel::Info }
    }

    /// An error toast.
    pub fn error(message: String) -> (r: ToastMessage)
        ensures
            r.message@ == message@,
            r.level == ToastLevel::Error,
    {
        ToastMessage { message, level: ToastLevel::Error }
    }
}

/// What a background task is doing. The channels the tasks report through
/// stay with the application; the last reported download progress is kept
/// here.
#[derive(Debug)]
pub enum BackgroundTaskKind {
    LoadingData,
    LoadingReplay,
    Updating { last_progress: Option<DownloadProgress> },
    PopulatePlayerInspectorFromReplays,
    LoadingConstants,
    LoadingPersonalRatingData,
    UpdateTimedMessage(ToastMessage),
    /// Opens a viewer for the file with this path.
    OpenFileViewer(String),
}

/// The label shown under a spinner while a task of this kind runs.
pub open spec fn spec_status_label(kind: BackgroundTaskKind) -> Option<Seq<char>> {
    match kind {
        BackgroundTaskKind::LoadingData => Some("Loading game data..."@),
        BackgroundTaskKind::LoadingReplay => Some("Loading replay..."@),
        BackgroundTaskKind::PopulatePlayerInspectorFromReplays => Some(
            "Populating player inspector from historical replays..."@,
        ),
        BackgroundTaskKind::LoadingConstants => Some("Loading data constants..."@),
        _ => None,
    }
}

impl BackgroundTaskKind {
    /// The label shown with a spinner while the task runs; `None` for kinds
    /// shown otherwise (a progress bar) or not at all.
    pub fn status_label(&self) -> (r: Option<&'static str>)
        ensures
            match r {
                Some(l) => spec_status_label(*self) == Some(l@),
                None => spec_status_label(*self) is None,
            },
    {
        match self {
            BackgroundTaskKind::LoadingData => Some("Loading game data..."),
            BackgroundTaskKind::LoadingReplay => Some("Loading replay..."),
            BackgroundTaskKind::PopulatePlayerInspectorFromReplays => Some(
                "Populating player inspector from historical replays...",
            ),
            BackgroundTaskKind::LoadingConstants => Some("Loading data constants..."),
            _ => None,
        }
    }

    /// Keeps the latest progress reported by a download; other kinds are
    /// left as they are.
    pub fn record_progress(&mut self, progress: DownloadProgress)
        ensures
            match *old(self) {
                BackgroundTaskKind::Updating { .. } => *final(self) == (BackgroundTaskKind::Updating {
                    last_progress: Some(progress),
                }),
                _ => *final(self) == *old(self),
            },
    {
        if let BackgroundTaskKind::Updating { last_progress } = self {
            *last_progress = Some(progress);
        }
    }
}

/// What a constants-loading task reports: the constants bytes parsed as
/// JSON, or the parser's error.
pub fn load_constants(constants: &[u8]) -> (r: Result<serde_json::Value, String>)
    ensures
        r is Ok <==> json_accepts(constants@),
        r matches Err(e) ==> e@ == json_error_text(constants@),
{
    parse_json(constants)
}

/// Constants read from disk or downloaded count as found only when they
/// parse as JSON.
pub fn stored_constants_usable(data: &[u8]) -> (r: bool)
    ensures
        r == json_accepts(data@),
{
    parse_json(data).is_ok()
}

/// The outcome of reading or downloading the constants of a build, for the
/// constants search: found when there were bytes and they parse as JSON,
/// missing otherwise.
pub fn constants_read_outcome(data: &Option<Vec<u8>>) -> (r: ConstantsEvent)
    ensures
        (r is Found) <==> (data matches Some(d) && json_accepts(d@)),
        r is Found || r is Missing,
{
    match data {
        Some(d) => {
            if stored_constants_usable(d.as_slice()) {
                ConstantsEvent::Found
            } else {
                ConstantsEvent::Missing
            }
        },
        None => ConstantsEvent::Missing,
    }
}

/// File formats a replay can be exported to.
#[derive(Debug, Copy, Clone, PartialEq, Eq, Structural)]
pub enum ReplayExportFormat {
    Json,
    Cbor,
    Csv,
}

impl Default for ReplayExportFormat {
    fn default() -> (r: ReplayExportFormat)
        ensures
            r == ReplayExportFormat::Json,
    {
        ReplayExportFormat::Json
    }
}

pub open spec fn format_name(f: ReplayExportFormat) -> Seq<char> {
    match f {
        ReplayExportFormat::Json => "JSON"@,
        ReplayExportFormat::Cbor => "CBOR"@,
        ReplayExportFormat::Csv => "CSV"@,
    }
}

pub open spec fn format_extension(f: ReplayExportFormat) -> Seq<char> {
    match f {
        ReplayExportFormat::Json => "json"@,
        ReplayExportFormat::Cbor => "cbor"@,
        ReplayExportFormat::Csv => "csv"@,
    }
}

impl ReplayExportFormat {
    /// The name shown for the format.
    pub fn as_str(&self) -> (r: &'static str)
        ensures
            r@ == format_name(*self),
    {
        match self {
            ReplayExportFormat::Json => "JSON",
            ReplayExportFormat::Cbor => "CBOR",
            ReplayExportFormat::Csv => "CSV",
        }
    }

    /// The file extension of exported files.
    pub fn extension(&self) -> (r: &'static str)
        ensures
            r@ == format_extension(*self),
    {
        match self {
            ReplayExportFormat::Json => "json",
            ReplayExportFormat::Cbor => "cbor",
            ReplayExportFormat::Csv => "csv",
        }
    }
}

/// Whether and where parsed replays are exported.
#[derive(Debug, Clone)]
pub struct DataExportSettings {
    pub should_auto_export: bool,
    pub export_path: String,
    pub export_format: ReplayExportFormat,
}

/// Messages to the background replay parser; paths are file paths.
#[derive(Debug)]
pub enum ReplayBackgroundParserThreadMessage {
    /// A new replay has been written.
    NewReplay(String),
    /// A replay has been modified, which probably means the post-battle
    /// results were written to it.
    ModifiedReplay(String),
    ShouldSendReplaysToServer(bool),
    DataAutoExportSettingChange(DataExportSettings),
    DebugStateChange(bool),
}

/// A job for the networking thread.
#[derive(Debug, Clone)]
pub enum NetworkJob {
    /// Check GitHub for a newer release of the application.
    CheckForAppUpdates,
    /// Fetch the latest constants unless they come from this commit.
    FetchLatestConstants { current_commit: Option<String> },
    /// Fetch the expected values behind personal rating.
    FetchPersonalRatingData,
    /// Fetch the constants matching a game build.
    FetchVersionedConstants { build: u32 },
}

/// The index of the last `c` in `s`, or -1 when there is none.
pub open spec fn last_index_of(s: Seq<char>, c: char) -> int
    decreases s.len(),
{
    if s.len() == 0 {
        -1
    } else if s.last() == c {
        s.len() - 1
    } else {
        last_index_of(s.drop_last(), c)
    }
}

/// The extension of a file name as `Path::extension` gives it: the text
/// after the last '.', unless there is no '.', the only '.' starts the
/// name, or the name is "..".
pub open spec fn file_extension(name: Seq<char>) -> Option<Seq<char>> {
    let i = last_index_of(name, '.');
    if name == ".."@ || i <= 0 {
        None
    } else {
        Some(name.skip(i + 1))
    }
}

/// The extension of a file name.
pub fn extension_of(name: &Vec<char>) -> (r: Option<Vec<char>>)
    ensures
        match r {
            Some(e) => file_extension(name@) == Some(e@),
            None => file_extension(name@) is None,
        },
{
    let mut i: usize = name.len();
    assert(name@.take(name@.len() as int) =~= name@);
    while i > 0 && name[i - 1] != '.'
        invariant
            i <= name@.len(),
            last_index_of(name@, '.') == last_index_of(name@.take(i as int), '.'),
        decreases i,
    {
        assert(name@.take(i as int).drop_last() =~= name@.take(i - 1));
        i = i - 1;
    }
    assert(name@.take(name@.len() as int) =~= name@);
    if i > 0 {
        assert(name@.take(i as int).last() == '.');
    }
    let dots = chars_of("..");
    if same_chars(name, &dots) || i <= 1 {
        None
    } else {
        Some(sub_chars(name, i, name.len()))
    }
}

/// A file name the replay list shows: extension "wowsreplay", and not the
/// replay the game is still writing.
pub open spec fn is_listed_replay(name: Seq<char>) -> bool {
    file_extension(name) == Some("wowsreplay"@) && name != "temp.wowsreplay"@
}

/// A file name the scan for unsent replays passes over: one with another
/// extension, or the replay the game is still writing. A name without an
/// extension is not passed over.
pub open spec fn is_skipped_in_scan(name: Seq<char>) -> bool {
    (file_extension(name) matches Some(e) && e != "wowsreplay"@) || name == "temp.wowsreplay"@
}

/// Whether the replay list shows the file with this name.
pub fn is_replay_file_name(name: &str) -> (r: bool)
    ensures
        r == is_listed_replay(name@),
{
    let chars = chars_of(name);
    let ext = extension_of(&chars);
    match ext {
        Some(e) => {
            let wanted = chars_of("wowsreplay");
            same_chars(&e, &wanted) && !same_text(name, "temp.wowsreplay")
        },
        None => false,
    }
}

/// A file of the replays folder: its path, its file name, whether it is a
/// regular file, and when it was created (nanoseconds since the Unix
/// epoch).
#[derive(Debug)]
pub struct ReplayDirEntry {
    pub path: String,
    pub file_name: String,
    pub is_file: bool,
    pub created: i128,
}

impl Ranked for ReplayDirEntry {
    /// Older first.
    open spec fn precedes_or_ties(self, other: Self) -> bool {
        self.created <= other.created
    }

    proof fn lemma_total(a: Self, b: Self) {
    }

    proof fn lemma_transitive(a: Self, b: Self, c: Self) {
    }

    fn ranks_before_or_with(&self, other: &Self) -> (r: bool) {
        self.created <= other.created
    }
}

/// A folder entry the replay list shows: a regular file whose name the
/// list takes.
pub open spec fn listed_replay_entry(e: ReplayDirEntry) -> bool {
    e.is_file && is_listed_replay(e.file_name@)
}

/// The entries the replay list shows, in listing order.
pub open spec fn listed_replay_entries(entries: Seq<ReplayDirEntry>) -> Seq<ReplayDirEntry> {
    entries.filter(|e: ReplayDirEntry| listed_replay_entry(e))
}

/// The replays of a folder listing, newest first: the shown entries sorted
/// by creation time, oldest first and stably, then reversed (so entries
/// created at the same instant come in reverse listing order). `None` when
/// the folder holds no replay.
pub fn replay_filepaths(entries: Vec<ReplayDirEntry>) -> (r: Option<Vec<ReplayDirEntry>>)
    ensures
        match r {
            None => listed_replay_entries(entries@).len() == 0,
            Some(v) => v@.len() > 0 && is_sorted(v@.reverse()) && stable_reordering(
                listed_replay_entries(entries@),
                v@.reverse(),
            ),
        },
{
    let ghost input = entries@;
    let ghost f = |e: ReplayDirEntry| listed_replay_entry(e);
    let mut rest = entries;
    let mut kept: Vec<ReplayDirEntry> = Vec::new();
    let n = rest.len();
    let mut k: usize = 0;
    while k < n
        invariant
            n == input.len(),
            k <= n,
            rest@ == input.skip(k as int),
            kept@ == input.take(k as int).filter(f),
            f == (|e: ReplayDirEntry| listed_replay_entry(e)),
        decreases n - k,
    {
        let e = rest.remove(0);
        proof {
            assert(e == input[k as int]);
            assert(input.take(k + 1) =~= input.take(k as int).push(e));
            input.take(k as int).lemma_filter_push(e, f);
            assert(rest@ =~= input.skip(k + 1));
        }
        if e.is_file && is_replay_file_name(e.file_name.as_str()) {
            kept.push(e);
        }
        k = k + 1;
    }
    assert(input.take(n as int) =~= input);
    if kept.len() == 0 {
        return None;
    }
    let ghost kept_view = kept@;
    let mut sorted = sort_stable(kept);
    let ghost oldest_first = sorted@;
    assert(oldest_first.len() == kept_view.len()) by {
        broadcast use vstd::seq_lib::group_to_multiset_ensures;

        assert(oldest_first.to_multiset().len() == kept_view.to_multiset().len());
    }
    let mut out: Vec<ReplayDirEntry> = Vec::new();
    while sorted.len() > 0
        invariant
            oldest_first.len() == sorted@.len() + out@.len(),
            sorted@ == oldest_first.take(sorted@.len() as int),
            out@ == oldest_first.skip(sorted@.len() as int).reverse(),
        decreases sorted@.len(),
    {
        let ghost before = sorted@;
        let e = sorted.pop().unwrap();
        proof {
            assert(sorted@ =~= oldest_first.take(sorted@.len() as int));
            assert(oldest_first.skip(sorted@.len() as int) =~= seq![e] + oldest_first.skip(before.len() as int));
        }
        out.push(e);
        proof {
            assert(out@ =~= oldest_first.skip(sorted@.len() as int).reverse());
        }
    }
    proof {
        assert(oldest_first.skip(0) =~= oldest_first);
        assert(out@.reverse() =~= oldest_first);
    }
    Some(out)
}

/// Whether the scan for unsent replays passes over the file with this name.
pub fn skipped_in_scan(name: &str) -> (r: bool)
    ensures
        r == is_skipped_in_scan(name@),
{
    let chars = chars_of(name);
    let ext = extension_of(&chars);
    let other_extension = match ext {
        Some(e) => {
            let wanted = chars_of("wowsreplay");
            !same_chars(&e, &wanted)
        },
        None => false,
    };
    other_extension || same_text(name, "temp.wowsreplay")
}

/// The text of the `last_server_version` element of the game's
/// preferences file, trimmed.
pub open spec fn spec_version_from_preferences(data: Seq<char>) -> Option<Seq<char>> {
    let open = "<last_server_version>"@;
    let close = "</last_server_version>"@;
    match first_occurrence(data, open) {
        None => None,
        Some(i) => match first_occurrence(data.skip(i), close) {
            None => None,
            Some(j) => Some(trim(data.subrange(i + open.len(), i + j))),
        },
    }
}

/// In text that starts with the opening tag, the closing tag cannot start
/// inside the opening tag.
proof fn lemma_closing_tag_after_opening(rest: Seq<char>, end: int)
    requires
        rest.len() >= 21,
        rest.subrange(0, 21) == "<last_server_version>"@,
        occurs_at(rest, "</last_server_version>"@, end),
    ensures
        end >= 21,
{
    reveal_strlit("<last_server_version>");
    reveal_strlit("</last_server_version>");
    let open = "<last_server_version>"@;
    let close = "</last_server_version>"@;
    assert(rest.subrange(end, end + 22) == close);
    if end < 21 {
        assert(rest[end] == rest.subrange(end, end + 22)[0]);
        if end == 0 {
            assert(rest[1] == rest.subrange(end, end + 22)[1]);
            assert(rest[1] == rest.subrange(0, 21)[1]);
        } else {
            assert(rest[end] == rest.subrange(0, 21)[end]);
        }
    }
}

/// Reads the game version from the contents of the preferences file.
pub fn version_from_preferences(data: &str) -> (r: Option<String>)
    ensures
        match r {
            Some(v) => spec_version_from_preferences(data@) == Some(v@),
            None => spec_version_from_preferences(data@) is None,
        },
{
    let chars = chars_of(data);
    let open = chars_of("<last_server_version>");
    let close = chars_of("</last_server_version>");
    let start = match find_chars(&chars, &open) {
        Some(i) => i,
        None => {
            return None;
        },
    };
    let rest = sub_chars(&chars, start, chars.len());
    assert(rest@ == data@.skip(start as int));
    let end = match find_chars(&rest, &close) {
        Some(j) => j,
        None => {
            return None;
        },
    };
    proof {
        reveal_strlit("<last_server_version>");
        assert(open@ == "<last_server_version>"@);
        assert(close@ == "</last_server_version>"@);
        assert(occurs_at(chars@, open@, start as int));
        assert(rest@.subrange(0, 21) =~= chars@.subrange(start as int, start + 21));
        lemma_closing_tag_after_opening(rest@, end as int);
    }
    let inner = sub_chars(&chars, start + open.len(), start + end);
    let trimmed = trim_chars(&inner);
    Some(string_of(&trimmed))
}

/// A game client version, as the client writes it: four comma-separated
/// numbers.
#[derive(Debug, Copy, Clone, PartialEq, Eq, Structural)]
pub struct ClientVersion {
    pub major: u32,
    pub minor: u32,
    pub patch: u32,
    pub build: u32,
}

/// What `u32::from_str` gives for a piece of text.
pub open spec fn spec_parse_u32(s: Seq<char>) -> Option<u32> {
    match spec_parse_u64(s) {
        Some(v) => if v <= u32::MAX {
            Some(v as u32)
        } else {
            None
        },
        None => None,
    }
}

/// The version a client version string describes: exactly four
/// comma-separated parts, each a number once trimmed. `None` for any other
/// string.
pub open spec fn spec_client_version(s: Seq<char>) -> Option<ClientVersion> {
    let parts = pieces(s, ',');
    if parts.len() != 4 {
        None
    } else {
        match (
            spec_parse_u32(trim(parts[0])),
            spec_parse_u32(trim(parts[1])),
            spec_parse_u32(trim(parts[2])),
            spec_parse_u32(trim(parts[3])),
        ) {
            (Some(major), Some(minor), Some(patch), Some(build)) => Some(
                ClientVersion { major, minor, patch, build },
            ),
            _ => None,
        }
    }
}

fn parse_u32_trimmed(s: &Vec<char>) -> (r: Option<u32>)
    ensures
        r == spec_parse_u32(trim(s@)),
{
    let t = trim_chars(s);
    match parse_u64(&t) {
        Some(v) => if v <= 0xffff_ffff {
            Some(v as u32)
        } else {
            None
        },
        None => None,
    }
}

/// Parses a client version string; `None` when it is not four
/// comma-separated numbers.
pub fn parse_client_version(s: &str) -> (r: Option<ClientVersion>)
    ensures
        r == spec_client_version(s@),
{
    let chars = chars_of(s);
    let parts = split_chars(&chars, ',');
    if parts.len() != 4 {
        return None;
    }
    let major = parse_u32_trimmed(&parts[0]);
    let minor = parse_u32_trimmed(&parts[1]);
    let patch = parse_u32_trimmed(&parts[2]);
    let build = parse_u32_trimmed(&parts[3]);
    match (major, minor, patch, build) {
        (Some(major), Some(minor), Some(patch), Some(build)) => Some(ClientVersion { major, minor, patch, build }),
        _ => None,
    }
}

/// The build whose data is loaded at startup: the client's build when the
/// game has data for it, the highest listed build otherwise.
pub open spec fn spec_latest_build(available: Seq<u32>, version: Option<ClientVersion>) -> u32 {
    match version {
        Some(v) => if available.contains(v.build) {
            v.build
        } else {
            available.last()
        },
        None => available.last(),
    }
}

/// Picks the build to load at startup among the builds the game has data
/// for (listed in ascending order).
pub fn choose_latest_build(available: &Vec<u32>, version: Option<ClientVersion>) -> (r: u32)
    requires
        available@.len() > 0,
    ensures
        r == spec_latest_build(available@, version),
{
    let last = available[available.len() - 1];
    match version {
        Some(v) => {
            let mut i: usize = 0;
            while i < available.len()
                invariant
                    version == Some(v),
                    i <= available@.len(),
                    forall|k: int| 0 <= k < i ==> available@[k] != v.build,
                decreases available@.len() - i,
            {
                if available[i] == v.build {
                    assert(available@[i as int] == v.build);
                    assert(available@.contains(v.build));
                    return v.build;
                }
                i = i + 1;
            }
            last
        },
        None => last,
    }
}

/// The version as the replay folders name it: "major.minor.patch.0".
pub open spec fn spec_friendly_build(v: ClientVersion) -> Seq<char> {
    decimal(v.major as nat) + "."@ + decimal(v.minor as nat) + "."@ + decimal(v.patch as nat) + ".0"@
}

/// The name of the replay folder of a client version.
pub fn friendly_build(v: &ClientVersion) -> (r: String)
    ensures
        r@ == spec_friendly_build(*v),
{
    let major = decimal_text(v.major as u64);
    let minor = decimal_text(v.minor as u64);
    let patch = decimal_text(v.patch as u64);
    let a = concat_text(major.as_str(), ".");
    let b = concat_text(a.as_str(), minor.as_str());
    let c = concat_text(b.as_str(), ".");
    let d = concat_text(c.as_str(), patch.as_str());
    concat_text(d.as_str(), ".0")
}

/// Game types whose builds are shared with the build statistics service.
pub open spec fn shares_builds(game_type: Seq<char>) -> bool {
    game_type == "RandomBattle"@ || game_type == "RankedBattle"@
}

/// Whether the builds of a freshly parsed replay are sent to the build
/// statistics service: only for a replay never parsed before, when the user
/// allows it, and for random and ranked battles.
pub fn should_upload_builds(game_type: &str, parsed_before: bool, should_send: bool) -> (r: bool)
    ensures
        r == (!parsed_before && should_send && shares_builds(game_type@)),
{
    let valid = same_text(game_type, "RandomBattle") || same_text(game_type, "RankedBattle");
    !parsed_before && should_send && valid
}

/// The build a file of the constants repository holds: its name is the
/// build number followed by ".json".
pub open spec fn listed_build(name: Seq<char>) -> Option<u32> {
    if name.len() >= 5 && name.skip(name.len() - 5) == ".json"@ {
        spec_parse_u32(name.take(name.len() - 5))
    } else {
        None
    }
}

/// The builds that a listing of file names holds, in listing order.
pub open spec fn listed_builds(names: Seq<Seq<char>>) -> Seq<u32>
    decreases names.len(),
{
    if names.len() == 0 {
        Seq::empty()
    } else {
        let rest = listed_builds(names.drop_last());
        match listed_build(names.last()) {
            Some(b) => rest.push(b),
            None => rest,
        }
    }
}

/// Ascending order.
pub open spec fn ascending(s: Seq<u32>) -> bool {
    forall|i: int, j: int| 0 <= i < j < s.len() ==> #[trigger] s[i] <= #[trigger] s[j]
}

fn build_of_file_name(name: &str) -> (r: Option<u32>)
    ensures
        r == listed_build(name@),
{
    let chars = chars_of(name);
    let n = chars.len();
    if n < 5 {
        return None;
    }
    let tail = sub_chars(&chars, n - 5, n);
    let suffix = chars_of(".json");
    assert(tail@ == name@.skip(n - 5));
    if !same_chars(&tail, &suffix) {
        return None;
    }
    let head = sub_chars(&chars, 0, n - 5);
    assert(head@ == name@.take(n - 5));
    match parse_u64(&head) {
        Some(v) => if v <= 0xffff_ffff {
            Some(v as u32)
        } else {
            None
        },
        None => None,
    }
}

/// The builds available in the constants repository, from the names of its
/// files, in ascending order.
pub fn builds_from_listing(names: &Vec<String>) -> (r: Vec<u32>)
    ensures
        ascending(r@),
        r@.to_multiset() == listed_builds(names@.map_values(|s: String| s@)).to_multiset(),
{
    let ghost views = names@.map_values(|s: String| s@);
    let mut found: Vec<u32> = Vec::new();
    let mut i: usize = 0;
    while i < names.len()
        invariant
            i <= names@.len(),
            views == names@.map_values(|s: String| s@),
            found@ == listed_builds(views.take(i as int)),
        decreases names@.len() - i,
    {
        proof {
            assert(views.take(i + 1).drop_last() =~= views.take(i as int));
            assert(views.take(i + 1).last() == names@[i as int]@);
        }
        if let Some(b) = build_of_file_name(names[i].as_str()) {
            found.push(b);
        }
        i = i + 1;
    }
    assert(views.take(names@.len() as int) =~= views);
    let sorted = sort_stable(found);
    proof {
        assert forall|a: int, b: int| 0 <= a < b < sorted@.len() implies #[trigger] sorted@[a]
            <= #[trigger] sorted@[b] by {
            assert(sorted@[a].precedes_or_ties(sorted@[b]));
        }
    }
    sorted
}

/// The builds tried, nearest first, when the constants of `target` are not
/// available: every available build below `target`, in reverse listing
/// order. A higher build is never used.
pub open spec fn fallback_builds(available: Seq<u32>, target: u32) -> Seq<u32>
    decreases available.len(),
{
    if available.len() == 0 {
        Seq::empty()
    } else {
        let rest = fallback_builds(available.drop_last(), target);
        if available.last() < target {
            seq![available.last()] + rest
        } else {
            rest
        }
    }
}

/// The fallback builds for `target`.
pub fn fallback_candidates(available: &Vec<u32>, target: u32) -> (r: Vec<u32>)
    ensures
        r@ == fallback_builds(available@, target),
{
    let mut out: Vec<u32> = Vec::new();
    let mut i: usize = 0;
    while i < available.len()
        invariant
            i <= available@.len(),
            out@ == fallback_builds(available@.take(i as int), target),
        decreases available@.len() - i,
    {
        proof {
            assert(available@.take(i + 1).drop_last() =~= available@.take(i as int));
        }
        if available[i] < target {
            let ghost before = out@;
            out.insert(0, available[i]);
            assert(out@ =~= seq![available@[i as int]] + before);
        }
        i = i + 1;
    }
    assert(available@.take(available@.len() as int) =~= available@);
    out
}

/// What the search for the constants of a game build asks of the
/// application next.
#[derive(Debug)]
pub enum ConstantsAction {
    /// Look for the stored constants of this build.
    ReadFromDisk(u32),
    /// List the builds the constants repository holds.
    ListAvailableBuilds,
    /// Download the constants of this build.
    Download(u32),
    /// The search is over. `source` is the build whose constants were found
    /// (`None`: none); `exact` says whether it is the build searched for;
    /// the constants are stored under each build of `save_as`.
    Finish { source: Option<u32>, exact: bool, save_as: Vec<u32> },
}

/// The action ends the search with this outcome.
pub open spec fn finishes(a: ConstantsAction, source: Option<u32>, exact: bool, save_as: Seq<u32>) -> bool {
    match a {
        ConstantsAction::Finish { source: s, exact: e, save_as: v } => s == source && e == exact && v@ == save_as,
        _ => false,
    }
}

fn single_build(b: u32) -> (r: Vec<u32>)
    ensures
        r@ == seq![b],
{
    let mut v: Vec<u32> = Vec::new();
    v.push(b);
    v
}

fn two_builds(a: u32, b: u32) -> (r: Vec<u32>)
    ensures
        r@ == seq![a, b],
{
    let mut v: Vec<u32> = Vec::new();
    v.push(a);
    v.push(b);
    v
}

/// The action never touches a build above `target`, and reports an exact
/// match exactly when the constants found are the target's own.
pub open spec fn within_target(a: ConstantsAction, target: u32) -> bool {
    match a {
        ConstantsAction::ReadFromDisk(b) => b <= target,
        ConstantsAction::Download(b) => b <= target,
        ConstantsAction::Finish { source, exact, .. } => match source {
            Some(s) => s <= target && (exact <==> s == target),
            None => !exact,
        },
        ConstantsAction::ListAvailableBuilds => true,
    }
}

/// The build a search is for; none once it is done.
pub open spec fn search_target(s: ConstantsSearch) -> Option<u32> {
    match s {
        ConstantsSearch::CheckingDisk { target } => Some(target),
        ConstantsSearch::Listing { target } => Some(target),
        ConstantsSearch::DownloadingTarget { target, .. } => Some(target),
        ConstantsSearch::CheckingFallback { target, .. } => Some(target),
        ConstantsSearch::DownloadingFallback { target, .. } => Some(target),
        ConstantsSearch::Done => None,
    }
}

/// What happened to the last action.
#[derive(Debug)]
pub enum ConstantsEvent {
    /// The constants were read or downloaded.
    Found,
    /// The constants were not on disk, or the download failed.
    Missing,
    /// The repository holds these builds, in ascending order.
    Listed(Vec<u32>),
    /// The repository could not be listed.
    ListingFailed,
}

/// Where the search for the constants of `target` stands.
#[derive(Debug)]
pub enum ConstantsSearch {
    /// Waiting for the stored constants of the target.
    CheckingDisk { target: u32 },
    /// Waiting for the repository listing.
    Listing { target: u32 },
    /// Waiting for the download of the target's own constants.
    DownloadingTarget { target: u32, fallbacks: Vec<u32> },
    /// Waiting for the stored constants of fallback build `fallbacks[next]`.
    CheckingFallback { target: u32, fallbacks: Vec<u32>, next: usize },
    /// Waiting for the download of fallback build `fallbacks[next]`.
    DownloadingFallback { target: u32, fallbacks: Vec<u32>, next: usize },
    Done,
}

/// Builds below `target`.
pub open spec fn valid_fallbacks(fallbacks: Seq<u32>, target: u32) -> bool {
    forall|i: int| 0 <= i < fallbacks.len() ==> #[trigger] fallbacks[i] < target
}

impl ConstantsSearch {
    /// The state is one the search can be in.
    pub open spec fn wf(&self) -> bool {
        match *self {
            ConstantsSearch::DownloadingTarget { target, fallbacks } => valid_fallbacks(fallbacks@, target),
            ConstantsSearch::CheckingFallback { target, fallbacks, next } => valid_fallbacks(fallbacks@, target)
                && next < fallbacks@.len(),
            ConstantsSearch::DownloadingFallback { target, fallbacks, next } => valid_fallbacks(fallbacks@, target)
                && next < fallbacks@.len(),
            _ => true,
        }
    }

    /// The event answers the action the state waits on.
    pub open spec fn expects(&self, event: ConstantsEvent) -> bool {
        match *self {
            ConstantsSearch::Listing { .. } => event is Listed || event is ListingFailed,
            ConstantsSearch::Done => false,
            _ => event is Found || event is Missing,
        }
    }

    /// Starts the search for the constants of `target`: first on disk.
    pub fn begin(target: u32) -> (r: (ConstantsSearch, ConstantsAction))
        ensures
            r.0 == (ConstantsSearch::CheckingDisk { target }),
            r.1 == ConstantsAction::ReadFromDisk(target),
            within_target(r.1, target),
    {
        (ConstantsSearch::CheckingDisk { target }, ConstantsAction::ReadFromDisk(target))
    }

    /// Tries the fallback builds from `next` on.
    fn try_fallback(target: u32, fallbacks: Vec<u32>, next: usize) -> (r: (ConstantsSearch, ConstantsAction))
        requires
            valid_fallbacks(fallbacks@, target),
            next <= fallbacks@.len(),
        ensures
            r.0.wf(),
            within_target(r.1, target),
            r.0 is Done || search_target(r.0) == Some(target),
            next < fallbacks@.len() ==> r.0 == (ConstantsSearch::CheckingFallback { target, fallbacks, next })
                && r.1 == ConstantsAction::ReadFromDisk(fallbacks@[next as int]),
            next == fallbacks@.len() ==> r.0 == ConstantsSearch::Done && finishes(r.1, None, false, Seq::empty()),
    {
        if next < fallbacks.len() {
            let build = fallbacks[next];
            (ConstantsSearch::CheckingFallback { target, fallbacks, next }, ConstantsAction::ReadFromDisk(build))
        } else {
            (ConstantsSearch::Done, ConstantsAction::Finish { source: None, exact: false, save_as: Vec::new() })
        }
    }

    /// Takes the answer to the last action and decides the next one: the
    /// target's stored constants first, then the repository listing, then
    /// the target's download, then each lower build, nearest first, from disk
    /// and then by download.
    pub fn step(self, event: ConstantsEvent) -> (r: (ConstantsSearch, ConstantsAction))
        requires
            self.wf(),
            self.expects(event),
        ensures
            r.0.wf(),
            search_target(self) matches Some(t) && within_target(r.1, t),
            r.0 is Done || search_target(r.0) == search_target(self),
            match (self, event) {
                (ConstantsSearch::CheckingDisk { target }, ConstantsEvent::Found) => r.0 == ConstantsSearch::Done
                    && finishes(r.1, Some(target), true, Seq::empty()),
                (ConstantsSearch::CheckingDisk { target }, _) => r.0 == (ConstantsSearch::Listing { target })
                    && r.1 == ConstantsAction::ListAvailableBuilds,
                (ConstantsSearch::Listing { target }, ConstantsEvent::Listed(builds)) => if builds@.contains(
                    target,
                ) {
                    r.0 matches ConstantsSearch::DownloadingTarget { target: t, fallbacks } && t == target
                        && fallbacks@ == fallback_builds(builds@, target) && r.1 == ConstantsAction::Download(target)
                } else if fallback_builds(builds@, target).len() > 0 {
                    r.0 matches ConstantsSearch::CheckingFallback { target: t, fallbacks, next } && t == target
                        && fallbacks@ == fallback_builds(builds@, target) && next == 0 && r.1
                        == ConstantsAction::ReadFromDisk(fallbacks@[0])
                } else {
                    r.0 == ConstantsSearch::Done && finishes(r.1, None, false, Seq::empty())
                },
                (ConstantsSearch::Listing { .. }, _) => r.0 == ConstantsSearch::Done && finishes(r.1, None, false, Seq::empty()),
                (ConstantsSearch::DownloadingTarget { target, .. }, ConstantsEvent::Found) => r.0
                    == ConstantsSearch::Done && finishes(r.1, Some(target), true, seq![target]),
                (ConstantsSearch::DownloadingTarget { target, fallbacks }, _) => if fallbacks@.len() > 0 {
                    r.0 == (ConstantsSearch::CheckingFallback { target, fallbacks, next: 0 }) && r.1
                        == ConstantsAction::ReadFromDisk(fallbacks@[0])
                } else {
                    r.0 == ConstantsSearch::Done && finishes(r.1, None, false, Seq::empty())
                },
                (ConstantsSearch::CheckingFallback { target, fallbacks, next }, ConstantsEvent::Found) => r.0
                    == ConstantsSearch::Done && finishes(r.1, Some(fallbacks@[next as int]), false, seq![target]),
                (ConstantsSearch::CheckingFallback { target, fallbacks, next }, _) => r.0
                    == (ConstantsSearch::DownloadingFallback { target, fallbacks, next }) && r.1
                    == ConstantsAction::Download(fallbacks@[next as int]),
                (ConstantsSearch::DownloadingFallback { target, fallbacks, next }, ConstantsEvent::Found) => r.0
                    == ConstantsSearch::Done && finishes(
                    r.1,
                    Some(fallbacks@[next as int]),
                    false,
                    seq![fallbacks@[next as int], target],
                ),
                (ConstantsSearch::DownloadingFallback { target, fallbacks, next }, _) => if next + 1
                    < fallbacks@.len() {
                    r.0 == (ConstantsSearch::CheckingFallback { target, fallbacks, next: (next + 1) as usize })
                        && r.1 == ConstantsAction::ReadFromDisk(fallbacks@[next + 1])
                } else {
                    r.0 == ConstantsSearch::Done && finishes(r.1, None, false, Seq::empty())
                },
                (ConstantsSearch::Done, _) => false,
            },
    {
        match self {
            ConstantsSearch::CheckingDisk { target } => match event {
                ConstantsEvent::Found => (
                    ConstantsSearch::Done,
                    ConstantsAction::Finish { source: Some(target), exact: true, save_as: Vec::new() },
                ),
                _ => (ConstantsSearch::Listing { target }, ConstantsAction::ListAvailableBuilds),
            },
            ConstantsSearch::Listing { target } => match event {
                ConstantsEvent::Listed(builds) => {
                    let fallbacks = fallback_candidates(&builds, target);
                    proof {
                        lemma_fallback_builds_valid(builds@, target);
                    }
                    let mut listed = false;
                    let mut i: usize = 0;
                    while i < builds.len()
                        invariant
                            i <= builds@.len(),
                            listed == builds@.take(i as int).contains(target),
                        decreases builds@.len() - i,
                    {
                        proof {
                            assert(builds@.take(i + 1) =~= builds@.take(i as int).push(builds@[i as int]));
                        }
                        if builds[i] == target {
                            listed = true;
                            assert(builds@.take(i + 1)[i as int] == target);
                        } else {
                            assert(builds@.take(i + 1).contains(target) ==> builds@.take(i as int).contains(target))
                                by {
                                if builds@.take(i + 1).contains(target) {
                                    let k = choose|k: int| 0 <= k < i + 1 && #[trigger] builds@.take(i + 1)[k] == target;
                                    assert(k < i);
                                    assert(builds@.take(i as int)[k] == target);
                                }
                            }
                        }
                        i = i + 1;
                    }
                    assert(builds@.take(builds@.len() as int) =~= builds@);
                    if listed {
                        (
                            ConstantsSearch::DownloadingTarget { target, fallbacks },
                            ConstantsAction::Download(target),
                        )
                    } else {
                        ConstantsSearch::try_fallback(target, fallbacks, 0)
                    }
                },
                _ => (ConstantsSearch::Done, ConstantsAction::Finish { source: None, exact: false, save_as: Vec::new() }),
            },
            ConstantsSearch::DownloadingTarget { target, fallbacks } => match event {
                ConstantsEvent::Found => (
                    ConstantsSearch::Done,
                    ConstantsAction::Finish { source: Some(target), exact: true, save_as: single_build(target) },
                ),
                _ => ConstantsSearch::try_fallback(target, fallbacks, 0),
            },
            ConstantsSearch::CheckingFallback { target, fallbacks, next } => {
                let build = fallbacks[next];
                match event {
                    ConstantsEvent::Found => (
                        ConstantsSearch::Done,
                        ConstantsAction::Finish { source: Some(build), exact: false, save_as: single_build(target) },
                    ),
                    _ => (
                        ConstantsSearch::DownloadingFallback { target, fallbacks, next },
                        ConstantsAction::Download(build),
                    ),
                }
            },
            ConstantsSearch::DownloadingFallback { target, fallbacks, next } => {
                let build = fallbacks[next];
                let count = fallbacks.len();
                match event {
                    ConstantsEvent::Found => (
                        ConstantsSearch::Done,
                        ConstantsAction::Finish { source: Some(build), exact: false, save_as: two_builds(build, target) },
                    ),
                    _ => ConstantsSearch::try_fallback(target, fallbacks, next + 1),
                }
            },
            ConstantsSearch::Done => (
                ConstantsSearch::Done,
                ConstantsAction::Finish { source: None, exact: false, save_as: Vec::new() },
            ),
        }
    }
}

/// The fallback builds are below the target.
proof fn lemma_fallback_builds_valid(available: Seq<u32>, target: u32)
    ensures
        forall|i: int| 0 <= i < fallback_builds(available, target).len() ==> #[trigger] fallback_builds(
            available,
            target,
        )[i] < target,
    decreases available.len(),
{
    if available.len() > 0 {
        lemma_fallback_builds_valid(available.drop_last(), target);
        let rest = fallback_builds(available.drop_last(), target);
        if available.last() < target {
            assert forall|i: int| 0 <= i < rest.len() + 1 implies #[trigger] (seq![available.last()] + rest)[i]
                < target by {
                if i > 0 {
                    assert((seq![available.last()] + rest)[i] == rest[i - 1]);
                }
            }
        }
    }
}

/// The outcome of checking for a newer release of the application.
#[derive(Debug)]
pub enum UpdateCheck {
    UpdateAvailable,
    UpToDate,
    CheckFailed(String),
}

/// Decides whether the latest release, tagged `tag_name` ("v" and a semantic
/// version), is newer than the running application's version `current`.
pub fn app_update_status(tag_name: &str, current: &ReleaseVersion) -> (r: UpdateCheck)
    requires
        tag_name@.len() > 0,
        (tag_name@[0] as u32) < 0x80,
    ensures
        ({
            let released = tag_name@.drop_first();
            if semver_accepts(released) {
                r == if semver_precedes(current.spec_text(), released) {
                    UpdateCheck::UpdateAvailable
                } else {
                    UpdateCheck::UpToDate
                }
            } else {
                r matches UpdateCheck::CheckFailed(m) && m@ == "failed to parse release version '"@ + tag_name@
                    + "': "@ + semver_error_text(released)
            }
        }),
{
    let chars = chars_of(tag_name);
    let rest = sub_chars(&chars, 1, chars.len());
    let released = string_of(&rest);
    assert(released@ =~= tag_name@.drop_first());
    match ReleaseVersion::parse(released.as_str()) {
        Ok(latest) => {
            if release_precedes(current, &latest) {
                UpdateCheck::UpdateAvailable
            } else {
                UpdateCheck::UpToDate
            }
        },
        Err(e) => {
            let a = concat_text("failed to parse release version '", tag_name);
            let b = concat_text(a.as_str(), "': ");
            let m = concat_text(b.as_str(), e.as_str());
            UpdateCheck::CheckFailed(m)
        },
    }
}

/// Seconds between two checks for new constants.
pub const CONSTANTS_CHECK_INTERVAL_SECS: u64 = 1800;

/// Whether a check for new constants may run, given the seconds since the
/// last one (`None`: there was none).
pub fn constants_check_due(elapsed_since_last: Option<u64>) -> (r: bool)
    ensures
        r == match elapsed_since_last {
            Some(s) => s >= CONSTANTS_CHECK_INTERVAL_SECS,
            None => true,
        },
{
    match elapsed_since_last {
        Some(s) => s >= CONSTANTS_CHECK_INTERVAL_SECS,
        None => true,
    }
}

/// Whether the constants must be downloaded: the repository's latest commit
/// is known and differs from the commit the current constants come from.
pub fn constants_outdated(current_commit: &Option<String>, latest_commit: &Option<String>) -> (r: bool)
    ensures
        r == match (current_commit, latest_commit) {
            (_, None) => false,
            (None, Some(_)) => true,
            (Some(c), Some(l)) => c@ != l@,
        },
{
    match (current_commit, latest_commit) {
        (_, None) => false,
        (None, Some(_)) => true,
        (Some(c), Some(l)) => !same_text(c.as_str(), l.as_str()),
    }
}

/// The replay files whose builds were already handled, each path once.
pub struct SentReplays {
    paths: Vec<String>,
}

impl SentReplays {
    pub closed spec fn view_paths(&self) -> Seq<Seq<char>> {
        self.paths@.map_values(|p: String| p@)
    }

    /// Each path occurs once.
    pub open spec fn wf(&self) -> bool {
        forall|i: int, j: int|
            0 <= i < j < self.view_paths().len() ==> #[trigger] self.view_paths()[i] != #[trigger] self.view_paths()[j]
    }

    /// No path yet.
    pub fn new() -> (r: SentReplays)
        ensures
            r.wf(),
            r.view_paths() == Seq::<Seq<char>>::empty(),
    {
        let r = SentReplays { paths: Vec::new() };
        assert(r.view_paths() =~= Seq::<Seq<char>>::empty());
        r
    }

    fn position(&self, path: &str) -> (r: Option<usize>)
        ensures
            match r {
                Some(i) => i < self.view_paths().len() && self.view_paths()[i as int] == path@,
                None => !self.view_paths().contains(path@),
            },
    {
        let mut i: usize = 0;
        while i < self.paths.len()
            invariant
                i <= self.paths@.len(),
                forall|k: int| 0 <= k < i ==> #[trigger] self.view_paths()[k] != path@,
            decreases self.paths@.len() - i,
        {
            assert(self.view_paths()[i as int] == self.paths@[i as int]@);
            if same_text(self.paths[i].as_str(), path) {
                return Some(i);
            }
            i = i + 1;
        }
        None
    }

    /// The recorded paths.
    pub fn paths(&self) -> (r: &Vec<String>)
        ensures
            r@.map_values(|p: String| p@) == self.view_paths(),
    {
        &self.paths
    }

    /// Whether the path was handled.
    pub fn contains(&self, path: &str) -> (r: bool)
        ensures
            r == self.view_paths().contains(path@),
    {
        match self.position(path) {
            Some(i) => {
                assert(self.view_paths()[i as int] == path@);
                true
            },
            None => false,
        }
    }

    /// Marks the path as handled.
    pub fn record(&mut self, path: &str)
        requires
            old(self).wf(),
        ensures
            final(self).wf(),
            final(self).view_paths().to_set() == old(self).view_paths().to_set().insert(path@),
    {
        if self.position(path).is_none() {
            let ghost before = self.view_paths();
            self.paths.push(path.to_owned());
            proof {
                assert(self.view_paths() =~= before.push(path@));
                assert(self.view_paths().to_set() =~= before.to_set().insert(path@)) by {
                    broadcast use vstd::seq_lib::group_seq_properties;
                }
            }
        } else {
            assert(self.view_paths().to_set() =~= self.view_paths().to_set().insert(path@)) by {
                broadcast use vstd::seq_lib::group_seq_properties;
            }
        }
    }

    /// Forgets the path, whose file no longer exists.
    pub fn forget(&mut self, path: &str)
        requires
            old(self).wf(),
        ensures
            final(self).wf(),
            final(self).view_paths().to_set() == old(self).view_paths().to_set().remove(path@),
    {
        match self.position(path) {
            Some(i) => {
                let ghost before = self.view_paths();
                self.paths.remove(i);
                proof {
                    assert(self.view_paths() =~= before.remove(i as int));
                    assert forall|x: Seq<char>| #[trigger] self.view_paths().contains(x) <==> (before.contains(x) && x
                        != path@) by {
                        if self.view_paths().contains(x) {
                            let k = choose|k: int| 0 <= k < self.view_paths().len() && self.view_paths()[k] == x;
                            if k < i {
                                assert(before[k] == x);
                            } else {
                                assert(before[k + 1] == x);
                            }
                        }
                        if before.contains(x) && x != path@ {
                            let k = choose|k: int| 0 <= k < before.len() && before[k] == x;
                            if k < i {
                                assert(self.view_paths()[k] == x);
                            } else {
                                assert(k != i);
                                assert(self.view_paths()[k - 1] == x);
                            }
                        }
                    }
                    assert(self.view_paths().to_set() =~= before.to_set().remove(path@)) by {
                        broadcast use vstd::seq_lib::group_seq_properties;
                    }
                }
            },
            None => {
                assert(self.view_paths().to_set() =~= self.view_paths().to_set().remove(path@)) by {
                    broadcast use vstd::seq_lib::group_seq_properties;
                }
            },
        }
    }

    /// Whether the scan for unsent replays parses the file with this name
    /// and path: a replay file not handled yet.
    pub fn scan_should_parse(&self, file_name: &str, path: &str) -> (r: bool)
        ensures
            r == (!is_skipped_in_scan(file_name@) && !self.view_paths().contains(path@)),
    {
        !skipped_in_scan(file_name) && !self.contains(path)
    }
}

/// A replay for the background parser to parse.
#[derive(Debug)]
pub struct ParseRequest {
    pub path: String,
    /// The replay's builds were handled before, so they are not sent again.
    pub parsed_before: bool,
    /// Record the path as handled once the replay parsed.
    pub record_when_parsed: bool,
    /// The replay's builds may be sent to the build statistics service.
    pub may_send_builds: bool,
}

/// The settings the background parser works with.
#[derive(Debug)]
pub struct ParserSettings {
    pub should_send_replays: bool,
    pub data_export_settings: DataExportSettings,
    pub is_debug: bool,
}

impl ParserSettings {
    /// Handles a message to the background parser: a new replay is parsed,
    /// its builds sent when the user allows it, and recorded once parsed; a
    /// modified one is parsed again but never sent nor recorded; the other
    /// messages change the settings.
    pub fn handle(&mut self, sent: &SentReplays, message: ReplayBackgroundParserThreadMessage) -> (r: Option<
        ParseRequest,
    >)
        ensures
            match message {
                ReplayBackgroundParserThreadMessage::NewReplay(p) => r matches Some(q) && q.path@ == p@
                    && q.parsed_before == sent.view_paths().contains(p@) && q.record_when_parsed
                    && q.may_send_builds == old(self).should_send_replays && *final(self) == *old(self),
                ReplayBackgroundParserThreadMessage::ModifiedReplay(p) => r matches Some(q) && q.path@ == p@
                    && q.parsed_before == sent.view_paths().contains(p@) && !q.record_when_parsed
                    && !q.may_send_builds && *final(self) == *old(self),
                ReplayBackgroundParserThreadMessage::ShouldSendReplaysToServer(b) => (r is None) && (final(
                    self
                ).should_send_replays == b) && (final(self).data_export_settings == old(self).data_export_settings)
                    && (final(self).is_debug == old(self).is_debug),
                ReplayBackgroundParserThreadMessage::DataAutoExportSettingChange(d) => (r is None) && (final(
                    self
                ).data_export_settings == d) && (final(self).should_send_replays == old(self).should_send_replays)
                    && (final(self).is_debug == old(self).is_debug),
                ReplayBackgroundParserThreadMessage::DebugStateChange(b) => (r is None) && (final(self).is_debug == b)
                    && (final(self).should_send_replays == old(self).should_send_replays) && (final(
                    self
                ).data_export_settings == old(self).data_export_settings),
            },
    {
        match message {
            ReplayBackgroundParserThreadMessage::NewReplay(path) => {
                let parsed_before = sent.contains(path.as_str());
                Some(
                    ParseRequest {
                        path,
                        parsed_before,
                        record_when_parsed: true,
                        may_send_builds: self.should_send_replays,
                    },
                )
            },
            ReplayBackgroundParserThreadMessage::ModifiedReplay(path) => {
                let parsed_before = sent.contains(path.as_str());
                Some(ParseRequest { path, parsed_before, record_when_parsed: false, may_send_builds: false })
            },
            ReplayBackgroundParserThreadMessage::ShouldSendReplaysToServer(b) => {
                self.should_send_replays = b;
                None
            },
            ReplayBackgroundParserThreadMessage::DataAutoExportSettingChange(d) => {
                self.data_export_settings = d;
                None
            },
            ReplayBackgroundParserThreadMessage::DebugStateChange(b) => {
                self.is_debug = b;
                None
            },
        }
    }
}


/// How often the background parser tries to read and parse a replay.
pub const BACKGROUND_PARSE_ATTEMPTS: u8 = 3;

/// Seconds waited after a replay could not be read.
pub const READ_RETRY_DELAY_SECS: u64 = 5;

/// What the game data lookup for a replay's build found.
#[derive(Debug, Copy, Clone, PartialEq, Eq, Structural)]
pub enum ResolveOutcome {
    /// No game data for the replay's build: the replay is skipped.
    NoDataForBuild,
    /// Game data without its metadata.
    NoMetadata,
    Ready,
}

/// What parsing the battle report gave.
#[derive(Debug)]
pub enum ReportOutcome {
    /// A report of `players` players for a battle of type `game_type`;
    /// `has_results` when the server's battle results are in it.
    Parsed { players: usize, game_type: String, has_results: bool },
    /// The replay was recorded by another build than the data loaded for it.
    VersionMismatch,
    Failed,
}

/// What sending one player's build gave.
#[derive(Debug, Copy, Clone, PartialEq, Eq, Structural)]
pub enum UploadOutcome {
    Sent,
    /// No build could be made for the player.
    NoPayload,
    /// The service could not be reached.
    ConnectError,
    OtherError,
}

/// What happened to the last action of a background parse.
#[derive(Debug)]
pub enum ParseJobEvent {
    ReplayRead(bool),
    Slept,
    Resolved(ResolveOutcome),
    ReportParsed(ReportOutcome),
    Uploaded(UploadOutcome),
    TrackerUpdated,
    ReportBuilt,
    Exported,
}

/// What a background parse asks of the application next.
#[derive(Debug, Copy, Clone, PartialEq, Eq, Structural)]
pub enum ParseJobAction {
    /// Read the replay file.
    ReadReplay,
    /// Wait this many seconds.
    Sleep(u64),
    /// Look up the game data of the replay's build.
    ResolveGameData,
    /// Parse the battle report.
    ParseReport,
    /// Send the build of the player at this position of the report.
    UploadBuild(usize),
    /// Add the battle to the player tracker.
    UpdateTracker,
    /// Build the report shown for the battle.
    BuildReport,
    /// Write the export file.
    Export,
    /// The parse is over; `true` when the replay counts as handled.
    Finish(bool),
}

/// Where a background parse stands; `attempt` counts from 0.
#[derive(Debug, Copy, Clone, PartialEq, Eq, Structural)]
pub enum ParseStage {
    Reading { attempt: u8 },
    Sleeping { attempt: u8 },
    Resolving { attempt: u8 },
    Parsing { attempt: u8 },
    Uploading { attempt: u8, next: usize, players: usize, has_results: bool },
    Tracking { has_results: bool },
    Reporting,
    Exporting,
    Done,
}

/// A background parse of one replay, with the settings it runs under.
#[derive(Debug, Copy, Clone, PartialEq, Eq, Structural)]
pub struct ParseJob {
    /// The replay's builds were handled before.
    pub parsed_before: bool,
    /// The replay's builds may be sent: the user allows it, and the replay
    /// is a new one, not one modified after it was first handled.
    pub should_send_replays: bool,
    pub should_auto_export: bool,
    pub stage: ParseStage,
}

/// The stage after an attempt that did not finish the parse: the next
/// attempt, or the end when none is left.
pub open spec fn next_attempt(job: ParseJob, attempt: u8) -> (ParseJob, ParseJobAction) {
    if attempt + 1 < BACKGROUND_PARSE_ATTEMPTS {
        (ParseJob { stage: ParseStage::Reading { attempt: (attempt + 1) as u8 }, ..job }, ParseJobAction::ReadReplay)
    } else {
        (ParseJob { stage: ParseStage::Done, ..job }, ParseJobAction::Finish(false))
    }
}

/// The stage after the tracker was updated, or after a report that is not
/// added to it: the shown report is built only when the battle results
/// are in, and the parse then counts as handled.
pub open spec fn after_tracking(job: ParseJob, has_results: bool) -> (ParseJob, ParseJobAction) {
    if has_results {
        (ParseJob { stage: ParseStage::Reporting, ..job }, ParseJobAction::BuildReport)
    } else {
        (ParseJob { stage: ParseStage::Done, ..job }, ParseJobAction::Finish(true))
    }
}

/// The next stage and action of a background parse.
pub open spec fn parse_job_step(job: ParseJob, event: ParseJobEvent) -> (ParseJob, ParseJobAction) {
    match (job.stage, event) {
        (ParseStage::Reading { attempt }, ParseJobEvent::ReplayRead(ok)) => if ok {
            (ParseJob { stage: ParseStage::Resolving { attempt }, ..job }, ParseJobAction::ResolveGameData)
        } else {
            (ParseJob { stage: ParseStage::Sleeping { attempt }, ..job }, ParseJobAction::Sleep(READ_RETRY_DELAY_SECS))
        },
        (ParseStage::Sleeping { attempt }, _) => next_attempt(job, attempt),
        (ParseStage::Resolving { attempt }, ParseJobEvent::Resolved(outcome)) => match outcome {
            ResolveOutcome::NoDataForBuild => (ParseJob { stage: ParseStage::Done, ..job }, ParseJobAction::Finish(true)),
            ResolveOutcome::NoMetadata => (ParseJob { stage: ParseStage::Done, ..job }, ParseJobAction::Finish(false)),
            ResolveOutcome::Ready => (
                ParseJob { stage: ParseStage::Parsing { attempt }, ..job },
                ParseJobAction::ParseReport,
            ),
        },
        (ParseStage::Parsing { attempt }, ParseJobEvent::ReportParsed(outcome)) => match outcome {
            ReportOutcome::Parsed { players, game_type, has_results } => if job.parsed_before {
                after_tracking(job, has_results)
            } else if job.should_send_replays && shares_builds(game_type@) && players > 0 {
                (
                    ParseJob { stage: ParseStage::Uploading { attempt, next: 0, players, has_results }, ..job },
                    ParseJobAction::UploadBuild(0),
                )
            } else {
                (ParseJob { stage: ParseStage::Tracking { has_results }, ..job }, ParseJobAction::UpdateTracker)
            },
            ReportOutcome::VersionMismatch => (
                ParseJob { stage: ParseStage::Done, ..job },
                ParseJobAction::Finish(true),
            ),
            ReportOutcome::Failed => next_attempt(job, attempt),
        },
        (ParseStage::Uploading { attempt, next, players, has_results }, ParseJobEvent::Uploaded(outcome)) => if outcome
            == UploadOutcome::ConnectError {
            (ParseJob { stage: ParseStage::Done, ..job }, ParseJobAction::Finish(false))
        } else if next + 1 < players {
            (
                ParseJob { stage: ParseStage::Uploading { attempt, next: (next + 1) as usize, players, has_results }, ..job },
                ParseJobAction::UploadBuild((next + 1) as usize),
            )
        } else {
            (ParseJob { stage: ParseStage::Tracking { has_results }, ..job }, ParseJobAction::UpdateTracker)
        },
        (ParseStage::Tracking { has_results }, _) => after_tracking(job, has_results),
        (ParseStage::Reporting, _) => if job.should_auto_export {
            (ParseJob { stage: ParseStage::Exporting, ..job }, ParseJobAction::Export)
        } else {
            (ParseJob { stage: ParseStage::Done, ..job }, ParseJobAction::Finish(true))
        },
        (ParseStage::Exporting, _) => (ParseJob { stage: ParseStage::Done, ..job }, ParseJobAction::Finish(true)),
        _ => (job, ParseJobAction::Finish(false)),
    }
}

impl ParseJob {
    /// The stage is one the parse can be in.
    pub open spec fn wf(&self) -> bool {
        match self.stage {
            ParseStage::Reading { attempt } => attempt < BACKGROUND_PARSE_ATTEMPTS,
            ParseStage::Sleeping { attempt } => attempt < BACKGROUND_PARSE_ATTEMPTS,
            ParseStage::Resolving { attempt } => attempt < BACKGROUND_PARSE_ATTEMPTS,
            ParseStage::Parsing { attempt } => attempt < BACKGROUND_PARSE_ATTEMPTS,
            ParseStage::Uploading { attempt, next, players, .. } => attempt < BACKGROUND_PARSE_ATTEMPTS && next
                < players && !self.parsed_before && self.should_send_replays,
            ParseStage::Tracking { .. } => !self.parsed_before,
            ParseStage::Exporting => self.should_auto_export,
            _ => true,
        }
    }

    /// The event answers the action the stage waits on.
    pub open spec fn expects(&self, event: ParseJobEvent) -> bool {
        match self.stage {
            ParseStage::Reading { .. } => event is ReplayRead,
            ParseStage::Sleeping { .. } => event is Slept,
            ParseStage::Resolving { .. } => event is Resolved,
            ParseStage::Parsing { .. } => event is ReportParsed,
            ParseStage::Uploading { .. } => event is Uploaded,
            ParseStage::Tracking { .. } => event is TrackerUpdated,
            ParseStage::Reporting => event is ReportBuilt,
            ParseStage::Exporting => event is Exported,
            ParseStage::Done => false,
        }
    }

    /// Starts the background parse of a replay: first, its file is read.
    pub fn begin(parsed_before: bool, should_send_replays: bool, should_auto_export: bool) -> (r: (
        ParseJob,
        ParseJobAction,
    ))
        ensures
            r.0 == (ParseJob {
                parsed_before,
                should_send_replays,
                should_auto_export,
                stage: ParseStage::Reading { attempt: 0 },
            }),
            r.1 == ParseJobAction::ReadReplay,
    {
        (
            ParseJob { parsed_before, should_send_replays, should_auto_export, stage: ParseStage::Reading { attempt: 0 } },
            ParseJobAction::ReadReplay,
        )
    }

    /// Takes the outcome of the last action. A replay that cannot be read
    /// is tried again after a wait, one whose report fails to parse at
    /// once, three attempts in all; a replay of a build without game data,
    /// or recorded by another build, counts as handled without more work.
    /// A replay never handled before has its builds sent, when the user
    /// allows it and the battle is random or ranked, and is added to the
    /// player tracker; an unreachable service ends the parse unhandled. The
    /// shown report is built, and exported when asked for, only when the
    /// battle results are in.
    pub fn step(self, event: ParseJobEvent) -> (r: (ParseJob, ParseJobAction))
        requires
            self.wf(),
            self.expects(event),
        ensures
            r == parse_job_step(self, event),
            r.0.wf(),
            r.0.parsed_before == self.parsed_before,
            r.0.should_send_replays == self.should_send_replays,
            r.0.should_auto_export == self.should_auto_export,
            r.1 is UpdateTracker ==> !self.parsed_before,
            r.1 is UploadBuild ==> !self.parsed_before && self.should_send_replays,
            r.1 is Export ==> self.should_auto_export,
            r.0.stage is Done <==> r.1 is Finish,
    {
        let job = self;
        match job.stage {
            ParseStage::Reading { attempt } => {
                let ok = match event {
                    ParseJobEvent::ReplayRead(ok) => ok,
                    _ => false,
                };
                if ok {
                    (ParseJob { stage: ParseStage::Resolving { attempt }, ..job }, ParseJobAction::ResolveGameData)
                } else {
                    (
                        ParseJob { stage: ParseStage::Sleeping { attempt }, ..job },
                        ParseJobAction::Sleep(READ_RETRY_DELAY_SECS),
                    )
                }
            },
            ParseStage::Sleeping { attempt } => Self::next_attempt(job, attempt),
            ParseStage::Resolving { attempt } => match event {
                ParseJobEvent::Resolved(ResolveOutcome::NoDataForBuild) => (
                    ParseJob { stage: ParseStage::Done, ..job },
                    ParseJobAction::Finish(true),
                ),
                ParseJobEvent::Resolved(ResolveOutcome::NoMetadata) => (
                    ParseJob { stage: ParseStage::Done, ..job },
                    ParseJobAction::Finish(false),
                ),
                _ => (ParseJob { stage: ParseStage::Parsing { attempt }, ..job }, ParseJobAction::ParseReport),
            },
            ParseStage::Parsing { attempt } => match event {
                ParseJobEvent::ReportParsed(ReportOutcome::Parsed { players, game_type, has_results }) => {
                    if job.parsed_before {
                        Self::after_tracking(job, has_results)
                    } else if should_upload_builds(game_type.as_str(), false, job.should_send_replays) && players > 0 {
                        (
                            ParseJob { stage: ParseStage::Uploading { attempt, next: 0, players, has_results }, ..job },
                            ParseJobAction::UploadBuild(0),
                        )
                    } else {
                        (ParseJob { stage: ParseStage::Tracking { has_results }, ..job }, ParseJobAction::UpdateTracker)
                    }
                },
                ParseJobEvent::ReportParsed(ReportOutcome::VersionMismatch) => (
                    ParseJob { stage: ParseStage::Done, ..job },
                    ParseJobAction::Finish(true),
                ),
                _ => Self::next_attempt(job, attempt),
            },
            ParseStage::Uploading { attempt, next, players, has_results } => {
                let connect_error = match event {
                    ParseJobEvent::Uploaded(UploadOutcome::ConnectError) => true,
                    _ => false,
                };
                if connect_error {
                    (ParseJob { stage: ParseStage::Done, ..job }, ParseJobAction::Finish(false))
                } else if next + 1 < players {
                    (
                        ParseJob { stage: ParseStage::Uploading { attempt, next: next + 1, players, has_results }, ..job },
                        ParseJobAction::UploadBuild(next + 1),
                    )
                } else {
                    (ParseJob { stage: ParseStage::Tracking { has_results }, ..job }, ParseJobAction::UpdateTracker)
                }
            },
            ParseStage::Tracking { has_results } => Self::after_tracking(job, has_results),
            ParseStage::Reporting => {
                if job.should_auto_export {
                    (ParseJob { stage: ParseStage::Exporting, ..job }, ParseJobAction::Export)
                } else {
                    (ParseJob { stage: ParseStage::Done, ..job }, ParseJobAction::Finish(true))
                }
            },
            ParseStage::Exporting => (ParseJob { stage: ParseStage::Done, ..job }, ParseJobAction::Finish(true)),
            ParseStage::Done => (job, ParseJobAction::Finish(false)),
        }
    }

    fn next_attempt(job: ParseJob, attempt: u8) -> (r: (ParseJob, ParseJobAction))
        requires
            attempt < BACKGROUND_PARSE_ATTEMPTS,
        ensures
            r == next_attempt(job, attempt),
    {
        if attempt + 1 < BACKGROUND_PARSE_ATTEMPTS {
            (ParseJob { stage: ParseStage::Reading { attempt: attempt + 1 }, ..job }, ParseJobAction::ReadReplay)
        } else {
            (ParseJob { stage: ParseStage::Done, ..job }, ParseJobAction::Finish(false))
        }
    }

    fn after_tracking(job: ParseJob, has_results: bool) -> (r: (ParseJob, ParseJobAction))
        ensures
            r == after_tracking(job, has_results),
    {
        if has_results {
            (ParseJob { stage: ParseStage::Reporting, ..job }, ParseJobAction::BuildReport)
        } else {
            (ParseJob { stage: ParseStage::Done, ..job }, ParseJobAction::Finish(true))
        }
    }
}


/// The parse starts sending builds only for a battle report of a random or
/// ranked battle, of a replay never handled before, and with the user's
/// consent; once sending, it goes on only under the same consent.
pub proof fn law_builds_sent_only_with_consent(job: ParseJob, event: ParseJobEvent)
    requires
        job.wf(),
        job.expects(event),
    ensures
        parse_job_step(job, event).1 is UploadBuild ==> !job.parsed_before && job.should_send_replays,
        parse_job_step(job, event).1 is UploadBuild && job.stage is Parsing ==> match event {
            ParseJobEvent::ReportParsed(ReportOutcome::Parsed { game_type, .. }) => shares_builds(game_type@),
            _ => false,
        },
{
}


/// The folders searched for the game's translations, in order: the locale
/// itself, its primary language, and English. `None` for a locale that is
/// no language tag.
pub open spec fn spec_localization_dirs(locale: Seq<char>) -> Option<Seq<Seq<char>>> {
    match primary_language_of(locale) {
        Some(language) => Some(seq![locale, language, "en"@]),
        None => None,
    }
}

/// The translation folders to try for a locale.
pub fn localization_dirs(locale: &str) -> (r: Option<Vec<String>>)
    ensures
        match r {
            Some(dirs) => spec_localization_dirs(locale@) == Some(dirs@.map_values(|d: String| d@)),
            None => spec_localization_dirs(locale@) is None,
        },
{
    match primary_language(locale) {
        Some(language) => {
            let mut dirs: Vec<String> = Vec::new();
            dirs.push(locale.to_owned());
            dirs.push(language);
            dirs.push("en".to_owned());
            assert(dirs@.map_values(|d: String| d@) =~= seq![locale@, dirs@[1]@, "en"@]);
            Some(dirs)
        },
        None => None,
    }
}

/// The translation catalog of a build in a folder, relative to the game
/// folder.
pub open spec fn spec_localization_file(build: u32, dir: Seq<char>) -> Seq<char> {
    "bin/"@ + decimal(build as nat) + "/res/texts/"@ + dir + "/LC_MESSAGES/global.mo"@
}

/// The path of a translation catalog.
pub fn localization_file(build: u32, dir: &str) -> (r: String)
    ensures
        r@ == spec_localization_file(build, dir@),
{
    let number = decimal_text(build as u64);
    let a = concat_text("bin/", number.as_str());
    let b = concat_text(a.as_str(), "/res/texts/");
    let c = concat_text(b.as_str(), dir);
    concat_text(c.as_str(), "/LC_MESSAGES/global.mo")
}


/// The file the constants of a build are stored in.
pub open spec fn spec_constants_file(build: u32) -> Seq<char> {
    "constants_"@ + decimal(build as nat) + ".json"@
}

/// The name of the file the constants of a build are stored in.
pub fn versioned_constants_file(build: u32) -> (r: String)
    ensures
        r@ == spec_constants_file(build),
{
    let number = decimal_text(build as u64);
    let head = concat_text("constants_", number.as_str());
    concat_text(head.as_str(), ".json")
}

/// The path of a build's constants in the constants repository.
pub open spec fn spec_constants_repo_path(build: u32) -> Seq<char> {
    "data/versions/"@ + decimal(build as nat) + ".json"@
}

/// The path of a build's constants in the constants repository.
pub fn versioned_constants_repo_path(build: u32) -> (r: String)
    ensures
        r@ == spec_constants_repo_path(build),
{
    let number = decimal_text(build as u64);
    let head = concat_text("data/versions/", number.as_str());
    concat_text(head.as_str(), ".json")
}


/// Recording a path and then forgetting it leaves the other handled paths
/// as they were, and recording a path twice records it once: the handled
/// replays form a set.
pub proof fn law_sent_replays_form_a_set(paths: Set<Seq<char>>, p: Seq<char>)
    ensures
        paths.insert(p).remove(p) == paths.remove(p),
        paths.insert(p).insert(p) == paths.insert(p),
        !paths.insert(p).remove(p).contains(p),
{
    assert(paths.insert(p).remove(p) =~= paths.remove(p));
    assert(paths.insert(p).insert(p) =~= paths.insert(p));
}


/// A modified replay is parsed again but its builds are never sent: the
/// request for it forbids sending, and a parse that may not send never asks
/// to upload a build.
pub proof fn law_modified_replays_never_sent(job: ParseJob, event: ParseJobEvent)
    requires
        job.wf(),
        job.expects(event),
        !job.should_send_replays,
    ensures
        !(parse_job_step(job, event).1 is UploadBuild),
{
    law_builds_sent_only_with_consent(job, event);
}

} // verus!
