//! The player tracker: who was met in which random or ranked battle, under
//! which names and clans, and the filtered, sorted table of those players.

use vstd::prelude::*;

use crate::task::shares_builds;
use crate::outside::{format_instant, human_time_between, human_time_text, strftime_text};
use crate::text::{chars_of, concat_text, contains_chars, has_substring, join, join_text, lex_compare, same_text, views};
use crate::twitch::{insert_instant, strictly_increasing, valid_instant};

verus! {

/// A player of a battle report.
#[derive(Debug, Clone)]
pub struct ArenaPlayer {
    pub name: String,
    pub db_id: i64,
    pub clan: String,
    pub clan_id: i64,
    pub division_id: u32,
}

/// The battle report of a replay.
#[derive(Debug)]
pub struct ArenaReport {
    pub arena_id: i64,
    pub players: Vec<ArenaPlayer>,
}

/// What the tracker reads of a replay: its game type, when it was played
/// (nanoseconds since the Unix epoch), the names and relations of its
/// vehicles (relation 0: the recording player), and its battle report if it
/// was parsed.
#[derive(Debug)]
pub struct ReplayRecord {
    pub game_type: String,
    pub timestamp: i128,
    pub vehicles: Vec<(String, u32)>,
    pub report: Option<ArenaReport>,
}

/// A player of a battle report, as plain values.
pub struct PlayerView {
    pub name: Seq<char>,
    pub db_id: i64,
    pub clan: Seq<char>,
    pub clan_id: i64,
    pub division_id: u32,
}

pub open spec fn player_view(p: ArenaPlayer) -> PlayerView {
    PlayerView { name: p.name@, db_id: p.db_id, clan: p.clan@, clan_id: p.clan_id, division_id: p.division_id }
}

/// What the tracker knows of a player.
pub struct TrackedView {
    pub last_name: Seq<char>,
    pub db_id: i64,
    pub names: Set<Seq<char>>,
    pub clan_id: i64,
    pub clan: Seq<char>,
    pub timestamps: Set<i128>,
    pub arena_ids: Set<i64>,
    pub notes: Seq<char>,
}

/// A player met for the first time starts from this.
pub open spec fn fresh_tracked() -> TrackedView {
    TrackedView {
        last_name: Seq::empty(),
        db_id: 0,
        names: Set::empty(),
        clan_id: 0,
        clan: Seq::empty(),
        timestamps: Set::empty(),
        arena_ids: Set::empty(),
        notes: Seq::empty(),
    }
}

/// A player seen in battles.
#[derive(Debug)]
pub struct TrackedPlayer {
    last_name: String,
    db_id: i64,
    names: Vec<String>,
    clan_id: i64,
    clan: String,
    timestamps: Vec<i128>,
    arena_ids: Vec<i64>,
    notes: String,
}

pub open spec fn text_set(v: Seq<String>) -> Set<Seq<char>> {
    v.map_values(|s: String| s@).to_set()
}

impl TrackedPlayer {
    pub closed spec fn view(&self) -> TrackedView {
        TrackedView {
            last_name: self.last_name@,
            db_id: self.db_id,
            names: text_set(self.names@),
            clan_id: self.clan_id,
            clan: self.clan@,
            timestamps: self.timestamps@.to_set(),
            arena_ids: self.arena_ids@.to_set(),
            notes: self.notes@,
        }
    }

    /// The instants are kept strictly increasing and valid; each battle and
    /// each earlier name is kept once.
    pub closed spec fn wf(&self) -> bool {
        &&& strictly_increasing(self.timestamps@)
        &&& forall|k: int| 0 <= k < self.timestamps@.len() ==> valid_instant(#[trigger] self.timestamps@[k])
        &&& self.arena_ids@.no_duplicates()
        &&& self.names@.map_values(|x: String| x@).no_duplicates()
    }

    /// The battles the player was met in are counted once each, and each
    /// earlier name is listed once.
    pub proof fn law_counted_once(&self)
        requires
            self.wf(),
        ensures
            self.spec_arena_count() == self.view().arena_ids.len(),
            self.spec_names().len() == self.view().names.len(),
    {
        self.arena_ids@.unique_seq_to_set();
        self.names@.map_values(|x: String| x@).unique_seq_to_set();
    }

    /// The instants at which the player was met, earliest first.
    pub closed spec fn spec_timestamps(&self) -> Seq<i128> {
        self.timestamps@
    }

    /// The number of battles the player was met in.
    pub closed spec fn spec_arena_count(&self) -> int {
        self.arena_ids@.len() as int
    }

    /// The player's earlier names, in the order they were kept.
    pub closed spec fn spec_names(&self) -> Seq<String> {
        self.names@
    }

    pub fn last_name(&self) -> (r: &str)
        ensures
            r@ == self.view().last_name,
    {
        self.last_name.as_str()
    }

    pub fn db_id(&self) -> (r: i64)
        ensures
            r == self.view().db_id,
    {
        self.db_id
    }

    pub fn clan(&self) -> (r: &str)
        ensures
            r@ == self.view().clan,
    {
        self.clan.as_str()
    }

    pub fn clan_id(&self) -> (r: i64)
        ensures
            r == self.view().clan_id,
    {
        self.clan_id
    }

    /// Earlier names of the player.
    pub fn names(&self) -> (r: &Vec<String>)
        ensures
            text_set(r@) == self.view().names,
    {
        &self.names
    }

    /// The instants at which the player was met, earliest first.
    pub fn timestamps(&self) -> (r: &Vec<i128>)
        ensures
            r@ == self.spec_timestamps(),
            r@.to_set() == self.view().timestamps,
    {
        &self.timestamps
    }

    pub fn arena_ids(&self) -> (r: &Vec<i64>)
        ensures
            r@.to_set() == self.view().arena_ids,
    {
        &self.arena_ids
    }

    pub fn notes(&self) -> (r: &str)
        ensures
            r@ == self.view().notes,
    {
        self.notes.as_str()
    }
}

/// The time span the player table covers.
#[derive(Debug, Copy, Clone, PartialEq, Eq, Structural)]
pub enum TimePeriod {
    LastHour,
    LastSixHours,
    LastDay,
    LastWeek,
    LastMonth,
    AllTime,
}

impl Default for TimePeriod {
    fn default() -> (r: TimePeriod)
        ensures
            r == TimePeriod::LastDay,
    {
        TimePeriod::LastDay
    }
}

pub open spec fn period_description(p: TimePeriod) -> Seq<char> {
    match p {
        TimePeriod::LastHour => "Past Hour"@,
        TimePeriod::LastSixHours => "Past 6 Hour"@,
        TimePeriod::LastDay => "Past 24 Hours"@,
        TimePeriod::LastWeek => "Past Week"@,
        TimePeriod::LastMonth => "Past Month"@,
        TimePeriod::AllTime => "All Time"@,
    }
}

/// An hour, in nanoseconds.
pub const HOUR_NANOS: i128 = 3_600_000_000_000i128;

/// The periods whose start `jiff` can compute from an instant: subtracting
/// days, weeks or months from a `jiff::Timestamp` is refused, and the
/// subtraction `Timestamp - Span` panics there.
pub open spec fn period_computable(p: TimePeriod) -> bool {
    p is LastHour || p is LastSixHours || p is AllTime
}

/// The start of the period ending at `now`; `None` for all time.
pub open spec fn period_start(p: TimePeriod, now: i128) -> Option<int> {
    match p {
        TimePeriod::LastHour => Some(now - HOUR_NANOS),
        TimePeriod::LastSixHours => Some(now - 6 * HOUR_NANOS),
        _ => None,
    }
}

impl TimePeriod {
    /// The label of the period.
    pub fn description(&self) -> (r: &'static str)
        ensures
            r@ == period_description(*self),
    {
        match self {
            TimePeriod::LastHour => "Past Hour",
            TimePeriod::LastSixHours => "Past 6 Hour",
            TimePeriod::LastDay => "Past 24 Hours",
            TimePeriod::LastWeek => "Past Week",
            TimePeriod::LastMonth => "Past Month",
            TimePeriod::AllTime => "All Time",
        }
    }

    /// The instant the period starts at, for a period ending at `now`.
    pub fn to_date(self, now: i128) -> (r: Option<i128>)
        requires
            valid_instant(now),
            period_computable(self),
            self is LastSixHours ==> valid_instant((now - 6 * HOUR_NANOS) as i128),
            self is LastHour ==> valid_instant((now - HOUR_NANOS) as i128),
        ensures
            match r {
                Some(t) => period_start(self, now) == Some(t as int),
                None => period_start(self, now) is None,
            },
    {
        match self {
            TimePeriod::LastHour => Some(now - HOUR_NANOS),
            TimePeriod::LastSixHours => Some(now - 6 * HOUR_NANOS),
            _ => None,
        }
    }
}

/// Ascending or descending.
#[derive(Debug, Copy, Clone, PartialEq, Eq, Structural)]
pub enum SortOrder {
    Asc,
    Desc,
}

impl SortOrder {
    /// The icon shown beside a sorted column header.
    pub fn icon(&self) -> (r: &'static str)
        ensures
            r@ == (match *self {
                SortOrder::Asc => "\u{E444}"@,
                SortOrder::Desc => "\u{E446}"@,
            }),
    {
        match self {
            SortOrder::Asc => "\u{E444}",
            SortOrder::Desc => "\u{E446}",
        }
    }

    /// Flips the order.
    pub fn toggle(&mut self)
        ensures
            *final(self) == match *old(self) {
                SortOrder::Asc => SortOrder::Desc,
                SortOrder::Desc => SortOrder::Asc,
            },
    {
        match self {
            SortOrder::Asc => *self = SortOrder::Desc,
            SortOrder::Desc => *self = SortOrder::Asc,
        }
    }
}

/// The column the player table is sorted by, and in which order.
#[derive(Debug, Copy, Clone, PartialEq, Eq, Structural)]
pub enum SortedBy {
    Name(SortOrder),
    Clan(SortOrder),
    LastEncountered(SortOrder),
    TimesEncountered(SortOrder),
    TimesEncounteredInTimeRange(SortOrder),
}

impl Default for SortedBy {
    fn default() -> (r: SortedBy)
        ensures
            r == SortedBy::TimesEncounteredInTimeRange(SortOrder::Desc),
    {
        SortedBy::TimesEncounteredInTimeRange(SortOrder::Desc)
    }
}

/// The same column, whatever the order.
pub open spec fn same_column(a: SortedBy, b: SortedBy) -> bool {
    match (a, b) {
        (SortedBy::Name(_), SortedBy::Name(_)) => true,
        (SortedBy::Clan(_), SortedBy::Clan(_)) => true,
        (SortedBy::LastEncountered(_), SortedBy::LastEncountered(_)) => true,
        (SortedBy::TimesEncountered(_), SortedBy::TimesEncountered(_)) => true,
        (SortedBy::TimesEncounteredInTimeRange(_), SortedBy::TimesEncounteredInTimeRange(_)) => true,
        _ => false,
    }
}

pub open spec fn flipped(o: SortOrder) -> SortOrder {
    match o {
        SortOrder::Asc => SortOrder::Desc,
        SortOrder::Desc => SortOrder::Asc,
    }
}

/// The column and order after a click on the header of column `new`: the
/// order of the sorted column flips; another column is taken as given.
pub open spec fn after_header_click(current: SortedBy, new: SortedBy) -> SortedBy {
    if same_column(current, new) {
        match current {
            SortedBy::Name(o) => SortedBy::Name(flipped(o)),
            SortedBy::Clan(o) => SortedBy::Clan(flipped(o)),
            SortedBy::LastEncountered(o) => SortedBy::LastEncountered(flipped(o)),
            SortedBy::TimesEncountered(o) => SortedBy::TimesEncountered(flipped(o)),
            SortedBy::TimesEncounteredInTimeRange(o) => SortedBy::TimesEncounteredInTimeRange(flipped(o)),
        }
    } else {
        new
    }
}

/// Clicking the header of the sorted column twice restores its order;
/// clicking another column's header sorts by that column as clicked.
pub proof fn law_header_click_twice(current: SortedBy, clicked: SortedBy)
    ensures
        same_column(current, clicked) ==> after_header_click(after_header_click(current, clicked), clicked) == current,
        !same_column(current, clicked) ==> after_header_click(current, clicked) == clicked,
{
}

impl SortedBy {
    /// Applies a click on the header of column `new`.
    pub fn transition_to(&mut self, new: SortedBy)
        ensures
            *final(self) == after_header_click(*old(self), new),
    {
        match (self, new) {
            (SortedBy::Name(sort_order), SortedBy::Name(_)) => sort_order.toggle(),
            (SortedBy::Clan(sort_order), SortedBy::Clan(_)) => sort_order.toggle(),
            (SortedBy::LastEncountered(sort_order), SortedBy::LastEncountered(_)) => sort_order.toggle(),
            (SortedBy::TimesEncountered(sort_order), SortedBy::TimesEncountered(_)) => sort_order.toggle(),
            (SortedBy::TimesEncounteredInTimeRange(sort_order), SortedBy::TimesEncounteredInTimeRange(_)) => {
                sort_order.toggle()
            },
            (old, new) => {
                *old = new;
            },
        }
    }
}

/// How often a player was met within the period, as the table colours it.
#[derive(Debug, Copy, Clone, PartialEq, Eq, Structural)]
pub enum EncounterLevel {
    /// At most once: no colour.
    Rare,
    /// Two or three times: yellow.
    Repeated,
    /// Four or five times: orange.
    Frequent,
    /// More often: light red.
    Constant,
}

/// The colour level of a number of encounters.
pub fn encounter_level(count: usize) -> (r: EncounterLevel)
    ensures
        r == if count <= 1 {
            EncounterLevel::Rare
        } else if count <= 3 {
            EncounterLevel::Repeated
        } else if count <= 5 {
            EncounterLevel::Frequent
        } else {
            EncounterLevel::Constant
        },
{
    if count <= 1 {
        EncounterLevel::Rare
    } else if count <= 3 {
        EncounterLevel::Repeated
    } else if count <= 5 {
        EncounterLevel::Frequent
    } else {
        EncounterLevel::Constant
    }
}

/// The relation of the first vehicle with this name.
pub open spec fn first_relation(vehicles: Seq<(Seq<char>, u32)>, name: Seq<char>) -> Option<u32>
    decreases vehicles.len(),
{
    if vehicles.len() == 0 {
        None
    } else if vehicles[0].0 == name {
        Some(vehicles[0].1)
    } else {
        first_relation(vehicles.drop_first(), name)
    }
}

/// The recording player: the first report player whose name's first vehicle
/// has relation 0, searching from player `i` on.
pub open spec fn self_index_from(players: Seq<PlayerView>, vehicles: Seq<(Seq<char>, u32)>, i: int) -> Option<int>
    decreases players.len() - i,
{
    if i < 0 || i >= players.len() {
        None
    } else if first_relation(vehicles, players[i].name) == Some(0u32) {
        Some(i)
    } else {
        self_index_from(players, vehicles, i + 1)
    }
}

proof fn lemma_self_index_bounds(players: Seq<PlayerView>, vehicles: Seq<(Seq<char>, u32)>, i: int)
    ensures
        self_index_from(players, vehicles, i) matches Some(k) ==> 0 <= i <= k < players.len(),
    decreases players.len() - i,
{
    if 0 <= i < players.len() && first_relation(vehicles, players[i].name) != Some(0u32) {
        lemma_self_index_bounds(players, vehicles, i + 1);
    }
}

/// Player `i` is the recording player or in the recording player's
/// division, and is not tracked.
pub open spec fn skipped(players: Seq<PlayerView>, self_index: Option<int>, i: int) -> bool {
    match self_index {
        Some(s) => i == s || (players[s].division_id > 0 && players[i].division_id == players[s].division_id),
        None => false,
    }
}

/// What the tracker knows of a player after meeting them at `ts` in battle
/// `arena`. When the player was met before some earlier instant, or never,
/// the name and clan are refreshed; a refreshed, different, non-empty name
/// joins the earlier names.
pub open spec fn tracked_after(prev: TrackedView, p: PlayerView, ts: i128, arena: i64) -> TrackedView {
    let met_before = exists|x: i128| prev.timestamps.contains(x) && x < ts;
    let refresh = met_before || prev.timestamps == Set::<i128>::empty();
    let keep_alias = met_before && !prev.names.contains(prev.last_name) && prev.last_name != p.name
        && prev.last_name.len() > 0;
    TrackedView {
        last_name: if refresh {
            p.name
        } else {
            prev.last_name
        },
        db_id: p.db_id,
        names: if keep_alias {
            prev.names.insert(prev.last_name)
        } else {
            prev.names
        },
        clan_id: p.clan_id,
        clan: if refresh {
            p.clan
        } else {
            prev.clan
        },
        timestamps: prev.timestamps.insert(ts),
        arena_ids: prev.arena_ids.insert(arena),
        notes: prev.notes,
    }
}

/// Meeting a player refreshes their name and clan from the report when the
/// meeting comes after some earlier one, or is the first; a meeting older
/// than every earlier one leaves them. Either way the meeting's instant and
/// battle are added, the ids are the report's, and the notes are kept.
pub proof fn law_meeting_refreshes_name_and_clan(prev: TrackedView, p: PlayerView, ts: i128, arena: i64)
    ensures
        ({
            let after = tracked_after(prev, p, ts, arena);
            &&& (exists|x: i128| prev.timestamps.contains(x) && x < ts) ==> after.clan == p.clan && after.last_name == p.name
            &&& prev.timestamps == Set::<i128>::empty() ==> after.clan == p.clan && after.last_name == p.name
            &&& (prev.timestamps != Set::<i128>::empty() && forall|x: i128| prev.timestamps.contains(x) ==> x >= ts)
                ==> after.clan == prev.clan && after.last_name == prev.last_name
            &&& after.timestamps == prev.timestamps.insert(ts)
            &&& after.arena_ids == prev.arena_ids.insert(arena)
            &&& after.db_id == p.db_id
            &&& after.clan_id == p.clan_id
            &&& after.notes == prev.notes
        }),
{
}

/// The tracked players and the players met at each instant after the first
/// `n` report players were taken in; a player already known from this
/// battle is passed over.
pub open spec fn tracker_after(
    players_map: Map<i64, TrackedView>,
    by_time: Map<i128, Seq<i64>>,
    players: Seq<PlayerView>,
    self_index: Option<int>,
    ts: i128,
    arena: i64,
    n: int,
) -> (Map<i64, TrackedView>, Map<i128, Seq<i64>>)
    decreases n,
{
    if n <= 0 {
        (players_map, by_time)
    } else {
        let (m, b) = tracker_after(players_map, by_time, players, self_index, ts, arena, n - 1);
        let p = players[n - 1];
        let prev = if m.contains_key(p.db_id) {
            m[p.db_id]
        } else {
            fresh_tracked()
        };
        if skipped(players, self_index, n - 1) || prev.arena_ids.contains(arena) {
            (m, b)
        } else {
            let met = if b.contains_key(ts) {
                b[ts]
            } else {
                Seq::empty()
            };
            (m.insert(p.db_id, tracked_after(prev, p, ts, arena)), b.insert(ts, met.push(p.db_id)))
        }
    }
}

/// After the first `n` report players were taken in, report player `k`,
/// one of them and not passed over, is known to have played in the battle.
proof fn lemma_tracked_in_battle(
    m: Map<i64, TrackedView>,
    b: Map<i128, Seq<i64>>,
    players: Seq<PlayerView>,
    self_index: Option<int>,
    ts: i128,
    arena: i64,
    n: int,
    k: int,
)
    requires
        0 <= k < n <= players.len(),
        !skipped(players, self_index, k),
    ensures
        tracker_after(m, b, players, self_index, ts, arena, n).0.contains_key(players[k].db_id),
        tracker_after(m, b, players, self_index, ts, arena, n).0[players[k].db_id].arena_ids.contains(arena),
    decreases n,
{
    let prior = tracker_after(m, b, players, self_index, ts, arena, n - 1);
    let now = tracker_after(m, b, players, self_index, ts, arena, n);
    let p = players[n - 1];
    let prev = if prior.0.contains_key(p.db_id) {
        prior.0[p.db_id]
    } else {
        fresh_tracked()
    };
    if k < n - 1 {
        lemma_tracked_in_battle(m, b, players, self_index, ts, arena, n - 1, k);
    }
    if skipped(players, self_index, n - 1) || prev.arena_ids.contains(arena) {
        assert(now == prior);
        if k == n - 1 && !prior.0.contains_key(p.db_id) {
            assert(!fresh_tracked().arena_ids.contains(arena));
        }
    } else {
        let t = tracked_after(prev, p, ts, arena);
        assert(now.0 == prior.0.insert(p.db_id, t));
        assert(t.arena_ids.contains(arena));
    }
}

/// Taking in report players who are all known to have played in the battle
/// changes nothing.
#[verifier::spinoff_prover]
proof fn lemma_battle_already_counted(
    m: Map<i64, TrackedView>,
    b: Map<i128, Seq<i64>>,
    players: Seq<PlayerView>,
    self_index: Option<int>,
    ts: i128,
    arena: i64,
    n: int,
)
    requires
        0 <= n <= players.len(),
        forall|k: int|
            0 <= k < n && !skipped(players, self_index, k) ==> #[trigger] m.contains_key(players[k].db_id)
                && m[players[k].db_id].arena_ids.contains(arena),
    ensures
        tracker_after(m, b, players, self_index, ts, arena, n) == (m, b),
    decreases n,
{
    if n > 0 {
        assert forall|k: int|
            0 <= k < n - 1 && !skipped(players, self_index, k) implies #[trigger] m.contains_key(players[k].db_id)
            && m[players[k].db_id].arena_ids.contains(arena) by {
            assert(0 <= k < n);
        }
        lemma_battle_already_counted(m, b, players, self_index, ts, arena, n - 1);
        if !skipped(players, self_index, n - 1) {
            assert(m.contains_key(players[n - 1].db_id));
        }
    }
}

/// A battle is counted once: taking in the same replay a second time leaves
/// the tracked players and the players met at each instant as they were.
#[verifier::spinoff_prover]
pub proof fn law_replay_counted_once(
    m: Map<i64, TrackedView>,
    b: Map<i128, Seq<i64>>,
    players: Seq<PlayerView>,
    self_index: Option<int>,
    ts: i128,
    arena: i64,
)
    ensures
        ({
            let once = tracker_after(m, b, players, self_index, ts, arena, players.len() as int);
            tracker_after(once.0, once.1, players, self_index, ts, arena, players.len() as int) == once
        }),
{
    let once = tracker_after(m, b, players, self_index, ts, arena, players.len() as int);
    assert forall|k: int|
        0 <= k < players.len() && !skipped(players, self_index, k) implies #[trigger] once.0.contains_key(players[k].db_id)
        && once.0[players[k].db_id].arena_ids.contains(arena) by {
        lemma_tracked_in_battle(m, b, players, self_index, ts, arena, players.len() as int, k);
    }
    lemma_battle_already_counted(once.0, once.1, players, self_index, ts, arena, players.len() as int);
}

/// Every report player of the battle who is taken in (not the recording
/// player or their division) and is already known to have played in battle
/// `arena` was met at `ts` and is listed among the players met then. This
/// holds before a battle is first taken in, and after it is taken in at
/// `ts`.
pub open spec fn counted_met_at(
    m: Map<i64, TrackedView>,
    b: Map<i128, Seq<i64>>,
    players: Seq<PlayerView>,
    self_index: Option<int>,
    ts: i128,
    arena: i64,
) -> bool {
    forall|k: int|
        0 <= k < players.len() && !skipped(players, self_index, k) && m.contains_key(#[trigger] players[k].db_id)
            && m[players[k].db_id].arena_ids.contains(arena) ==> m[players[k].db_id].timestamps.contains(ts)
            && b.contains_key(ts) && b[ts].contains(players[k].db_id)
}

/// While a battle is taken in, every report player taken in who is known to
/// have played in it was met at the battle's instant and is listed among
/// the players met then.
proof fn lemma_battle_met_at_instant(
    m: Map<i64, TrackedView>,
    b: Map<i128, Seq<i64>>,
    players: Seq<PlayerView>,
    self_index: Option<int>,
    ts: i128,
    arena: i64,
    n: int,
)
    requires
        n <= players.len(),
        counted_met_at(m, b, players, self_index, ts, arena),
    ensures
        ({
            let after = tracker_after(m, b, players, self_index, ts, arena, n);
            counted_met_at(after.0, after.1, players, self_index, ts, arena)
        }),
    decreases n,
{
    if n > 0 {
        lemma_battle_met_at_instant(m, b, players, self_index, ts, arena, n - 1);
        let prior = tracker_after(m, b, players, self_index, ts, arena, n - 1);
        let now = tracker_after(m, b, players, self_index, ts, arena, n);
        let p = players[n - 1];
        let prev = if prior.0.contains_key(p.db_id) {
            prior.0[p.db_id]
        } else {
            fresh_tracked()
        };
        if !(skipped(players, self_index, n - 1) || prev.arena_ids.contains(arena)) {
            let met = if prior.1.contains_key(ts) {
                prior.1[ts]
            } else {
                Seq::empty()
            };
            assert(now.1[ts] == met.push(p.db_id));
            assert(now.1[ts][met.len() as int] == p.db_id);
            assert forall|k: int|
                0 <= k < players.len() && !skipped(players, self_index, k) && now.0.contains_key(#[trigger] players[k].db_id)
                    && now.0[players[k].db_id].arena_ids.contains(arena) implies now.0[players[k].db_id].timestamps.contains(ts)
                && now.1.contains_key(ts) && now.1[ts].contains(players[k].db_id) by {
                let d = players[k].db_id;
                if d != p.db_id {
                    assert(prior.0.contains_key(d) && prior.0[d] == now.0[d]);
                    let i = choose|i: int| 0 <= i < prior.1[ts].len() && prior.1[ts][i] == d;
                    assert(now.1[ts][i] == d);
                }
            }
        }
    }
}

/// Every report player of a battle, except the recording player and their
/// division, ends up tracked as having played in the battle, met at the
/// battle's instant, and listed among the players met then; this holds
/// whenever each of them already known to have played in the battle was
/// met at that instant (in particular for a battle not counted yet).
pub proof fn law_battle_players_tracked(
    m: Map<i64, TrackedView>,
    b: Map<i128, Seq<i64>>,
    players: Seq<PlayerView>,
    self_index: Option<int>,
    ts: i128,
    arena: i64,
)
    requires
        counted_met_at(m, b, players, self_index, ts, arena),
    ensures
        ({
            let after = tracker_after(m, b, players, self_index, ts, arena, players.len() as int);
            forall|k: int|
                0 <= k < players.len() && !skipped(players, self_index, k) ==> {
                    let d = #[trigger] players[k].db_id;
                    &&& after.0.contains_key(d)
                    &&& after.0[d].arena_ids.contains(arena)
                    &&& after.0[d].timestamps.contains(ts)
                    &&& after.1.contains_key(ts)
                    &&& after.1[ts].contains(d)
                }
        }),
{
    let after = tracker_after(m, b, players, self_index, ts, arena, players.len() as int);
    lemma_battle_met_at_instant(m, b, players, self_index, ts, arena, players.len() as int);
    assert forall|k: int| 0 <= k < players.len() && !skipped(players, self_index, k) implies {
        let d = #[trigger] players[k].db_id;
        &&& after.0.contains_key(d)
        &&& after.0[d].arena_ids.contains(arena)
        &&& after.0[d].timestamps.contains(ts)
        &&& after.1.contains_key(ts)
        &&& after.1[ts].contains(d)
    } by {
        lemma_tracked_in_battle(m, b, players, self_index, ts, arena, players.len() as int, k);
    }
}

proof fn lemma_untouched_id(
    m: Map<i64, TrackedView>,
    b: Map<i128, Seq<i64>>,
    players: Seq<PlayerView>,
    self_index: Option<int>,
    ts: i128,
    arena: i64,
    n: int,
    d: i64,
)
    requires
        n <= players.len(),
        forall|k: int| 0 <= k < players.len() && #[trigger] players[k].db_id == d ==> skipped(players, self_index, k),
    ensures
        tracker_after(m, b, players, self_index, ts, arena, n).0.contains_key(d) == m.contains_key(d),
        m.contains_key(d) ==> tracker_after(m, b, players, self_index, ts, arena, n).0[d] == m[d],
    decreases n,
{
    if n > 0 {
        lemma_untouched_id(m, b, players, self_index, ts, arena, n - 1, d);
        if players[n - 1].db_id == d {
            assert(skipped(players, self_index, n - 1));
        }
    }
}

/// The recording player and the players of their division are never taken
/// in: a player id that only they carry in the report is tracked after the
/// battle exactly as before it.
pub proof fn law_recorder_and_division_not_tracked(
    m: Map<i64, TrackedView>,
    b: Map<i128, Seq<i64>>,
    players: Seq<PlayerView>,
    vehicles: Seq<(Seq<char>, u32)>,
    ts: i128,
    arena: i64,
    d: i64,
)
    requires
        forall|k: int|
            0 <= k < players.len() && #[trigger] players[k].db_id == d ==> skipped(
                players,
                self_index_from(players, vehicles, 0),
                k,
            ),
    ensures
        ({
            let after = tracker_after(
                m,
                b,
                players,
                self_index_from(players, vehicles, 0),
                ts,
                arena,
                players.len() as int,
            ).0;
            &&& after.contains_key(d) == m.contains_key(d)
            &&& m.contains_key(d) ==> after[d] == m[d]
        }),
{
    lemma_untouched_id(m, b, players, self_index_from(players, vehicles, 0), ts, arena, players.len() as int, d);
}

/// Taking in a random or ranked battle: every report player but the
/// recording player and their division ends up tracked as having played in
/// the battle at its instant and listed among the players met then; a
/// player id that only the recording player and their division carry is
/// tracked exactly as before; and taking the same battle in a second time
/// changes nothing. The first part needs that each report player taken in
/// who is already known to have played in the battle was met at its
/// instant; the other two need nothing.
pub proof fn law_update_from_replay(
    m: Map<i64, TrackedView>,
    b: Map<i128, Seq<i64>>,
    players: Seq<PlayerView>,
    vehicles: Seq<(Seq<char>, u32)>,
    ts: i128,
    arena: i64,
)
    ensures
        ({
            let si = self_index_from(players, vehicles, 0);
            let after = tracker_after(m, b, players, si, ts, arena, players.len() as int);
            &&& counted_met_at(m, b, players, si, ts, arena) ==> forall|k: int|
                0 <= k < players.len() && !skipped(players, si, k) ==> {
                    let d = #[trigger] players[k].db_id;
                    &&& after.0.contains_key(d)
                    &&& after.0[d].arena_ids.contains(arena)
                    &&& after.0[d].timestamps.contains(ts)
                    &&& after.1.contains_key(ts)
                    &&& after.1[ts].contains(d)
                }
            &&& forall|d: i64|
                (forall|k: int| 0 <= k < players.len() && #[trigger] players[k].db_id == d ==> skipped(players, si, k))
                    ==> (#[trigger] after.0.contains_key(d) == m.contains_key(d) && (m.contains_key(d) ==> after.0[d] == m[d]))
            &&& tracker_after(after.0, after.1, players, si, ts, arena, players.len() as int) == after
        }),
{
    let si = self_index_from(players, vehicles, 0);
    let after = tracker_after(m, b, players, si, ts, arena, players.len() as int);
    if counted_met_at(m, b, players, si, ts, arena) {
        law_battle_players_tracked(m, b, players, si, ts, arena);
    }
    law_replay_counted_once(m, b, players, si, ts, arena);
    assert forall|d: i64|
        (forall|k: int| 0 <= k < players.len() && #[trigger] players[k].db_id == d ==> skipped(players, si, k)) implies (
        #[trigger] after.0.contains_key(d) == m.contains_key(d) && (m.contains_key(d) ==> after.0[d] == m[d])) by {
        law_recorder_and_division_not_tracked(m, b, players, vehicles, ts, arena, d);
    }
}

/// The tracked players by id.
pub open spec fn players_map(s: Seq<TrackedPlayer>) -> Map<i64, TrackedView>
    decreases s.len(),
{
    if s.len() == 0 {
        Map::empty()
    } else {
        players_map(s.drop_last()).insert(s.last().view().db_id, s.last().view())
    }
}

/// The players met at each instant.
pub open spec fn time_map(s: Seq<(i128, Vec<i64>)>) -> Map<i128, Seq<i64>>
    decreases s.len(),
{
    if s.len() == 0 {
        Map::empty()
    } else {
        time_map(s.drop_last()).insert(s.last().0, s.last().1@)
    }
}

proof fn lemma_players_map_has(s: Seq<TrackedPlayer>, i: int)
    requires
        0 <= i < s.len(),
        forall|a: int, b: int| 0 <= a < b < s.len() ==> (#[trigger] s[a]).view().db_id != (#[trigger] s[b]).view().db_id,
    ensures
        players_map(s).contains_key(s[i].view().db_id),
        players_map(s)[s[i].view().db_id] == s[i].view(),
    decreases s.len(),
{
    if i < s.len() - 1 {
        assert(s[i].view().db_id != s[s.len() - 1].view().db_id);
        lemma_players_map_has(s.drop_last(), i);
    }
}

proof fn lemma_players_map_lacks(s: Seq<TrackedPlayer>, id: i64)
    requires
        forall|a: int| 0 <= a < s.len() ==> (#[trigger] s[a]).view().db_id != id,
    ensures
        !players_map(s).contains_key(id),
    decreases s.len(),
{
    if s.len() > 0 {
        assert(s[s.len() - 1].view().db_id != id);
        lemma_players_map_lacks(s.drop_last(), id);
    }
}

proof fn lemma_players_map_update(s: Seq<TrackedPlayer>, i: int, x: TrackedPlayer)
    requires
        0 <= i < s.len(),
        x.view().db_id == s[i].view().db_id,
        forall|a: int, b: int| 0 <= a < b < s.len() ==> (#[trigger] s[a]).view().db_id != (#[trigger] s[b]).view().db_id,
    ensures
        players_map(s.update(i, x)) == players_map(s).insert(x.view().db_id, x.view()),
    decreases s.len(),
{
    let t = s.update(i, x);
    if i == s.len() - 1 {
        assert(t.drop_last() =~= s.drop_last());
        assert forall|a: int| 0 <= a < s.drop_last().len() implies (#[trigger] s.drop_last()[a]).view().db_id
            != x.view().db_id by {
            assert(s[a].view().db_id != s[i].view().db_id);
        }
        lemma_players_map_lacks(s.drop_last(), x.view().db_id);
        assert(players_map(t) =~= players_map(s).insert(x.view().db_id, x.view()));
    } else {
        assert(t.drop_last() =~= s.drop_last().update(i, x));
        lemma_players_map_update(s.drop_last(), i, x);
        assert(s.last().view().db_id != x.view().db_id);
        assert(players_map(t) =~= players_map(s).insert(x.view().db_id, x.view()));
    }
}

proof fn lemma_time_map_has(s: Seq<(i128, Vec<i64>)>, i: int)
    requires
        0 <= i < s.len(),
        forall|a: int, b: int| 0 <= a < b < s.len() ==> (#[trigger] s[a]).0 != (#[trigger] s[b]).0,
    ensures
        time_map(s).contains_key(s[i].0),
        time_map(s)[s[i].0] == s[i].1@,
    decreases s.len(),
{
    if i < s.len() - 1 {
        assert(s[i].0 != s[s.len() - 1].0);
        lemma_time_map_has(s.drop_last(), i);
    }
}

proof fn lemma_time_map_lacks(s: Seq<(i128, Vec<i64>)>, t: i128)
    requires
        forall|a: int| 0 <= a < s.len() ==> (#[trigger] s[a]).0 != t,
    ensures
        !time_map(s).contains_key(t),
    decreases s.len(),
{
    if s.len() > 0 {
        assert(s[s.len() - 1].0 != t);
        lemma_time_map_lacks(s.drop_last(), t);
    }
}

proof fn lemma_time_map_update(s: Seq<(i128, Vec<i64>)>, i: int, x: (i128, Vec<i64>))
    requires
        0 <= i < s.len(),
        x.0 == s[i].0,
        forall|a: int, b: int| 0 <= a < b < s.len() ==> (#[trigger] s[a]).0 != (#[trigger] s[b]).0,
    ensures
        time_map(s.update(i, x)) == time_map(s).insert(x.0, x.1@),
    decreases s.len(),
{
    let t = s.update(i, x);
    if i == s.len() - 1 {
        assert(t.drop_last() =~= s.drop_last());
        assert forall|a: int| 0 <= a < s.drop_last().len() implies (#[trigger] s.drop_last()[a]).0 != x.0 by {
            assert(s[a].0 != s[i].0);
        }
        lemma_time_map_lacks(s.drop_last(), x.0);
        assert(time_map(t) =~= time_map(s).insert(x.0, x.1@));
    } else {
        assert(t.drop_last() =~= s.drop_last().update(i, x));
        lemma_time_map_update(s.drop_last(), i, x);
        assert(s.last().0 != x.0);
        assert(time_map(t) =~= time_map(s).insert(x.0, x.1@));
    }
}

/// The icon of an order.
pub open spec fn order_icon(o: SortOrder) -> Seq<char> {
    match o {
        SortOrder::Asc => "\u{E444}"@,
        SortOrder::Desc => "\u{E446}"@,
    }
}

/// The header of a column of the player table: its name, and the order's
/// icon when the table is sorted by it.
pub open spec fn spec_tracker_header(name: Seq<char>, column: SortedBy, current: SortedBy) -> Seq<char> {
    if same_column(current, column) {
        name + " "@ + order_icon(order_of(current))
    } else {
        name
    }
}

/// The header text of a column of the player table.
pub fn tracker_header_text(name: &str, column: SortedBy, current: SortedBy) -> (r: String)
    ensures
        r@ == spec_tracker_header(name@, column, current),
{
    let sorted_here = match (current, column) {
        (SortedBy::Name(_), SortedBy::Name(_)) => true,
        (SortedBy::Clan(_), SortedBy::Clan(_)) => true,
        (SortedBy::LastEncountered(_), SortedBy::LastEncountered(_)) => true,
        (SortedBy::TimesEncountered(_), SortedBy::TimesEncountered(_)) => true,
        (SortedBy::TimesEncounteredInTimeRange(_), SortedBy::TimesEncounteredInTimeRange(_)) => true,
        _ => false,
    };
    if sorted_here {
        let order = match current {
            SortedBy::Name(o) => o,
            SortedBy::Clan(o) => o,
            SortedBy::LastEncountered(o) => o,
            SortedBy::TimesEncountered(o) => o,
            SortedBy::TimesEncounteredInTimeRange(o) => o,
        };
        let spaced = concat_text(name, " ");
        concat_text(spaced.as_str(), order.icon())
    } else {
        name.to_owned()
    }
}

/// What a row of the player table shows besides the player's own fields.
#[derive(Debug)]
pub struct TrackerRow {
    /// The battles the player was met in.
    pub times_encountered: usize,
    /// The encounters in the time period: the instants after its start, or
    /// all battles for all time.
    pub times_encountered_in_range: usize,
    /// How the encounter counts are coloured.
    pub level: EncounterLevel,
    /// How long ago the player was last met, in human terms.
    pub last_encountered: String,
    /// When the player was last met ("%Y-%m-%d %H:%M:%S", UTC); empty when
    /// it cannot be rendered.
    pub last_encountered_at: String,
    /// The player's earlier names, joined by ", ".
    pub aliases: String,
}

/// The encounter colour of a count.
pub open spec fn spec_encounter_level(count: int) -> EncounterLevel {
    if count <= 1 {
        EncounterLevel::Rare
    } else if count <= 3 {
        EncounterLevel::Repeated
    } else if count <= 5 {
        EncounterLevel::Frequent
    } else {
        EncounterLevel::Constant
    }
}


/// The player tracker.
#[derive(Debug)]
pub struct PlayerTracker {
    tracked_players_by_time: Vec<(i128, Vec<i64>)>,
    tracked_players: Vec<TrackedPlayer>,
    filter_time_period: TimePeriod,
    sort_order: SortedBy,
    player_filter: String,
    live_game_players: Option<(i128, Vec<String>)>,
}

impl PlayerTracker {
    /// The tracked players by id.
    pub closed spec fn view_players(&self) -> Map<i64, TrackedView> {
        players_map(self.tracked_players@)
    }

    /// The players met at each instant.
    pub closed spec fn view_by_time(&self) -> Map<i128, Seq<i64>> {
        time_map(self.tracked_players_by_time@)
    }

    /// The tracked players, in the order they were first met.
    pub closed spec fn spec_players(&self) -> Seq<TrackedPlayer> {
        self.tracked_players@
    }

    pub closed spec fn spec_filter_time_period(&self) -> TimePeriod {
        self.filter_time_period
    }

    pub closed spec fn spec_sort_order(&self) -> SortedBy {
        self.sort_order
    }

    pub closed spec fn spec_player_filter(&self) -> Seq<char> {
        self.player_filter@
    }

    pub closed spec fn spec_live_game(&self) -> Option<(i128, Seq<Seq<char>>)> {
        match self.live_game_players {
            Some((t, names)) => Some((t, names@.map_values(|n: String| n@))),
            None => None,
        }
    }

    /// Each player is listed once, under its own id, met at least once at
    /// valid instants kept in order; each instant is listed once.
    pub closed spec fn wf(&self) -> bool {
        let ps = self.tracked_players@;
        let ts = self.tracked_players_by_time@;
        &&& forall|a: int, b: int| 0 <= a < b < ps.len() ==> (#[trigger] ps[a]).view().db_id != (#[trigger] ps[b]).view().db_id
        &&& forall|a: int| 0 <= a < ps.len() ==> (#[trigger] ps[a]).wf() && ps[a].spec_timestamps().len() > 0
        &&& forall|a: int, b: int| 0 <= a < b < ts.len() ==> (#[trigger] ts[a]).0 != (#[trigger] ts[b]).0
    }

    /// Every tracked player's battles are counted once each, and each
    /// earlier name is listed once.
    pub proof fn law_encounters_counted_once(&self)
        requires
            self.wf(),
        ensures
            forall|a: int|
                0 <= a < self.spec_players().len() ==> (#[trigger] self.spec_players()[a]).spec_arena_count()
                    == self.spec_players()[a].view().arena_ids.len() && self.spec_players()[a].spec_names().len()
                    == self.spec_players()[a].view().names.len(),
    {
        assert forall|a: int| 0 <= a < self.spec_players().len() implies (#[trigger] self.spec_players()[a]).spec_arena_count()
            == self.spec_players()[a].view().arena_ids.len() && self.spec_players()[a].spec_names().len()
            == self.spec_players()[a].view().names.len() by {
            self.spec_players()[a].law_counted_once();
        }
    }

    /// An empty tracker with the default settings.
    pub fn new() -> (r: PlayerTracker)
        ensures
            r.wf(),
            r.view_players() == Map::<i64, TrackedView>::empty(),
            r.view_by_time() == Map::<i128, Seq<i64>>::empty(),
            r.spec_filter_time_period() == TimePeriod::LastDay,
            r.spec_sort_order() == SortedBy::TimesEncounteredInTimeRange(SortOrder::Desc),
            r.spec_player_filter().len() == 0,
            r.spec_live_game() is None,
    {
        PlayerTracker {
            tracked_players_by_time: Vec::new(),
            tracked_players: Vec::new(),
            filter_time_period: TimePeriod::LastDay,
            sort_order: SortedBy::TimesEncounteredInTimeRange(SortOrder::Desc),
            player_filter: String::new(),
            live_game_players: None,
        }
    }

    /// Remembers the players of the battle now being played.
    pub fn update_from_live_arena_info(&mut self, timestamp: i128, player_names: Vec<String>)
        ensures
            final(self).spec_live_game() == Some((timestamp, player_names@.map_values(|n: String| n@))),
            final(self).view_players() == old(self).view_players(),
            final(self).view_by_time() == old(self).view_by_time(),
            old(self).wf() ==> final(self).wf(),
    {
        self.live_game_players = Some((timestamp, player_names));
    }

    /// The players of the battle now being played, with its start.
    pub fn live_game_players(&self) -> (r: &Option<(i128, Vec<String>)>)
        ensures
            match *r {
                Some((t, names)) => self.spec_live_game() == Some((t, names@.map_values(|n: String| n@))),
                None => self.spec_live_game() is None,
            },
    {
        &self.live_game_players
    }
}

/// Whether `name` is the name of a vehicle whose first entry has relation 0.
fn is_recording_player(vehicles: &Vec<(String, u32)>, name: &str) -> (r: bool)
    ensures
        r == (first_relation(vehicles@.map_values(|v: (String, u32)| (v.0@, v.1)), name@) == Some(0u32)),
{
    let ghost vs = vehicles@.map_values(|v: (String, u32)| (v.0@, v.1));
    let mut i: usize = 0;
    assert(vs.skip(0) =~= vs);
    while i < vehicles.len()
        invariant
            i <= vehicles@.len(),
            vs == vehicles@.map_values(|v: (String, u32)| (v.0@, v.1)),
            first_relation(vs, name@) == first_relation(vs.skip(i as int), name@),
        decreases vehicles@.len() - i,
    {
        assert(vs.skip(i as int)[0] == vs[i as int]);
        if same_text(vehicles[i].0.as_str(), name) {
            return vehicles[i].1 == 0;
        }
        assert(vs.skip(i as int).drop_first() =~= vs.skip(i + 1));
        i = i + 1;
    }
    assert(vs.skip(i as int).len() == 0);
    false
}

/// The index of the recording player among the report players.
fn find_self_index(players: &Vec<ArenaPlayer>, vehicles: &Vec<(String, u32)>) -> (r: Option<usize>)
    ensures
        match r {
            Some(i) => self_index_from(
                players@.map_values(|p: ArenaPlayer| player_view(p)),
                vehicles@.map_values(|v: (String, u32)| (v.0@, v.1)),
                0,
            ) == Some(i as int),
            None => self_index_from(
                players@.map_values(|p: ArenaPlayer| player_view(p)),
                vehicles@.map_values(|v: (String, u32)| (v.0@, v.1)),
                0,
            ) is None,
        },
{
    let ghost ps = players@.map_values(|p: ArenaPlayer| player_view(p));
    let ghost vs = vehicles@.map_values(|v: (String, u32)| (v.0@, v.1));
    let mut i: usize = 0;
    while i < players.len()
        invariant
            i <= players@.len(),
            ps == players@.map_values(|p: ArenaPlayer| player_view(p)),
            vs == vehicles@.map_values(|v: (String, u32)| (v.0@, v.1)),
            self_index_from(ps, vs, 0) == self_index_from(ps, vs, i as int),
        decreases players@.len() - i,
    {
        assert(ps[i as int].name == players@[i as int].name@);
        if is_recording_player(vehicles, players[i].name.as_str()) {
            return Some(i);
        }
        i = i + 1;
    }
    None
}

fn texts_contain(v: &Vec<String>, s: &str) -> (r: bool)
    ensures
        r == text_set(v@).contains(s@),
{
    let ghost tv = v@.map_values(|x: String| x@);
    let mut i: usize = 0;
    while i < v.len()
        invariant
            i <= v@.len(),
            tv == v@.map_values(|x: String| x@),
            forall|k: int| 0 <= k < i ==> tv[k] != s@,
        decreases v@.len() - i,
    {
        if same_text(v[i].as_str(), s) {
            assert(tv[i as int] == s@);
            assert(tv.contains(s@));
            return true;
        }
        i = i + 1;
    }
    assert(!tv.contains(s@));
    false
}

fn ids_contain(v: &Vec<i64>, x: i64) -> (r: bool)
    ensures
        r == v@.to_set().contains(x),
{
    let mut i: usize = 0;
    while i < v.len()
        invariant
            i <= v@.len(),
            forall|k: int| 0 <= k < i ==> v@[k] != x,
        decreases v@.len() - i,
    {
        if v[i] == x {
            assert(v@.contains(x));
            return true;
        }
        i = i + 1;
    }
    assert(!v@.contains(x));
    false
}

impl TrackedPlayer {
    /// A player never met before.
    fn fresh() -> (r: TrackedPlayer)
        ensures
            r.view() == fresh_tracked(),
            r.wf(),
    {
        let r = TrackedPlayer {
            last_name: String::new(),
            db_id: 0,
            names: Vec::new(),
            clan_id: 0,
            clan: String::new(),
            timestamps: Vec::new(),
            arena_ids: Vec::new(),
            notes: String::new(),
        };
        assert(text_set(r.names@) =~= Set::<Seq<char>>::empty());
        assert(r.timestamps@.to_set() =~= Set::<i128>::empty());
        assert(r.arena_ids@.to_set() =~= Set::<i64>::empty());
        assert(r.names@.map_values(|x: String| x@) =~= Seq::<Seq<char>>::empty());
        r
    }

    /// Records a meeting with the report player `p` at `ts` in battle
    /// `arena`.
    fn meet(&mut self, p: &ArenaPlayer, ts: i128, arena: i64)
        requires
            old(self).wf(),
            valid_instant(ts),
        ensures
            final(self).wf(),
            final(self).spec_timestamps().len() > 0,
            final(self).view() == tracked_after(old(self).view(), player_view(*p), ts, arena),
    {
        let ghost prev = self.view();
        let met_before = self.timestamps.len() > 0 && self.timestamps[0] < ts;
        proof {
            broadcast use vstd::seq_lib::group_seq_properties;

            if met_before {
                assert(self.timestamps@.contains(self.timestamps@[0]));
                assert(prev.timestamps.contains(self.timestamps@[0]));
            } else {
                assert forall|x: i128| prev.timestamps.contains(x) implies x >= ts by {
                    assert(self.timestamps@.contains(x));
                    let k = choose|k: int| 0 <= k < self.timestamps@.len() && self.timestamps@[k] == x;
                    if k > 0 {
                        assert(self.timestamps@[0] < self.timestamps@[k]);
                    }
                }
            }
            assert(met_before == exists|x: i128| prev.timestamps.contains(x) && x < ts);
            if self.timestamps@.len() > 0 {
                assert(self.timestamps@.contains(self.timestamps@[0]));
                assert(prev.timestamps.contains(self.timestamps@[0]));
                assert(prev.timestamps != Set::<i128>::empty());
            } else {
                assert(self.timestamps@.to_set() =~= Set::<i128>::empty());
            }
        }
        if met_before || self.timestamps.len() == 0 {
            let known_alias = texts_contain(&self.names, self.last_name.as_str());
            if met_before && !known_alias && !same_text(
                self.last_name.as_str(),
                p.name.as_str(),
            ) && !self.last_name.as_str().is_empty() {
                let ghost before = self.names@;
                let alias = self.last_name.clone();
                self.names.push(alias);
                proof {
                    let bv = before.map_values(|x: String| x@);
                    assert(!bv.to_set().contains(prev.last_name));
                    assert forall|i: int| 0 <= i < bv.len() implies bv[i] != prev.last_name by {
                        assert(bv.to_set().contains(bv[i]));
                    }
                    assert(self.names@.map_values(|x: String| x@) =~= bv.push(prev.last_name));
                    assert(self.names@.map_values(|x: String| x@) =~= before.map_values(|x: String| x@).push(
                        prev.last_name,
                    ));
                    assert(text_set(self.names@) =~= text_set(before).insert(prev.last_name)) by {
                        broadcast use vstd::seq_lib::group_seq_properties;
                    }
                }
            }
            self.last_name = p.name.clone();
            self.clan = p.clan.clone();
        }
        self.db_id = p.db_id;
        self.clan_id = p.clan_id;
        let mut instants: Vec<i128> = Vec::new();
        std::mem::swap(&mut instants, &mut self.timestamps);
        let ghost old_instants = instants@;
        let updated = insert_instant(instants, ts);
        self.timestamps = updated;
        proof {
            assert(self.timestamps@.to_set() =~= old_instants.to_set().insert(ts));
            assert(self.timestamps@.contains(ts));
            assert forall|k: int| 0 <= k < self.timestamps@.len() implies valid_instant(#[trigger] self.timestamps@[k]) by {
                assert(self.timestamps@.contains(self.timestamps@[k]));
                if self.timestamps@[k] != ts {
                    assert(old_instants.contains(self.timestamps@[k]));
                    let j = choose|j: int| 0 <= j < old_instants.len() && old_instants[j] == self.timestamps@[k];
                    assert(valid_instant(old_instants[j]));
                }
            }
        }
        if !ids_contain(&self.arena_ids, arena) {
            let ghost before = self.arena_ids@;
            self.arena_ids.push(arena);
            proof {
                assert forall|i: int| 0 <= i < before.len() implies before[i] != arena by {
                    assert(before.to_set().contains(before[i]));
                }
                assert(self.arena_ids@.to_set() =~= before.to_set().insert(arena)) by {
                    broadcast use vstd::seq_lib::group_seq_properties;
                }
            }
        } else {
            assert(self.arena_ids@.to_set() =~= self.arena_ids@.to_set().insert(arena));
        }
        assert(self.view() == tracked_after(prev, player_view(*p), ts, arena));
    }
}

impl PlayerTracker {
    fn player_position(&self, db_id: i64) -> (r: Option<usize>)
        ensures
            match r {
                Some(i) => i < self.tracked_players@.len() && self.tracked_players@[i as int].view().db_id == db_id,
                None => forall|a: int| 0 <= a < self.tracked_players@.len() ==> (#[trigger] self.tracked_players@[a]).view().db_id != db_id,
            },
    {
        let mut i: usize = 0;
        while i < self.tracked_players.len()
            invariant
                i <= self.tracked_players@.len(),
                forall|a: int| 0 <= a < i ==> (#[trigger] self.tracked_players@[a]).view().db_id != db_id,
            decreases self.tracked_players@.len() - i,
        {
            if self.tracked_players[i].db_id == db_id {
                return Some(i);
            }
            i = i + 1;
        }
        None
    }

    fn time_position(&self, ts: i128) -> (r: Option<usize>)
        ensures
            match r {
                Some(i) => i < self.tracked_players_by_time@.len() && self.tracked_players_by_time@[i as int].0 == ts,
                None => forall|a: int| 0 <= a < self.tracked_players_by_time@.len() ==> (#[trigger] self.tracked_players_by_time@[a]).0 != ts,
            },
    {
        let mut i: usize = 0;
        while i < self.tracked_players_by_time.len()
            invariant
                i <= self.tracked_players_by_time@.len(),
                forall|a: int| 0 <= a < i ==> (#[trigger] self.tracked_players_by_time@[a]).0 != ts,
            decreases self.tracked_players_by_time@.len() - i,
        {
            if self.tracked_players_by_time[i].0 == ts {
                return Some(i);
            }
            i = i + 1;
        }
        None
    }

    /// Notes that `db_id` was met at `ts`.
    fn note_meeting_time(&mut self, ts: i128, db_id: i64)
        requires
            old(self).wf(),
        ensures
            final(self).wf(),
            final(self).view_players() == old(self).view_players(),
            final(self).view_by_time() == old(self).view_by_time().insert(
                ts,
                (if old(self).view_by_time().contains_key(ts) {
                    old(self).view_by_time()[ts]
                } else {
                    Seq::empty()
                }).push(db_id),
            ),
            final(self).spec_filter_time_period() == old(self).spec_filter_time_period(),
            final(self).spec_sort_order() == old(self).spec_sort_order(),
            final(self).spec_player_filter() == old(self).spec_player_filter(),
            final(self).spec_live_game() == old(self).spec_live_game(),
    {
        let ghost before = self.tracked_players_by_time@;
        match self.time_position(ts) {
            Some(j) => {
                proof {
                    lemma_time_map_has(before, j as int);
                }
                let (t, mut ids) = self.tracked_players_by_time.remove(j);
                ids.push(db_id);
                self.tracked_players_by_time.insert(j, (t, ids));
                proof {
                    let after = self.tracked_players_by_time@;
                    assert(after =~= before.update(j as int, after[j as int]));
                    lemma_time_map_update(before, j as int, after[j as int]);
                    assert forall|a: int, b: int| 0 <= a < b < after.len() implies (#[trigger] after[a]).0 != (#[trigger] after[b]).0 by {
                        assert(before[a].0 != before[b].0);
                    }
                }
            },
            None => {
                proof {
                    lemma_time_map_lacks(before, ts);
                }
                let mut ids: Vec<i64> = Vec::new();
                ids.push(db_id);
                self.tracked_players_by_time.push((ts, ids));
                proof {
                    let after = self.tracked_players_by_time@;
                    assert(after.drop_last() =~= before);
                    assert(Seq::<i64>::empty().push(db_id) =~= ids@);
                    assert forall|a: int, b: int| 0 <= a < b < after.len() implies (#[trigger] after[a]).0 != (#[trigger] after[b]).0 by {
                        if b < before.len() {
                            assert(before[a].0 != before[b].0);
                        } else {
                            assert(before[a].0 != ts);
                        }
                    }
                }
            },
        }
    }

    /// Takes in the players of a parsed random or ranked battle: everyone
    /// but the recording player and their division is met at the replay's
    /// instant, once per battle.
    pub fn update_from_replay(&mut self, replay: &ReplayRecord)
        requires
            old(self).wf(),
            valid_instant(replay.timestamp),
        ensures
            final(self).wf(),
            final(self).spec_filter_time_period() == old(self).spec_filter_time_period(),
            final(self).spec_sort_order() == old(self).spec_sort_order(),
            final(self).spec_player_filter() == old(self).spec_player_filter(),
            final(self).spec_live_game() == old(self).spec_live_game(),
            match replay.report {
                Some(report) => if shares_builds(replay.game_type@) {
                    (final(self).view_players(), final(self).view_by_time()) == tracker_after(
                        old(self).view_players(),
                        old(self).view_by_time(),
                        report.players@.map_values(|p: ArenaPlayer| player_view(p)),
                        self_index_from(
                            report.players@.map_values(|p: ArenaPlayer| player_view(p)),
                            replay.vehicles@.map_values(|v: (String, u32)| (v.0@, v.1)),
                            0,
                        ),
                        replay.timestamp,
                        report.arena_id,
                        report.players@.len() as int,
                    )
                } else {
                    *final(self) == *old(self)
                },
                None => *final(self) == *old(self),
            },
    {
        let valid = same_text(replay.game_type.as_str(), "RandomBattle") || same_text(
            replay.game_type.as_str(),
            "RankedBattle",
        );
        if !valid {
            return;
        }
        let report = match &replay.report {
            Some(r) => r,
            None => {
                return;
            },
        };
        let ts = replay.timestamp;
        let arena = report.arena_id;
        let players = &report.players;
        let ghost ps = players@.map_values(|p: ArenaPlayer| player_view(p));
        let self_index = find_self_index(players, &replay.vehicles);
        let ghost si = self_index_from(ps, replay.vehicles@.map_values(|v: (String, u32)| (v.0@, v.1)), 0);
        proof {
            lemma_self_index_bounds(ps, replay.vehicles@.map_values(|v: (String, u32)| (v.0@, v.1)), 0);
        }
        let ghost m0 = self.view_players();
        let ghost b0 = self.view_by_time();
        let ghost filter0 = self.spec_filter_time_period();
        let ghost sort0 = self.spec_sort_order();
        let ghost pf0 = self.spec_player_filter();
        let ghost live0 = self.spec_live_game();
        let mut n: usize = 0;
        while n < players.len()
            invariant
                self.wf(),
                valid_instant(ts),
                ps == players@.map_values(|p: ArenaPlayer| player_view(p)),
                match self_index {
                    Some(i) => si == Some(i as int) && i < players@.len(),
                    None => si is None,
                },
                n <= players@.len(),
                (self.view_players(), self.view_by_time()) == tracker_after(m0, b0, ps, si, ts, arena, n as int),
                self.spec_filter_time_period() == filter0,
                self.spec_sort_order() == sort0,
                self.spec_player_filter() == pf0,
                self.spec_live_game() == live0,
            decreases players@.len() - n,
        {
            let p = &players[n];
            assert(ps[n as int] == player_view(*p));
            let skip = match self_index {
                Some(s) => n == s || (players[s].division_id > 0 && p.division_id == players[s].division_id),
                None => false,
            };
            proof {
                match self_index {
                    Some(s) => {
                        assert(ps[s as int] == player_view(players@[s as int]));
                    },
                    None => {},
                }
                assert(skip == skipped(ps, si, n as int));
            }
            if !skip {
                let ghost before = self.tracked_players@;
                match self.player_position(p.db_id) {
                    Some(i) => {
                        proof {
                            lemma_players_map_has(before, i as int);
                        }
                        let seen = ids_contain(&self.tracked_players[i].arena_ids, arena);
                        if !seen {
                            let mut tp = self.tracked_players.remove(i);
                            assert(tp == before[i as int]);
                            tp.meet(p, ts, arena);
                            self.tracked_players.insert(i, tp);
                            proof {
                                let after = self.tracked_players@;
                                assert(after =~= before.update(i as int, tp));
                                lemma_players_map_update(before, i as int, tp);
                                assert forall|a: int, b: int| 0 <= a < b < after.len() implies (#[trigger] after[a]).view().db_id != (#[trigger] after[b]).view().db_id by {
                                    assert(before[a].view().db_id != before[b].view().db_id);
                                }
                                assert forall|a: int| 0 <= a < after.len() implies (#[trigger] after[a]).wf() && after[a].spec_timestamps().len() > 0 by {
                                    if a != i {
                                        assert(after[a] == before[a]);
                                    }
                                }
                            }
                            self.note_meeting_time(ts, p.db_id);
                        }
                    },
                    None => {
                        proof {
                            lemma_players_map_lacks(before, p.db_id);
                        }
                        let mut tp = TrackedPlayer::fresh();
                        tp.meet(p, ts, arena);
                        self.tracked_players.push(tp);
                        proof {
                            let after = self.tracked_players@;
                            assert(after.drop_last() =~= before);
                            assert forall|a: int, b: int| 0 <= a < b < after.len() implies (#[trigger] after[a]).view().db_id != (#[trigger] after[b]).view().db_id by {
                                if b < before.len() {
                                    assert(before[a].view().db_id != before[b].view().db_id);
                                } else {
                                    assert(before[a].view().db_id != p.db_id);
                                }
                            }
                            assert forall|a: int| 0 <= a < after.len() implies (#[trigger] after[a]).wf() && after[a].spec_timestamps().len() > 0 by {
                                if a < before.len() {
                                    assert(after[a] == before[a]);
                                }
                            }
                        }
                        self.note_meeting_time(ts, p.db_id);
                    },
                }
            }
            n = n + 1;
        }
    }
}

/// Lower-cases the ASCII letters of a text, as `str::to_ascii_lowercase`
/// does.
pub open spec fn ascii_lower(s: Seq<char>) -> Seq<char> {
    s.map_values(|c: char| if 'A' <= c && c <= 'Z' { ((c as u32) + 32) as char } else { c })
}

fn lower_ascii_char(c: char) -> (r: char)
    ensures
        r == (if 'A' <= c && c <= 'Z' { ((c as u32) + 32) as char } else { c }),
{
    if 'A' <= c && c <= 'Z' {
        let b: u8 = c as u8;
        assert(b as u32 == c as u32);
        let l: u8 = b + 32;
        l as char
    } else {
        c
    }
}

/// The characters of a text with its ASCII letters lower-cased.
pub fn ascii_lowercase(s: &str) -> (r: Vec<char>)
    ensures
        r@ == ascii_lower(s@),
{
    let chars = chars_of(s);
    let mut out: Vec<char> = Vec::new();
    let mut i: usize = 0;
    while i < chars.len()
        invariant
            i <= chars@.len(),
            chars@ == s@,
            out@ == ascii_lower(s@.take(i as int)),
        decreases chars@.len() - i,
    {
        out.push(lower_ascii_char(chars[i]));
        assert(out@ =~= ascii_lower(s@.take(i + 1)));
        i = i + 1;
    }
    assert(s@.take(i as int) =~= s@);
    out
}

/// The player was met at an instant of the period (after `cutoff`, or at
/// any instant when there is none).
pub open spec fn met_in_period(by_time: Map<i128, Seq<i64>>, cutoff: Option<i128>, id: i64) -> bool {
    exists|t: i128|
        #[trigger] by_time.contains_key(t) && (match cutoff {
            Some(c) => t > c,
            None => true,
        }) && by_time[t].contains(id)
}

/// The lower-cased filter occurs in the lower-cased clan, last name, or
/// one of the earlier names.
pub open spec fn matches_filter(p: TrackedView, filter_lower: Seq<char>) -> bool {
    ||| has_substring(ascii_lower(p.clan), filter_lower)
    ||| has_substring(ascii_lower(p.last_name), filter_lower)
    ||| exists|n: Seq<char>| #[trigger] p.names.contains(n) && has_substring(ascii_lower(n), filter_lower)
}

/// The player table shows the player: met in the period, and matching the
/// filter when there is one.
pub open spec fn shown_in_table(p: TrackedView, by_time: Map<i128, Seq<i64>>, cutoff: Option<i128>, filter: Seq<char>) -> bool {
    met_in_period(by_time, cutoff, p.db_id) && (filter.len() == 0 || matches_filter(p, ascii_lower(filter)))
}

/// The text the table sorts by (names and clans), empty for number columns.
pub open spec fn row_text(p: TrackedPlayer, by: SortedBy) -> Seq<char> {
    match by {
        SortedBy::Name(_) => p.view().last_name,
        SortedBy::Clan(_) => p.view().clan,
        _ => Seq::empty(),
    }
}

/// The number the table sorts by, zero for text columns: the latest
/// meeting, the number of meetings, or the number of meetings after the
/// cutoff.
pub open spec fn row_number(p: TrackedPlayer, by: SortedBy, cutoff: Option<i128>) -> int {
    match by {
        SortedBy::LastEncountered(_) => p.spec_timestamps().last() as int,
        SortedBy::TimesEncountered(_) => p.spec_timestamps().len() as int,
        SortedBy::TimesEncounteredInTimeRange(_) => match cutoff {
            Some(c) => p.spec_timestamps().filter(|t: i128| t > c).len() as int,
            None => p.spec_timestamps().len() as int,
        },
        _ => 0,
    }
}

pub open spec fn order_of(by: SortedBy) -> SortOrder {
    match by {
        SortedBy::Name(o) => o,
        SortedBy::Clan(o) => o,
        SortedBy::LastEncountered(o) => o,
        SortedBy::TimesEncountered(o) => o,
        SortedBy::TimesEncounteredInTimeRange(o) => o,
    }
}

/// `(ta, na)` comes no later than `(tb, nb)`, text first.
pub open spec fn pair_le(ta: Seq<char>, na: int, tb: Seq<char>, nb: int) -> bool {
    lex_compare(ta, tb) < 0 || (lex_compare(ta, tb) == 0 && na <= nb)
}

/// Player `a` may come before player `b` in the table.
pub open spec fn table_before(a: TrackedPlayer, b: TrackedPlayer, by: SortedBy, cutoff: Option<i128>) -> bool {
    if order_of(by) == SortOrder::Asc {
        pair_le(row_text(a, by), row_number(a, by, cutoff), row_text(b, by), row_number(b, by, cutoff))
    } else {
        pair_le(row_text(b, by), row_number(b, by, cutoff), row_text(a, by), row_number(a, by, cutoff))
    }
}

/// The number a player is sorted by under "last encountered" is their
/// latest meeting: one of their meeting instants, and no earlier than any.
pub proof fn law_last_encountered_is_latest(p: TrackedPlayer, o: SortOrder, cutoff: Option<i128>)
    requires
        p.wf(),
        p.spec_timestamps().len() > 0,
    ensures
        p.view().timestamps.contains(row_number(p, SortedBy::LastEncountered(o), cutoff) as i128),
        forall|x: i128| #[trigger] p.view().timestamps.contains(x) ==> x <= row_number(p, SortedBy::LastEncountered(o), cutoff),
{
    let ts = p.spec_timestamps();
    assert(ts.contains(ts.last()));
    assert(p.view().timestamps == ts.to_set());
    assert forall|x: i128| #[trigger] p.view().timestamps.contains(x) implies x <= row_number(p, SortedBy::LastEncountered(o), cutoff) by {
        assert(ts.contains(x));
        let k = choose|k: int| 0 <= k < ts.len() && ts[k] == x;
        if k < ts.len() - 1 {
            assert(ts[k] < ts[ts.len() - 1]);
        }
    }
}

/// Sorted by last encounter, most recent first, a player listed before
/// another was met at least as recently: for each meeting of the later
/// player there is a meeting of the earlier one no older. Sorted oldest
/// first, the other way round.
pub proof fn law_table_by_latest_meeting(a: TrackedPlayer, b: TrackedPlayer, cutoff: Option<i128>)
    requires
        a.wf(),
        a.spec_timestamps().len() > 0,
        b.wf(),
        b.spec_timestamps().len() > 0,
    ensures
        table_before(a, b, SortedBy::LastEncountered(SortOrder::Desc), cutoff) ==> forall|x: i128|
            #[trigger] b.view().timestamps.contains(x) ==> exists|y: i128| a.view().timestamps.contains(y) && y >= x,
        table_before(a, b, SortedBy::LastEncountered(SortOrder::Asc), cutoff) ==> forall|x: i128|
            #[trigger] a.view().timestamps.contains(x) ==> exists|y: i128| b.view().timestamps.contains(y) && y >= x,
{
    crate::text::lemma_lex_equal(Seq::<char>::empty(), Seq::<char>::empty());
    law_last_encountered_is_latest(a, SortOrder::Desc, cutoff);
    law_last_encountered_is_latest(b, SortOrder::Desc, cutoff);
    law_last_encountered_is_latest(a, SortOrder::Asc, cutoff);
    law_last_encountered_is_latest(b, SortOrder::Asc, cutoff);
    let la = row_number(a, SortedBy::LastEncountered(SortOrder::Desc), cutoff);
    let lb = row_number(b, SortedBy::LastEncountered(SortOrder::Desc), cutoff);
    if table_before(a, b, SortedBy::LastEncountered(SortOrder::Desc), cutoff) {
        assert forall|x: i128| #[trigger] b.view().timestamps.contains(x) implies exists|y: i128|
            a.view().timestamps.contains(y) && y >= x by {
            assert(a.view().timestamps.contains(la as i128));
        }
    }
    if table_before(a, b, SortedBy::LastEncountered(SortOrder::Asc), cutoff) {
        assert forall|x: i128| #[trigger] a.view().timestamps.contains(x) implies exists|y: i128|
            b.view().timestamps.contains(y) && y >= x by {
            assert(b.view().timestamps.contains(lb as i128));
        }
    }
}

/// A row of the player table while it is sorted.
pub struct TableRow {
    pub index: usize,
    pub text: Vec<char>,
    pub number: i128,
    pub descending: bool,
}

proof fn lemma_pair_le_laws(ta: Seq<char>, na: int, tb: Seq<char>, nb: int, tc: Seq<char>, nc: int)
    ensures
        pair_le(ta, na, tb, nb) || pair_le(tb, nb, ta, na),
        pair_le(ta, na, tb, nb) && pair_le(tb, nb, tc, nc) ==> pair_le(ta, na, tc, nc),
{
    crate::text::lemma_lex_antisymmetric(ta, tb);
    crate::text::lemma_lex_antisymmetric(tb, tc);
    crate::text::lemma_lex_antisymmetric(ta, tc);
    crate::text::lemma_lex_equal(ta, tb);
    crate::text::lemma_lex_equal(tb, tc);
    if lex_compare(ta, tb) <= 0 && lex_compare(tb, tc) <= 0 {
        crate::text::lemma_lex_transitive(ta, tb, tc);
    }
}

impl crate::stable_sort::Ranked for TableRow {
    open spec fn precedes_or_ties(self, other: Self) -> bool {
        if self.descending != other.descending {
            !self.descending
        } else if !self.descending {
            pair_le(self.text@, self.number as int, other.text@, other.number as int)
        } else {
            pair_le(other.text@, other.number as int, self.text@, self.number as int)
        }
    }

    proof fn lemma_total(a: Self, b: Self) {
        lemma_pair_le_laws(a.text@, a.number as int, b.text@, b.number as int, b.text@, b.number as int);
    }

    proof fn lemma_transitive(a: Self, b: Self, c: Self) {
        lemma_pair_le_laws(a.text@, a.number as int, b.text@, b.number as int, c.text@, c.number as int);
        lemma_pair_le_laws(c.text@, c.number as int, b.text@, b.number as int, a.text@, a.number as int);
    }

    fn ranks_before_or_with(&self, other: &Self) -> (r: bool) {
        if self.descending != other.descending {
            !self.descending
        } else {
            let (first, second) = if !self.descending {
                (self, other)
            } else {
                (other, self)
            };
            let c = crate::text::compare_chars(&first.text, &second.text);
            c < 0 || (c == 0 && first.number <= second.number)
        }
    }
}

proof fn lemma_time_map_key(s: Seq<(i128, Vec<i64>)>, t: i128)
    requires
        time_map(s).contains_key(t),
    ensures
        exists|j: int| 0 <= j < s.len() && (#[trigger] s[j]).0 == t,
    decreases s.len(),
{
    if s.last().0 == t {
        assert(s[s.len() - 1].0 == t);
    } else {
        lemma_time_map_key(s.drop_last(), t);
        let j = choose|j: int| 0 <= j < s.drop_last().len() && (#[trigger] s.drop_last()[j]).0 == t;
        assert(s[j].0 == t);
    }
}

/// The cutoff of the table's period ending at `now`.
pub open spec fn period_cutoff(p: TimePeriod, now: i128) -> Option<i128> {
    match period_start(p, now) {
        Some(t) => Some(t as i128),
        None => None,
    }
}

/// The indices of the first `n` players that the table shows, in order.
pub open spec fn shown_indices(
    players: Seq<TrackedPlayer>,
    by_time: Map<i128, Seq<i64>>,
    cutoff: Option<i128>,
    filter: Seq<char>,
    n: int,
) -> Seq<usize>
    decreases n,
{
    if n <= 0 {
        Seq::empty()
    } else {
        let rest = shown_indices(players, by_time, cutoff, filter, n - 1);
        if shown_in_table(players[n - 1].view(), by_time, cutoff, filter) {
            rest.push((n - 1) as usize)
        } else {
            rest
        }
    }
}

fn count_after(ts: &Vec<i128>, c: i128) -> (r: usize)
    ensures
        r == ts@.filter(|t: i128| t > c).len(),
{
    let mut n: usize = 0;
    let mut i: usize = 0;
    while i < ts.len()
        invariant
            i <= ts@.len(),
            n == ts@.take(i as int).filter(|t: i128| t > c).len(),
            n <= i,
        decreases ts@.len() - i,
    {
        proof {
            reveal(Seq::filter);
            assert(ts@.take(i + 1).drop_last() =~= ts@.take(i as int));
            assert(ts@.take(i + 1).last() == ts@[i as int]);
        }
        if ts[i] > c {
            n = n + 1;
        }
        i = i + 1;
    }
    assert(ts@.take(ts@.len() as int) =~= ts@);
    n
}

impl PlayerTracker {
    fn met_in_period_exec(&self, cutoff: Option<i128>, id: i64) -> (r: bool)
        requires
            self.wf(),
        ensures
            r == met_in_period(self.view_by_time(), cutoff, id),
    {
        let ghost s = self.tracked_players_by_time@;
        let mut j: usize = 0;
        while j < self.tracked_players_by_time.len()
            invariant
                self.wf(),
                s == self.tracked_players_by_time@,
                j <= s.len(),
                forall|k: int| 0 <= k < j ==> !((match cutoff {
                    Some(c) => (#[trigger] s[k]).0 > c,
                    None => true,
                }) && s[k].1@.contains(id)),
            decreases s.len() - j,
        {
            let t = self.tracked_players_by_time[j].0;
            let in_window = match cutoff {
                Some(c) => t > c,
                None => true,
            };
            if in_window && ids_contain(&self.tracked_players_by_time[j].1, id) {
                proof {
                    lemma_time_map_has(s, j as int);
                    assert(self.view_by_time().contains_key(t));
                }
                return true;
            }
            j = j + 1;
        }
        proof {
            assert forall|t: i128| #[trigger] self.view_by_time().contains_key(t) implies !((match cutoff {
                Some(c) => t > c,
                None => true,
            }) && self.view_by_time()[t].contains(id)) by {
                lemma_time_map_key(s, t);
                let k = choose|k: int| 0 <= k < s.len() && (#[trigger] s[k]).0 == t;
                lemma_time_map_has(s, k);
            }
        }
        false
    }
}

fn matches_filter_exec(p: &TrackedPlayer, filter_lower: &Vec<char>) -> (r: bool)
    ensures
        r == matches_filter(p.view(), filter_lower@),
{
    let clan = ascii_lowercase(p.clan.as_str());
    if contains_chars(&clan, filter_lower) {
        return true;
    }
    let name = ascii_lowercase(p.last_name.as_str());
    if contains_chars(&name, filter_lower) {
        return true;
    }
    let ghost names = p.names@.map_values(|x: String| x@);
    let mut i: usize = 0;
    while i < p.names.len()
        invariant
            i <= p.names@.len(),
            names == p.names@.map_values(|x: String| x@),
            forall|k: int| 0 <= k < i ==> !has_substring(ascii_lower(#[trigger] names[k]), filter_lower@),
        decreases p.names@.len() - i,
    {
        let alias = ascii_lowercase(p.names[i].as_str());
        if contains_chars(&alias, filter_lower) {
            proof {
                assert(names[i as int] == p.names@[i as int]@);
                assert(names.contains(names[i as int]));
                assert(p.view().names.contains(names[i as int]));
            }
            return true;
        }
        i = i + 1;
    }
    proof {
        assert forall|n: Seq<char>| #[trigger] p.view().names.contains(n) implies !has_substring(ascii_lower(n), filter_lower@) by {
            assert(names.contains(n));
            let k = choose|k: int| 0 <= k < names.len() && names[k] == n;
        }
    }
    false
}

fn row_of(p: &TrackedPlayer, index: usize, by: SortedBy, cutoff: Option<i128>) -> (r: TableRow)
    requires
        p.wf(),
        p.spec_timestamps().len() > 0,
    ensures
        r.index == index,
        r.text@ == row_text(*p, by),
        r.number == row_number(*p, by, cutoff),
        r.descending == (order_of(by) == SortOrder::Desc),
{
    let descending = match by {
        SortedBy::Name(o) => o == SortOrder::Desc,
        SortedBy::Clan(o) => o == SortOrder::Desc,
        SortedBy::LastEncountered(o) => o == SortOrder::Desc,
        SortedBy::TimesEncountered(o) => o == SortOrder::Desc,
        SortedBy::TimesEncounteredInTimeRange(o) => o == SortOrder::Desc,
    };
    match by {
        SortedBy::Name(_) => TableRow { index, text: chars_of(p.last_name.as_str()), number: 0, descending },
        SortedBy::Clan(_) => TableRow { index, text: chars_of(p.clan.as_str()), number: 0, descending },
        SortedBy::LastEncountered(_) => {
            let last = p.timestamps[p.timestamps.len() - 1];
            TableRow { index, text: Vec::new(), number: last, descending }
        },
        SortedBy::TimesEncountered(_) => TableRow {
            index,
            text: Vec::new(),
            number: p.timestamps.len() as i128,
            descending,
        },
        SortedBy::TimesEncounteredInTimeRange(_) => {
            let n = match cutoff {
                Some(c) => count_after(&p.timestamps, c),
                None => p.timestamps.len(),
            };
            TableRow { index, text: Vec::new(), number: n as i128, descending }
        },
    }
}

/// The row holds the sort key of the player it stands for.
pub open spec fn row_ok(row: TableRow, players: Seq<TrackedPlayer>, by: SortedBy, cutoff: Option<i128>) -> bool {
    &&& row.index < players.len()
    &&& row.text@ == row_text(players[row.index as int], by)
    &&& row.number == row_number(players[row.index as int], by, cutoff)
    &&& row.descending == (order_of(by) == SortOrder::Desc)
}

pub open spec fn row_index(row: TableRow) -> usize {
    row.index
}

impl PlayerTracker {
    /// The tracked players, in the order they were first met.
    /// What the row of the player at `index` of the tracked players shows
    /// at `now`.
    pub fn row_cells(&self, index: usize, now: i128) -> (r: TrackerRow)
        requires
            self.wf(),
            index < self.spec_players().len(),
            valid_instant(now),
            period_computable(self.spec_filter_time_period()),
            self.spec_filter_time_period() is LastSixHours ==> valid_instant((now - 6 * HOUR_NANOS) as i128),
            self.spec_filter_time_period() is LastHour ==> valid_instant((now - HOUR_NANOS) as i128),
        ensures
            ({
                let p = self.spec_players()[index as int];
                let in_range = match period_cutoff(self.spec_filter_time_period(), now) {
                    Some(c) => p.spec_timestamps().filter(|t: i128| t > c).len() as int,
                    None => p.spec_arena_count(),
                };
                &&& r.times_encountered == p.spec_arena_count()
                &&& r.times_encountered_in_range == in_range
                &&& r.level == spec_encounter_level(in_range)
                &&& r.last_encountered@ == human_time_between(now, p.spec_timestamps().last())
                &&& r.last_encountered_at@ == match strftime_text(p.spec_timestamps().last(), "%Y-%m-%d %H:%M:%S"@) {
                    Some(t) => t,
                    None => Seq::<char>::empty(),
                }
                &&& r.aliases@ == join(views(p.spec_names()), ", "@)
            }),
    {
        let p = &self.tracked_players[index];
        proof {
            assert(p.wf() && p.spec_timestamps().len() > 0);
        }
        let cutoff = self.filter_time_period.to_date(now);
        let times_encountered = p.arena_ids.len();
        let times_encountered_in_range = match cutoff {
            Some(c) => count_after(&p.timestamps, c),
            None => times_encountered,
        };
        let last = p.timestamps[p.timestamps.len() - 1];
        proof {
            assert(valid_instant(p.timestamps@[p.timestamps@.len() - 1]));
        }
        let last_encountered = human_time_text(now, last);
        let last_encountered_at = match format_instant(last, "%Y-%m-%d %H:%M:%S") {
            Some(t) => t,
            None => String::new(),
        };
        TrackerRow {
            times_encountered,
            times_encountered_in_range,
            level: encounter_level(times_encountered_in_range),
            last_encountered,
            last_encountered_at,
            aliases: join_text(&p.names, ", "),
        }
    }

    pub fn tracked_players(&self) -> (r: &Vec<TrackedPlayer>)
        ensures
            r@ == self.spec_players(),
    {
        &self.tracked_players
    }

    pub fn filter_time_period(&self) -> (r: TimePeriod)
        ensures
            r == self.spec_filter_time_period(),
    {
        self.filter_time_period
    }

    pub fn set_filter_time_period(&mut self, period: TimePeriod)
        ensures
            final(self).spec_filter_time_period() == period,
            final(self).spec_players() == old(self).spec_players(),
            final(self).view_players() == old(self).view_players(),
            final(self).view_by_time() == old(self).view_by_time(),
            final(self).spec_sort_order() == old(self).spec_sort_order(),
            final(self).spec_player_filter() == old(self).spec_player_filter(),
            old(self).wf() ==> final(self).wf(),
    {
        self.filter_time_period = period;
    }

    pub fn sort_order(&self) -> (r: SortedBy)
        ensures
            r == self.spec_sort_order(),
    {
        self.sort_order
    }

    /// A click on the header of the column `column` sorts by.
    pub fn click_column_header(&mut self, column: SortedBy)
        ensures
            final(self).spec_sort_order() == after_header_click(old(self).spec_sort_order(), column),
            final(self).spec_players() == old(self).spec_players(),
            final(self).view_players() == old(self).view_players(),
            final(self).view_by_time() == old(self).view_by_time(),
            final(self).spec_filter_time_period() == old(self).spec_filter_time_period(),
            final(self).spec_player_filter() == old(self).spec_player_filter(),
            old(self).wf() ==> final(self).wf(),
    {
        self.sort_order.transition_to(column);
    }

    pub fn player_filter(&self) -> (r: &str)
        ensures
            r@ == self.spec_player_filter(),
    {
        self.player_filter.as_str()
    }

    pub fn set_player_filter(&mut self, filter: String)
        ensures
            final(self).spec_player_filter() == filter@,
            final(self).spec_players() == old(self).spec_players(),
            final(self).view_players() == old(self).view_players(),
            final(self).view_by_time() == old(self).view_by_time(),
            final(self).spec_filter_time_period() == old(self).spec_filter_time_period(),
            final(self).spec_sort_order() == old(self).spec_sort_order(),
            old(self).wf() ==> final(self).wf(),
    {
        self.player_filter = filter;
    }

    /// Forgets every tracked player.
    pub fn clear_stats(&mut self)
        ensures
            final(self).wf(),
            final(self).view_players() == Map::<i64, TrackedView>::empty(),
            final(self).view_by_time() == Map::<i128, Seq<i64>>::empty(),
            final(self).spec_filter_time_period() == old(self).spec_filter_time_period(),
            final(self).spec_sort_order() == old(self).spec_sort_order(),
            final(self).spec_player_filter() == old(self).spec_player_filter(),
    {
        self.tracked_players = Vec::new();
        self.tracked_players_by_time = Vec::new();
    }

    /// The players the table shows at `now`, as indices into the tracked
    /// players: those met within the selected period that match the player
    /// filter, sorted by the selected column and order.
    pub fn table_rows(&self, now: i128) -> (r: Vec<usize>)
        requires
            self.wf(),
            valid_instant(now),
            period_computable(self.spec_filter_time_period()),
            self.spec_filter_time_period() is LastSixHours ==> valid_instant((now - 6 * HOUR_NANOS) as i128),
            self.spec_filter_time_period() is LastHour ==> valid_instant((now - HOUR_NANOS) as i128),
        ensures
            r@.to_multiset() == shown_indices(
                self.spec_players(),
                self.view_by_time(),
                period_cutoff(self.spec_filter_time_period(), now),
                self.spec_player_filter(),
                self.spec_players().len() as int,
            ).to_multiset(),
            forall|i: int, j: int|
                0 <= i < j < r@.len() ==> table_before(
                    self.spec_players()[#[trigger] r@[i] as int],
                    self.spec_players()[#[trigger] r@[j] as int],
                    self.spec_sort_order(),
                    period_cutoff(self.spec_filter_time_period(), now),
                ),
            forall|i: int| 0 <= i < r@.len() ==> #[trigger] r@[i] < self.spec_players().len(),
    {
        let cutoff = self.filter_time_period.to_date(now);
        let ghost gc = period_cutoff(self.filter_time_period, now);
        assert(cutoff == gc);
        let filter_lower = ascii_lowercase(self.player_filter.as_str());
        let filter_empty = self.player_filter.as_str().is_empty();
        let ghost players = self.tracked_players@;
        let ghost bt = self.view_by_time();
        let by = self.sort_order;
        let mut rows: Vec<TableRow> = Vec::new();
        let mut i: usize = 0;
        while i < self.tracked_players.len()
            invariant
                self.wf(),
                players == self.tracked_players@,
                bt == self.view_by_time(),
                by == self.sort_order,
                filter_lower@ == ascii_lower(self.player_filter@),
                filter_empty == (self.player_filter@.len() == 0),
                i <= players.len(),
                rows@.map_values(|row: TableRow| row_index(row)) == shown_indices(players, bt, cutoff, self.player_filter@, i as int),
                forall|k: int| 0 <= k < rows@.len() ==> row_ok(#[trigger] rows@[k], players, by, cutoff),
            decreases players.len() - i,
        {
            let p = &self.tracked_players[i];
            assert(players[i as int].wf() && players[i as int].spec_timestamps().len() > 0);
            let shown = self.met_in_period_exec(cutoff, p.db_id) && (filter_empty || matches_filter_exec(p, &filter_lower));
            assert(shown == shown_in_table(players[i as int].view(), bt, cutoff, self.player_filter@));
            if shown {
                let row = row_of(p, i, by, cutoff);
                let ghost before = rows@;
                rows.push(row);
                assert(rows@.map_values(|row: TableRow| row_index(row)) =~= before.map_values(|row: TableRow| row_index(row)).push(i));
            }
            i = i + 1;
        }
        let ghost unsorted = rows@;
        let sorted = crate::stable_sort::sort_stable(rows);
        proof {
            crate::stable_sort::lemma_multiset_map(unsorted, sorted@, |row: TableRow| row_index(row));
        }
        let mut out: Vec<usize> = Vec::new();
        let mut k: usize = 0;
        while k < sorted.len()
            invariant
                k <= sorted@.len(),
                out@ == sorted@.take(k as int).map_values(|row: TableRow| row_index(row)),
            decreases sorted@.len() - k,
        {
            out.push(sorted[k].index);
            assert(out@ =~= sorted@.take(k + 1).map_values(|row: TableRow| row_index(row)));
            k = k + 1;
        }
        assert(sorted@.take(sorted@.len() as int) =~= sorted@);
        proof {
            assert forall|a: int| 0 <= a < sorted@.len() implies row_ok(#[trigger] sorted@[a], players, by, cutoff) by {
                assert(sorted@.contains(sorted@[a]));
                crate::stable_sort::lemma_reordering_contains(unsorted, sorted@, sorted@[a]);
                let b = choose|b: int| 0 <= b < unsorted.len() && unsorted[b] == sorted@[a];
            }
            assert forall|a: int, b: int| 0 <= a < b < out@.len() implies table_before(
                players[#[trigger] out@[a] as int],
                players[#[trigger] out@[b] as int],
                by,
                cutoff,
            ) by {
                assert(crate::stable_sort::Ranked::precedes_or_ties(sorted@[a], sorted@[b]));
                assert(row_ok(sorted@[a], players, by, cutoff));
                assert(row_ok(sorted@[b], players, by, cutoff));
            }
            assert forall|a: int| 0 <= a < out@.len() implies #[trigger] out@[a] < players.len() by {
                assert(row_ok(sorted@[a], players, by, cutoff));
            }
        }
        out
    }
}

} // verus!
