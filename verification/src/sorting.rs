//! Sorting of the replay player list.

use vstd::prelude::*;

use crate::models::PlayerStats;
use crate::stable_sort::{is_sorted, sort_stable, stable_reordering, Ranked};
use crate::text::{compare_text, concat_text, lex_compare};

verus! {

/// Columns which support sorting, in declaration order.
#[derive(Debug, Copy, Clone, PartialEq, Eq, Structural)]
pub enum SortColumn {
    Name,
    BaseXp,
    RawXp,
    ShipName,
    ShipClass,
    Kills,
    ObservedDamage,
    ActualDamage,
    SpottingDamage,
    PotentialDamage,
    Hits,
    TimeLived,
    Fires,
    Floods,
    Citadels,
    Crits,
    ReceivedDamage,
    DistanceTraveled,
    PersonalRating,
}

/// Sort order (ascending or descending) together with the sorted column.
#[derive(Debug, Copy, Clone, PartialEq, Eq, Structural)]
pub enum SortOrder {
    Asc(SortColumn),
    Desc(SortColumn),
}

/// All displayable columns in the replay player list, in declaration order.
#[derive(Debug, Copy, Clone, PartialEq, Eq, Structural)]
pub enum ReplayColumn {
    Actions,
    Name,
    ShipName,
    Skills,
    PersonalRating,
    BaseXp,
    RawXp,
    Kills,
    ObservedDamage,
    ActualDamage,
    ReceivedDamage,
    SpottingDamage,
    PotentialDamage,
    Hits,
    Fires,
    Floods,
    Citadels,
    Crits,
    DistanceTraveled,
    TimeLived,
}

/// The position of a column in the declaration order.
pub open spec fn column_rank(c: ReplayColumn) -> int {
    match c {
        ReplayColumn::Actions => 0,
        ReplayColumn::Name => 1,
        ReplayColumn::ShipName => 2,
        ReplayColumn::Skills => 3,
        ReplayColumn::PersonalRating => 4,
        ReplayColumn::BaseXp => 5,
        ReplayColumn::RawXp => 6,
        ReplayColumn::Kills => 7,
        ReplayColumn::ObservedDamage => 8,
        ReplayColumn::ActualDamage => 9,
        ReplayColumn::ReceivedDamage => 10,
        ReplayColumn::SpottingDamage => 11,
        ReplayColumn::PotentialDamage => 12,
        ReplayColumn::Hits => 13,
        ReplayColumn::Fires => 14,
        ReplayColumn::Floods => 15,
        ReplayColumn::Citadels => 16,
        ReplayColumn::Crits => 17,
        ReplayColumn::DistanceTraveled => 18,
        ReplayColumn::TimeLived => 19,
    }
}

/// Which optional columns the user wants to see.
#[derive(Debug, Copy, Clone)]
pub struct ColumnSettings {
    pub show_raw_xp: bool,
    pub show_observed_damage: bool,
    pub show_fires: bool,
    pub show_floods: bool,
    pub show_citadels: bool,
    pub show_crits: bool,
    pub show_received_damage: bool,
    pub show_distance_traveled: bool,
}

/// For an optional column, whether it is enabled; `None` for the columns that
/// are always kept.
pub open spec fn optional_setting(c: ReplayColumn, s: ColumnSettings) -> Option<bool> {
    match c {
        ReplayColumn::RawXp => Some(s.show_raw_xp),
        ReplayColumn::ObservedDamage => Some(s.show_observed_damage),
        ReplayColumn::Fires => Some(s.show_fires),
        ReplayColumn::Floods => Some(s.show_floods),
        ReplayColumn::Citadels => Some(s.show_citadels),
        ReplayColumn::Crits => Some(s.show_crits),
        ReplayColumn::ReceivedDamage => Some(s.show_received_damage),
        ReplayColumn::DistanceTraveled => Some(s.show_distance_traveled),
        _ => None,
    }
}

/// Whether a column is shown once the settings are applied to `current`.
pub open spec fn column_visible(c: ReplayColumn, current: Seq<ReplayColumn>, s: ColumnSettings) -> bool {
    match optional_setting(c, s) {
        Some(enabled) => enabled,
        None => current.contains(c),
    }
}

/// Applying the same column settings again shows the same columns.
pub proof fn law_visible_columns_idempotent(current: Seq<ReplayColumn>, once: Seq<ReplayColumn>, s: ColumnSettings)
    requires
        forall|c: ReplayColumn| once.contains(c) == column_visible(c, current, s),
    ensures
        forall|c: ReplayColumn| #[trigger] column_visible(c, once, s) == column_visible(c, current, s),
{
}

/// The columns of the player table: no column occurs twice.
pub struct ColumnLayout {
    pub columns: Vec<ReplayColumn>,
}

/// The columns a fresh report shows, in their initial order.
pub open spec fn initial_columns() -> Seq<ReplayColumn> {
    seq![
        ReplayColumn::Actions,
        ReplayColumn::Name,
        ReplayColumn::ShipName,
        ReplayColumn::PersonalRating,
        ReplayColumn::BaseXp,
        ReplayColumn::RawXp,
        ReplayColumn::Kills,
        ReplayColumn::ObservedDamage,
        ReplayColumn::ActualDamage,
        ReplayColumn::Hits,
        ReplayColumn::ReceivedDamage,
        ReplayColumn::PotentialDamage,
        ReplayColumn::SpottingDamage,
        ReplayColumn::TimeLived,
        ReplayColumn::Fires,
        ReplayColumn::Floods,
        ReplayColumn::Citadels,
        ReplayColumn::Crits,
        ReplayColumn::DistanceTraveled,
        ReplayColumn::Skills,
    ]
}

fn all_columns() -> (r: Vec<ReplayColumn>)
    ensures
        r@.len() == 20,
        forall|i: int| 0 <= i < 20 ==> column_rank(#[trigger] r@[i]) == i,
{
    vec![
        ReplayColumn::Actions,
        ReplayColumn::Name,
        ReplayColumn::ShipName,
        ReplayColumn::Skills,
        ReplayColumn::PersonalRating,
        ReplayColumn::BaseXp,
        ReplayColumn::RawXp,
        ReplayColumn::Kills,
        ReplayColumn::ObservedDamage,
        ReplayColumn::ActualDamage,
        ReplayColumn::ReceivedDamage,
        ReplayColumn::SpottingDamage,
        ReplayColumn::PotentialDamage,
        ReplayColumn::Hits,
        ReplayColumn::Fires,
        ReplayColumn::Floods,
        ReplayColumn::Citadels,
        ReplayColumn::Crits,
        ReplayColumn::DistanceTraveled,
        ReplayColumn::TimeLived,
    ]
}

proof fn lemma_rank_injective(a: ReplayColumn, b: ReplayColumn)
    ensures
        column_rank(a) == column_rank(b) ==> a == b,
        0 <= column_rank(a) < 20,
{
}

fn setting_for(c: ReplayColumn, s: &ColumnSettings) -> (r: Option<bool>)
    ensures
        r == optional_setting(c, *s),
{
    match c {
        ReplayColumn::RawXp => Some(s.show_raw_xp),
        ReplayColumn::ObservedDamage => Some(s.show_observed_damage),
        ReplayColumn::Fires => Some(s.show_fires),
        ReplayColumn::Floods => Some(s.show_floods),
        ReplayColumn::Citadels => Some(s.show_citadels),
        ReplayColumn::Crits => Some(s.show_crits),
        ReplayColumn::ReceivedDamage => Some(s.show_received_damage),
        ReplayColumn::DistanceTraveled => Some(s.show_distance_traveled),
        _ => None,
    }
}

fn contains_column(v: &Vec<ReplayColumn>, c: ReplayColumn) -> (r: bool)
    ensures
        r == v@.contains(c),
{
    let mut i: usize = 0;
    while i < v.len()
        invariant
            i <= v.len(),
            forall|k: int| 0 <= k < i ==> v@[k] != c,
        decreases v.len() - i,
    {
        if v[i] == c {
            return true;
        }
        i = i + 1;
    }
    false
}

impl ColumnLayout {
    pub open spec fn wf(&self) -> bool {
        self.columns@.no_duplicates()
    }

    /// The layout of a freshly built report.
    pub fn initial() -> (r: ColumnLayout)
        ensures
            r.wf(),
            r.columns@ == initial_columns(),
    {
        let columns = vec![
            ReplayColumn::Actions,
            ReplayColumn::Name,
            ReplayColumn::ShipName,
            ReplayColumn::PersonalRating,
            ReplayColumn::BaseXp,
            ReplayColumn::RawXp,
            ReplayColumn::Kills,
            ReplayColumn::ObservedDamage,
            ReplayColumn::ActualDamage,
            ReplayColumn::Hits,
            ReplayColumn::ReceivedDamage,
            ReplayColumn::PotentialDamage,
            ReplayColumn::SpottingDamage,
            ReplayColumn::TimeLived,
            ReplayColumn::Fires,
            ReplayColumn::Floods,
            ReplayColumn::Citadels,
            ReplayColumn::Crits,
            ReplayColumn::DistanceTraveled,
            ReplayColumn::Skills,
        ];
        assert(columns@ =~= initial_columns());
        assert forall|i: int, j: int|
            0 <= i < j < columns@.len() implies columns@[i] != columns@[j] by {
            assert(column_rank(columns@[i]) != column_rank(columns@[j]));
        }
        ColumnLayout { columns }
    }

    /// Applies the optional-column settings: disabled optional columns go,
    /// enabled ones come in, the others stay as they are, and the result is
    /// in declaration order.
    pub fn update_visible_columns(&mut self, settings: &ColumnSettings)
        requires
            old(self).wf(),
        ensures
            final(self).wf(),
            forall|c: ReplayColumn|
                final(self).columns@.contains(c) == column_visible(c, old(self).columns@, *settings),
            forall|i: int, j: int|
                0 <= i < j < final(self).columns@.len() ==> column_rank(
                    #[trigger] final(self).columns@[i],
                ) < column_rank(#[trigger] final(self).columns@[j]),
    {
        let all = all_columns();
        let mut result: Vec<ReplayColumn> = Vec::new();
        let mut i: usize = 0;
        while i < all.len()
            invariant
                all@.len() == 20,
                forall|k: int| 0 <= k < 20 ==> column_rank(#[trigger] all@[k]) == k,
                i <= 20,
                forall|c: ReplayColumn|
                    result@.contains(c) == (column_rank(c) < i && column_visible(
                        c,
                        self.columns@,
                        *settings,
                    )),
                forall|a: int, b: int|
                    0 <= a < b < result@.len() ==> column_rank(#[trigger] result@[a]) < column_rank(
                        #[trigger] result@[b],
                    ),
                forall|a: int| 0 <= a < result@.len() ==> column_rank(#[trigger] result@[a]) < i,
            decreases 20 - i,
        {
            let c = all[i];
            let visible = match setting_for(c, settings) {
                Some(enabled) => enabled,
                None => contains_column(&self.columns, c),
            };
            let ghost before = result@;
            if visible {
                result.push(c);
            }
            proof {
                assert forall|d: ReplayColumn|
                    result@.contains(d) == (column_rank(d) < i + 1 && column_visible(
                        d,
                        self.columns@,
                        *settings,
                    )) by {
                    lemma_rank_injective(c, d);
                    if visible && d == c {
                        assert(result@[result@.len() - 1] == c);
                    }
                    if result@.contains(d) {
                        let k = choose|k: int| 0 <= k < result@.len() && result@[k] == d;
                        if k < before.len() {
                            assert(before[k] == d);
                        }
                    }
                    if before.contains(d) {
                        let k = choose|k: int| 0 <= k < before.len() && before[k] == d;
                        assert(result@[k] == d);
                    }
                }
            }
            i = i + 1;
        }
        proof {
            assert forall|a: int, b: int|
                0 <= a < b < result@.len() implies result@[a] != result@[b] by {
                assert(column_rank(result@[a]) < column_rank(result@[b]));
            }
            assert forall|c: ReplayColumn|
                result@.contains(c) == column_visible(c, self.columns@, *settings) by {
                lemma_rank_injective(c, c);
            }
        }
        self.columns = result;
    }
}

/// The order a fresh table starts with.
pub open spec fn default_sort_order() -> SortOrder {
    SortOrder::Asc(SortColumn::ShipClass)
}

/// The column a sort order refers to.
pub open spec fn order_column(order: SortOrder) -> SortColumn {
    match order {
        SortOrder::Asc(c) => c,
        SortOrder::Desc(c) => c,
    }
}

/// One step of the header-click cycle: descending becomes ascending on the same
/// column, ascending falls back to the default order.
pub open spec fn toggled(order: SortOrder) -> SortOrder {
    match order {
        SortOrder::Asc(_) => default_sort_order(),
        SortOrder::Desc(c) => SortOrder::Asc(c),
    }
}

/// The order after the header of `column` was clicked.
pub open spec fn after_click(order: SortOrder, column: SortColumn) -> SortOrder {
    if order_column(order) == column {
        toggled(order)
    } else {
        SortOrder::Desc(column)
    }
}

/// Clicking the header of a column cycles its order: a first click sorts
/// it descending, a second ascending, and a third returns to the default
/// order.
pub proof fn law_header_click_cycle(order: SortOrder, column: SortColumn)
    requires
        order_column(order) != column,
        column != SortColumn::ShipClass,
    ensures
        after_click(order, column) == SortOrder::Desc(column),
        after_click(after_click(order, column), column) == SortOrder::Asc(column),
        after_click(after_click(after_click(order, column), column), column) == default_sort_order(),
{
}

impl Default for SortOrder {
    fn default() -> (r: Self)
        ensures
            r == default_sort_order(),
    {
        SortOrder::Asc(SortColumn::ShipClass)
    }
}

impl SortOrder {
    /// The icon shown next to a sorted column header.
    pub fn icon(&self) -> (r: &'static str)
        ensures
            r@ == (match *self {
                SortOrder::Asc(_) => "\u{E444}"@,
                SortOrder::Desc(_) => "\u{E446}"@,
            }),
    {
        match self {
            SortOrder::Asc(_) => "\u{E444}",
            SortOrder::Desc(_) => "\u{E446}",
        }
    }

    /// Advances the order one step in the click cycle.
    pub fn toggle(&mut self)
        ensures
            *final(self) == toggled(*old(self)),
    {
        match self {
            SortOrder::Asc(_) => *self = SortOrder::Asc(SortColumn::ShipClass),
            SortOrder::Desc(column) => *self = SortOrder::Asc(*column),
        }
    }

    /// Handles a click on the header of `new_column` and returns the new order.
    pub fn update_column(&mut self, new_column: SortColumn) -> (r: SortOrder)
        ensures
            *final(self) == after_click(*old(self), new_column),
            r == *final(self),
    {
        let current = self.column();
        if current == new_column {
            self.toggle();
        } else {
            *self = SortOrder::Desc(new_column);
        }
        *self
    }

    /// The column this order sorts by.
    pub fn column(&self) -> (r: SortColumn)
        ensures
            r == order_column(*self),
    {
        match self {
            SortOrder::Asc(sort_column) => *sort_column,
            SortOrder::Desc(sort_column) => *sort_column,
        }
    }
}

/// The icon of an order.
pub open spec fn order_icon(order: SortOrder) -> Seq<char> {
    match order {
        SortOrder::Asc(_) => "\u{E444}"@,
        SortOrder::Desc(_) => "\u{E446}"@,
    }
}

/// The header text of a column: its name, an info icon when the column has
/// hover details, and the order's icon when it is the sorted column.
pub open spec fn spec_column_header(text: Seq<char>, has_info: bool, order: SortOrder, column: SortColumn) -> Seq<char> {
    if order_column(order) == column {
        if has_info {
            text + " "@ + "\u{E2CE}"@ + " "@ + order_icon(order)
        } else {
            text + " "@ + order_icon(order)
        }
    } else if has_info {
        text + " "@ + "\u{E2CE}"@
    } else {
        text
    }
}

/// The header text of a column.
pub fn column_name_with_sort_order(text: &str, has_info: bool, sort_order: SortOrder, column: SortColumn) -> (r: String)
    ensures
        r@ == spec_column_header(text@, has_info, sort_order, column),
{
    if sort_order.column() == column {
        let icon = sort_order.icon();
        if has_info {
            let a = concat_text(text, " ");
            let b = concat_text(a.as_str(), "\u{E2CE}");
            let c = concat_text(b.as_str(), " ");
            concat_text(c.as_str(), icon)
        } else {
            let a = concat_text(text, " ");
            concat_text(a.as_str(), icon)
        }
    } else if has_info {
        let a = concat_text(text, " ");
        concat_text(a.as_str(), "\u{E2CE}")
    } else {
        text.to_owned()
    }
}

/// The value a player is sorted by in one column.
pub enum SortKey {
    Text(String),
    Signed(Option<i64>),
    Unsigned(Option<u64>),
    /// A floating-point column, by an integer that orders as the value does.
    Real(Option<i64>),
    /// A ship class, by its position in the game's species enumeration.
    Species(u32),
}

pub open spec fn int_compare(a: int, b: int) -> int {
    if a < b {
        -1
    } else if a > b {
        1
    } else {
        0
    }
}

/// `None` sorts before every `Some`.
pub open spec fn option_compare(a: Option<int>, b: Option<int>) -> int {
    match (a, b) {
        (None, None) => 0,
        (None, Some(_)) => -1,
        (Some(_), None) => 1,
        (Some(x), Some(y)) => int_compare(x, y),
    }
}

pub open spec fn signed_view(a: Option<i64>) -> Option<int> {
    match a {
        Some(x) => Some(x as int),
        None => None,
    }
}

pub open spec fn unsigned_view(a: Option<u64>) -> Option<int> {
    match a {
        Some(x) => Some(x as int),
        None => None,
    }
}

pub open spec fn key_tag(k: SortKey) -> int {
    match k {
        SortKey::Text(_) => 0,
        SortKey::Signed(_) => 1,
        SortKey::Unsigned(_) => 2,
        SortKey::Real(_) => 3,
        SortKey::Species(_) => 4,
    }
}

/// Three-way comparison of two keys. Keys of one column always share a
/// variant; keys of different variants are ordered by variant.
pub open spec fn key_compare(a: SortKey, b: SortKey) -> int {
    match (a, b) {
        (SortKey::Text(x), SortKey::Text(y)) => lex_compare(x@, y@),
        (SortKey::Signed(x), SortKey::Signed(y)) => option_compare(signed_view(x), signed_view(y)),
        (SortKey::Unsigned(x), SortKey::Unsigned(y)) => option_compare(
            unsigned_view(x),
            unsigned_view(y),
        ),
        (SortKey::Real(x), SortKey::Real(y)) => option_compare(signed_view(x), signed_view(y)),
        (SortKey::Species(x), SortKey::Species(y)) => int_compare(x as int, y as int),
        _ => int_compare(key_tag(a), key_tag(b)),
    }
}

proof fn lemma_key_compare_laws(a: SortKey, b: SortKey, c: SortKey)
    ensures
        key_compare(a, b) == -key_compare(b, a),
        -1 <= key_compare(a, b) <= 1,
        key_compare(a, b) <= 0 && key_compare(b, c) <= 0 ==> key_compare(a, c) <= 0,
        key_compare(a, b) <= 0 && key_compare(b, c) <= 0 && (key_compare(a, b) < 0
            || key_compare(b, c) < 0) ==> key_compare(a, c) < 0,
{
    match (a, b) {
        (SortKey::Text(x), SortKey::Text(y)) => {
            crate::text::lemma_lex_antisymmetric(x@, y@);
        },
        _ => {},
    }
    match (a, b, c) {
        (SortKey::Text(x), SortKey::Text(y), SortKey::Text(z)) => {
            if lex_compare(x@, y@) <= 0 && lex_compare(y@, z@) <= 0 {
                crate::text::lemma_lex_transitive(x@, y@, z@);
            }
        },
        _ => {},
    }
}

/// What a player row is ordered by: the sort direction, whether the player
/// is on the other team, the column key, and the player id as a tie-breaker.
pub struct RowRank {
    pub descending: bool,
    pub other_team: bool,
    pub key: SortKey,
    pub db_id: i64,
}

pub open spec fn bool_compare(a: bool, b: bool) -> int {
    if a == b {
        0
    } else if !a {
        -1
    } else {
        1
    }
}

/// Own team first; then the column key, reversed when descending; then the
/// player id.
pub open spec fn rank_compare(a: RowRank, b: RowRank) -> int {
    if a.descending != b.descending {
        bool_compare(a.descending, b.descending)
    } else if a.other_team != b.other_team {
        bool_compare(a.other_team, b.other_team)
    } else {
        let k = if a.descending {
            key_compare(b.key, a.key)
        } else {
            key_compare(a.key, b.key)
        };
        if k != 0 {
            k
        } else {
            int_compare(a.db_id as int, b.db_id as int)
        }
    }
}

proof fn lemma_rank_compare_laws(a: RowRank, b: RowRank, c: RowRank)
    ensures
        rank_compare(a, b) <= 0 || rank_compare(b, a) <= 0,
        rank_compare(a, b) <= 0 && rank_compare(b, c) <= 0 ==> rank_compare(a, c) <= 0,
{
    lemma_key_compare_laws(a.key, b.key, c.key);
    lemma_key_compare_laws(b.key, a.key, c.key);
    lemma_key_compare_laws(c.key, b.key, a.key);
    lemma_key_compare_laws(a.key, c.key, b.key);
    lemma_key_compare_laws(b.key, c.key, a.key);
    lemma_key_compare_laws(c.key, a.key, b.key);
}

/// The key of a player in a column. Hidden statistics sort as absent (or as
/// zero observed damage) unless debugging.
pub open spec fn sort_key_of(p: PlayerStats, column: SortColumn, debug: bool) -> SortKey {
    let hide = p.spec_should_hide_stats() && !debug;
    match column {
        SortColumn::Name => SortKey::Text(p.name),
        SortColumn::BaseXp => SortKey::Signed(p.base_xp),
        SortColumn::RawXp => SortKey::Signed(p.raw_xp),
        SortColumn::ShipName => SortKey::Text(p.ship_name),
        SortColumn::ShipClass => SortKey::Species(p.species),
        SortColumn::ObservedDamage => SortKey::Unsigned(
            Some(
                if hide {
                    0
                } else {
                    p.observed_damage
                },
            ),
        ),
        SortColumn::ActualDamage => SortKey::Unsigned(
            if hide {
                None
            } else {
                p.actual_damage
            },
        ),
        SortColumn::SpottingDamage => SortKey::Unsigned(p.spotting_damage),
        SortColumn::PotentialDamage => SortKey::Unsigned(
            if hide {
                None
            } else {
                p.potential_damage
            },
        ),
        SortColumn::TimeLived => SortKey::Unsigned(p.time_lived_secs),
        SortColumn::Fires => SortKey::Unsigned(
            if hide {
                None
            } else {
                p.fires
            },
        ),
        SortColumn::Floods => SortKey::Unsigned(
            if hide {
                None
            } else {
                p.floods
            },
        ),
        SortColumn::Citadels => SortKey::Unsigned(
            if hide {
                None
            } else {
                p.citadels
            },
        ),
        SortColumn::Crits => SortKey::Unsigned(
            if hide {
                None
            } else {
                p.crits
            },
        ),
        SortColumn::ReceivedDamage => SortKey::Unsigned(
            if hide {
                None
            } else {
                p.received_damage
            },
        ),
        SortColumn::DistanceTraveled => SortKey::Real(p.distance_traveled),
        SortColumn::Kills => SortKey::Signed(
            match p.kills {
                Some(k) => Some(k),
                None => Some(p.observed_kills),
            },
        ),
        SortColumn::Hits => SortKey::Unsigned(
            if hide {
                None
            } else {
                p.hits
            },
        ),
        SortColumn::PersonalRating => SortKey::Real(p.personal_rating),
    }
}

/// The rank of a player row under a sort order.
pub open spec fn rank_of(p: PlayerStats, order: SortOrder, self_team_id: i64, debug: bool) -> RowRank {
    RowRank {
        descending: order is Desc,
        other_team: p.team_id != self_team_id,
        key: sort_key_of(p, order_column(order), debug),
        db_id: p.db_id,
    }
}

/// Every column's key reads the field the column names: the experience
/// columns their experience, the name columns their names, the class its
/// species, and the damage and count columns their values (with no value,
/// or no observed damage, for a player whose statistics are hidden).
pub proof fn law_sort_keys_read_their_columns(p: PlayerStats, debug: bool)
    ensures
        sort_key_of(p, SortColumn::BaseXp, debug) == SortKey::Signed(p.base_xp),
        sort_key_of(p, SortColumn::RawXp, debug) == SortKey::Signed(p.raw_xp),
        sort_key_of(p, SortColumn::Name, debug) == SortKey::Text(p.name),
        sort_key_of(p, SortColumn::ShipName, debug) == SortKey::Text(p.ship_name),
        sort_key_of(p, SortColumn::ShipClass, debug) == SortKey::Species(p.species),
        sort_key_of(p, SortColumn::SpottingDamage, debug) == SortKey::Unsigned(p.spotting_damage),
        sort_key_of(p, SortColumn::TimeLived, debug) == SortKey::Unsigned(p.time_lived_secs),
        sort_key_of(p, SortColumn::DistanceTraveled, debug) == SortKey::Real(p.distance_traveled),
        sort_key_of(p, SortColumn::PersonalRating, debug) == SortKey::Real(p.personal_rating),
        sort_key_of(p, SortColumn::Kills, debug) == SortKey::Signed(
            Some(
                match p.kills {
                    Some(k) => k,
                    None => p.observed_kills,
                },
            ),
        ),
        !(p.spec_should_hide_stats() && !debug) ==> {
            &&& sort_key_of(p, SortColumn::ObservedDamage, debug) == SortKey::Unsigned(Some(p.observed_damage))
            &&& sort_key_of(p, SortColumn::ActualDamage, debug) == SortKey::Unsigned(p.actual_damage)
            &&& sort_key_of(p, SortColumn::PotentialDamage, debug) == SortKey::Unsigned(p.potential_damage)
            &&& sort_key_of(p, SortColumn::Fires, debug) == SortKey::Unsigned(p.fires)
            &&& sort_key_of(p, SortColumn::Floods, debug) == SortKey::Unsigned(p.floods)
            &&& sort_key_of(p, SortColumn::Citadels, debug) == SortKey::Unsigned(p.citadels)
            &&& sort_key_of(p, SortColumn::Crits, debug) == SortKey::Unsigned(p.crits)
            &&& sort_key_of(p, SortColumn::ReceivedDamage, debug) == SortKey::Unsigned(p.received_damage)
            &&& sort_key_of(p, SortColumn::Hits, debug) == SortKey::Unsigned(p.hits)
        },
        (p.spec_should_hide_stats() && !debug) ==> {
            &&& sort_key_of(p, SortColumn::ObservedDamage, debug) == SortKey::Unsigned(Some(0))
            &&& sort_key_of(p, SortColumn::ActualDamage, debug) == SortKey::Unsigned(None)
            &&& sort_key_of(p, SortColumn::PotentialDamage, debug) == SortKey::Unsigned(None)
            &&& sort_key_of(p, SortColumn::Fires, debug) == SortKey::Unsigned(None)
            &&& sort_key_of(p, SortColumn::Floods, debug) == SortKey::Unsigned(None)
            &&& sort_key_of(p, SortColumn::Citadels, debug) == SortKey::Unsigned(None)
            &&& sort_key_of(p, SortColumn::Crits, debug) == SortKey::Unsigned(None)
            &&& sort_key_of(p, SortColumn::ReceivedDamage, debug) == SortKey::Unsigned(None)
            &&& sort_key_of(p, SortColumn::Hits, debug) == SortKey::Unsigned(None)
        },
{
}

/// `a` is no smaller than `b`, where no value is smaller than any value.
pub open spec fn at_least(a: Option<i64>, b: Option<i64>) -> bool {
    match (a, b) {
        (_, None) => true,
        (None, Some(_)) => false,
        (Some(x), Some(y)) => x >= y,
    }
}

/// In the order `sort_player_stats` produces, the recording player's team
/// comes first whatever the column; and sorted by base experience,
/// highest first, a player placed before another of the same team has at
/// least as much base experience (sorted lowest first, at most as much).
pub proof fn law_player_order(p: PlayerStats, q: PlayerStats, self_team_id: i64, debug: bool, order: SortOrder)
    ensures
        p.team_id == self_team_id && q.team_id != self_team_id ==> rank_compare(
            rank_of(p, order, self_team_id, debug),
            rank_of(q, order, self_team_id, debug),
        ) < 0,
        p.team_id == q.team_id && order == SortOrder::Desc(SortColumn::BaseXp) && rank_compare(
            rank_of(p, order, self_team_id, debug),
            rank_of(q, order, self_team_id, debug),
        ) <= 0 ==> at_least(p.base_xp, q.base_xp),
        p.team_id == q.team_id && order == SortOrder::Asc(SortColumn::BaseXp) && rank_compare(
            rank_of(p, order, self_team_id, debug),
            rank_of(q, order, self_team_id, debug),
        ) <= 0 ==> at_least(q.base_xp, p.base_xp),
{
}

fn hidden_or(hide: bool, value: Option<u64>) -> (r: Option<u64>)
    ensures
        r == (if hide {
            None
        } else {
            value
        }),
{
    if hide {
        None
    } else {
        value
    }
}

/// Computes the key of a player in a column.
pub fn sort_key(p: &PlayerStats, column: SortColumn, debug: bool) -> (r: SortKey)
    ensures
        r == sort_key_of(*p, column, debug),
{
    let hide = p.should_hide_stats() && !debug;
    match column {
        SortColumn::Name => SortKey::Text(p.name.clone()),
        SortColumn::BaseXp => SortKey::Signed(p.base_xp),
        SortColumn::RawXp => SortKey::Signed(p.raw_xp),
        SortColumn::ShipName => SortKey::Text(p.ship_name.clone()),
        SortColumn::ShipClass => SortKey::Species(p.species),
        SortColumn::ObservedDamage => SortKey::Unsigned(
            Some(
                if hide {
                    0
                } else {
                    p.observed_damage
                },
            ),
        ),
        SortColumn::ActualDamage => SortKey::Unsigned(hidden_or(hide, p.actual_damage)),
        SortColumn::SpottingDamage => SortKey::Unsigned(p.spotting_damage),
        SortColumn::PotentialDamage => SortKey::Unsigned(hidden_or(hide, p.potential_damage)),
        SortColumn::TimeLived => SortKey::Unsigned(p.time_lived_secs),
        SortColumn::Fires => SortKey::Unsigned(hidden_or(hide, p.fires)),
        SortColumn::Floods => SortKey::Unsigned(hidden_or(hide, p.floods)),
        SortColumn::Citadels => SortKey::Unsigned(hidden_or(hide, p.citadels)),
        SortColumn::Crits => SortKey::Unsigned(hidden_or(hide, p.crits)),
        SortColumn::ReceivedDamage => SortKey::Unsigned(hidden_or(hide, p.received_damage)),
        SortColumn::DistanceTraveled => SortKey::Real(p.distance_traveled),
        SortColumn::Kills => SortKey::Signed(
            match p.kills {
                Some(k) => Some(k),
                None => Some(p.observed_kills),
            },
        ),
        SortColumn::Hits => SortKey::Unsigned(hidden_or(hide, p.hits)),
        SortColumn::PersonalRating => SortKey::Real(p.personal_rating),
    }
}

fn compare_i64_options(a: Option<i64>, b: Option<i64>) -> (r: i8)
    ensures
        r == option_compare(signed_view(a), signed_view(b)),
{
    match (a, b) {
        (None, None) => 0,
        (None, Some(_)) => -1,
        (Some(_), None) => 1,
        (Some(x), Some(y)) => if x < y {
            -1
        } else if x > y {
            1
        } else {
            0
        },
    }
}

fn compare_u64_options(a: Option<u64>, b: Option<u64>) -> (r: i8)
    ensures
        r == option_compare(unsigned_view(a), unsigned_view(b)),
{
    match (a, b) {
        (None, None) => 0,
        (None, Some(_)) => -1,
        (Some(_), None) => 1,
        (Some(x), Some(y)) => if x < y {
            -1
        } else if x > y {
            1
        } else {
            0
        },
    }
}

fn tag_number(k: &SortKey) -> (r: i8)
    ensures
        r == key_tag(*k),
{
    match k {
        SortKey::Text(_) => 0,
        SortKey::Signed(_) => 1,
        SortKey::Unsigned(_) => 2,
        SortKey::Real(_) => 3,
        SortKey::Species(_) => 4,
    }
}

/// Three-way comparison of two keys: -1, 0 or 1.
pub fn compare_keys(a: &SortKey, b: &SortKey) -> (r: i8)
    ensures
        r == key_compare(*a, *b),
{
    match (a, b) {
        (SortKey::Text(x), SortKey::Text(y)) => compare_text(x.as_str(), y.as_str()),
        (SortKey::Signed(x), SortKey::Signed(y)) => compare_i64_options(*x, *y),
        (SortKey::Unsigned(x), SortKey::Unsigned(y)) => compare_u64_options(*x, *y),
        (SortKey::Real(x), SortKey::Real(y)) => compare_i64_options(*x, *y),
        (SortKey::Species(x), SortKey::Species(y)) => if *x < *y {
            -1
        } else if *x > *y {
            1
        } else {
            0
        },
        _ => {
            let ta = tag_number(a);
            let tb = tag_number(b);
            if ta < tb {
                -1
            } else if ta > tb {
                1
            } else {
                0
            }
        },
    }
}

fn compare_ranks(a: &RowRank, b: &RowRank) -> (r: i8)
    ensures
        r == rank_compare(*a, *b),
{
    if a.descending != b.descending {
        if !a.descending {
            -1
        } else {
            1
        }
    } else if a.other_team != b.other_team {
        if !a.other_team {
            -1
        } else {
            1
        }
    } else {
        let k = if a.descending {
            compare_keys(&b.key, &a.key)
        } else {
            compare_keys(&a.key, &b.key)
        };
        if k != 0 {
            k
        } else if a.db_id < b.db_id {
            -1
        } else if a.db_id > b.db_id {
            1
        } else {
            0
        }
    }
}

/// A player together with its rank under the current sort order.
pub struct RankedPlayer {
    pub rank: RowRank,
    pub stats: PlayerStats,
}

impl Ranked for RankedPlayer {
    open spec fn precedes_or_ties(self, other: Self) -> bool {
        rank_compare(self.rank, other.rank) <= 0
    }

    proof fn lemma_total(a: Self, b: Self) {
        lemma_rank_compare_laws(a.rank, b.rank, b.rank);
    }

    proof fn lemma_transitive(a: Self, b: Self, c: Self) {
        lemma_rank_compare_laws(a.rank, b.rank, c.rank);
    }

    fn ranks_before_or_with(&self, other: &Self) -> (r: bool) {
        compare_ranks(&self.rank, &other.rank) <= 0
    }
}

pub open spec fn ranked_row(p: PlayerStats, order: SortOrder, self_team_id: i64, debug: bool) -> RankedPlayer {
    RankedPlayer { rank: rank_of(p, order, self_team_id, debug), stats: p }
}

pub open spec fn stats_of(r: RankedPlayer) -> PlayerStats {
    r.stats
}

/// Orders the players of a battle for display: the recording player's team
/// first, then by the sorted column (reversed when descending), then by
/// player id. The result holds exactly the given players.
pub fn sort_player_stats(
    players: Vec<PlayerStats>,
    order: SortOrder,
    self_team_id: i64,
    debug: bool,
) -> (r: Vec<PlayerStats>)
    ensures
        r@.to_multiset() == players@.to_multiset(),
        forall|i: int, j: int|
            0 <= i < j < r@.len() ==> rank_compare(
                rank_of(#[trigger] r@[i], order, self_team_id, debug),
                rank_of(#[trigger] r@[j], order, self_team_id, debug),
            ) <= 0,
{
    let column = order.column();
    let descending = match order {
        SortOrder::Asc(_) => false,
        SortOrder::Desc(_) => true,
    };
    let ghost input = players@;
    let mut rest = players;
    let mut keyed: Vec<RankedPlayer> = Vec::new();
    let n = rest.len();
    let mut k: usize = 0;
    while k < n
        invariant
            n == input.len(),
            k <= n,
            rest@ == input.skip(k as int),
            keyed@ == input.take(k as int).map_values(|p: PlayerStats| ranked_row(p, order, self_team_id, debug)),
            column == order_column(order),
            descending == (order is Desc),
        decreases n - k,
    {
        let p = rest.remove(0);
        assert(p == input[k as int]);
        assert(rest@ =~= input.skip(k + 1));
        let key = sort_key(&p, column, debug);
        let rank = RowRank { descending, other_team: p.team_id != self_team_id, key, db_id: p.db_id };
        let ghost expected = ranked_row(input[k as int], order, self_team_id, debug);
        keyed.push(RankedPlayer { rank, stats: p });
        assert(keyed@.last() == expected);
        assert(input.take(k + 1).map_values(|p: PlayerStats| ranked_row(p, order, self_team_id, debug)) =~= input.take(k as int).map_values(|p: PlayerStats| ranked_row(p, order, self_team_id, debug)).push(
            ranked_row(input[k as int], order, self_team_id, debug),
        ));
        k = k + 1;
    }
    assert(input.take(n as int) =~= input);
    let ghost keyed_input = keyed@;
    let mut sorted = sort_stable(keyed);
    let ghost sorted_seq = sorted@;
    proof {
        crate::stable_sort::lemma_multiset_map(keyed_input, sorted_seq, |r: RankedPlayer| stats_of(r));
        assert(keyed_input.map_values(|r: RankedPlayer| stats_of(r)) =~= input);
        assert forall|i: int| 0 <= i < sorted_seq.len() implies (#[trigger] sorted_seq[i]).rank == rank_of(
            sorted_seq[i].stats,
            order,
            self_team_id,
            debug,
        ) by {
            assert(sorted_seq.contains(sorted_seq[i]));
            crate::stable_sort::lemma_reordering_contains(keyed_input, sorted_seq, sorted_seq[i]);
        }
    }
    let mut out: Vec<PlayerStats> = Vec::new();
    let m = sorted.len();
    let mut j: usize = 0;
    while j < m
        invariant
            m == sorted_seq.len(),
            j <= m,
            sorted@ == sorted_seq.skip(j as int),
            out@ == sorted_seq.take(j as int).map_values(|r: RankedPlayer| stats_of(r)),
        decreases m - j,
    {
        let item = sorted.remove(0);
        assert(sorted@ =~= sorted_seq.skip(j + 1));
        out.push(item.stats);
        assert(sorted_seq.take(j + 1).map_values(|r: RankedPlayer| stats_of(r)) =~= sorted_seq.take(
            j as int,
        ).map_values(|r: RankedPlayer| stats_of(r)).push(stats_of(sorted_seq[j as int])));
        j = j + 1;
    }
    assert(sorted_seq.take(m as int) =~= sorted_seq);
    assert forall|i: int, j: int| 0 <= i < j < out@.len() implies rank_compare(
        rank_of(#[trigger] out@[i], order, self_team_id, debug),
        rank_of(#[trigger] out@[j], order, self_team_id, debug),
    ) <= 0 by {
        assert(out@[i] == sorted_seq[i].stats);
        assert(out@[j] == sorted_seq[j].stats);
        assert(sorted_seq[i].precedes_or_ties(sorted_seq[j]));
    }
    out
}

} // verus!
