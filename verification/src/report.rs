//! The computations behind the per-battle report: battle outcome, division
//! letters, skill and hit summaries, damage breakdowns and the damage each
//! pair of players dealt to one another.

use vstd::prelude::*;

use crate::models::{Damage, Hits, PlayerStats, PotentialDamage};
use crate::sorting::ReplayColumn;
use crate::text::{concat_text, decimal, decimal_text, join, join_text, pad_right, pad_text, two_digits, views};

verus! {

/// The outcome of a battle from the recording player's point of view.
#[derive(Debug, Copy, Clone, PartialEq, Eq, Structural)]
pub enum BattleResult {
    Win(i8),
    Loss(i8),
    Draw,
}

/// The outcome given the recording player's team and the winning team id
/// (negative when nobody won).
pub open spec fn spec_battle_outcome(self_team_id: i64, winning_team_id: i64) -> BattleResult {
    if winning_team_id == self_team_id {
        BattleResult::Win(self_team_id as i8)
    } else if winning_team_id >= 0 {
        BattleResult::Loss(winning_team_id as i8)
    } else {
        BattleResult::Draw
    }
}

/// Decides the outcome of a battle.
pub fn battle_outcome(self_team_id: i64, winning_team_id: i64) -> (r: BattleResult)
    ensures
        r == spec_battle_outcome(self_team_id, winning_team_id),
{
    if winning_team_id == self_team_id {
        BattleResult::Win(#[verifier::truncate] (self_team_id as i8))
    } else if winning_team_id >= 0 {
        BattleResult::Loss(#[verifier::truncate] (winning_team_id as i8))
    } else {
        BattleResult::Draw
    }
}

pub open spec fn names_target(entry: Option<String>, target: Seq<char>) -> bool {
    match entry {
        Some(n) => n@ == target,
        None => false,
    }
}

/// The first position of `target` among `names`, if any.
pub open spec fn position_of(names: Seq<Option<String>>, target: Seq<char>) -> Option<int>
    decreases names.len(),
{
    if names.len() == 0 {
        None
    } else if names_target(names[0], target) {
        Some(0)
    } else {
        match position_of(names.drop_first(), target) {
            Some(i) => Some(i + 1),
            None => None,
        }
    }
}

proof fn lemma_position_in_range(names: Seq<Option<String>>, target: Seq<char>)
    ensures
        position_of(names, target) matches Some(i) ==> 0 <= i < names.len(),
    decreases names.len(),
{
    if names.len() > 0 {
        lemma_position_in_range(names.drop_first(), target);
    }
}

/// Finds the first position of `target` among `names`.
pub fn find_name(names: &Vec<Option<String>>, target: &str) -> (r: Option<usize>)
    ensures
        match r {
            Some(k) => position_of(names@, target@) == Some(k as int),
            None => position_of(names@, target@) is None,
        },
{
    let mut i: usize = 0;
    proof {
        lemma_position_in_range(names@, target@);
    }
    assert(names@.skip(0) =~= names@);
    while i < names.len()
        invariant
            i <= names.len(),
            position_of(names@, target@) == match position_of(names@.skip(i as int), target@) {
                Some(k) => Some(k + i),
                None => None,
            },
        decreases names.len() - i,
    {
        let hit = match &names[i] {
            Some(n) => crate::text::compare_text(n.as_str(), target) == 0,
            None => false,
        };
        proof {
            match names@[i as int] {
                Some(n) => crate::text::lemma_lex_equal(n@, target@),
                None => {},
            }
            assert(names@.skip(i as int)[0] == names@[i as int]);
            assert(names@.skip(i as int).drop_first() =~= names@.skip(i + 1));
        }
        if hit {
            return Some(i);
        }
        i = i + 1;
    }
    None
}

/// The battle outcome read from the results: the position of
/// "winner_team_id" among the result names selects the winning team in the
/// common result list. `None` when a piece is missing.
pub open spec fn spec_battle_result(
    result_names: Seq<Option<String>>,
    common_list: Option<Seq<Option<i64>>>,
    self_team_id: Option<i64>,
) -> Option<BattleResult> {
    match position_of(result_names, "winner_team_id"@) {
        None => None,
        Some(idx) => match common_list {
            None => None,
            Some(list) => match self_team_id {
                None => None,
                Some(team) => if idx < list.len() {
                    match list[idx] {
                        Some(winner) => Some(spec_battle_outcome(team, winner)),
                        None => None,
                    }
                } else {
                    None
                },
            },
        },
    }
}

/// Reads the battle outcome from the battle results.
pub fn battle_result(
    result_names: &Vec<Option<String>>,
    common_list: &Option<Vec<Option<i64>>>,
    self_team_id: Option<i64>,
) -> (r: Option<BattleResult>)
    ensures
        r == spec_battle_result(
            result_names@,
            match common_list {
                Some(l) => Some(l@),
                None => None,
            },
            self_team_id,
        ),
{
    let target = "winner_team_id";
    assert(target@ == "winner_team_id"@);
    let idx = match find_name(result_names, target) {
        Some(i) => i,
        None => return None,
    };
    let list = match common_list {
        Some(l) => l,
        None => return None,
    };
    let team = match self_team_id {
        Some(t) => t,
        None => return None,
    };
    if idx < list.len() {
        match list[idx] {
            Some(winner) => Some(battle_outcome(team, winner)),
            None => None,
        }
    } else {
        None
    }
}

/// The captain-skill figures of a player: total points, number of skills,
/// highest tier and number of first-tier skills.
#[derive(Debug, Copy, Clone, PartialEq, Eq, Structural)]
pub struct SkillSummary {
    pub skill_points: usize,
    pub num_skills: usize,
    pub highest_tier: usize,
    pub num_tier_1_skills: usize,
}

pub open spec fn sum_tiers(tiers: Seq<usize>) -> int
    decreases tiers.len(),
{
    if tiers.len() == 0 {
        0
    } else {
        sum_tiers(tiers.drop_last()) + tiers.last()
    }
}

pub open spec fn max_tier(tiers: Seq<usize>) -> int
    decreases tiers.len(),
{
    if tiers.len() == 0 {
        0
    } else {
        let m = max_tier(tiers.drop_last());
        if tiers.last() > m {
            tiers.last() as int
        } else {
            m
        }
    }
}

pub open spec fn count_tier_one(tiers: Seq<usize>) -> int
    decreases tiers.len(),
{
    if tiers.len() == 0 {
        0
    } else {
        count_tier_one(tiers.drop_last()) + if tiers.last() == 1 {
            1int
        } else {
            0
        }
    }
}

proof fn lemma_sum_tiers_prefix(tiers: Seq<usize>, k: int)
    requires
        0 <= k <= tiers.len(),
    ensures
        sum_tiers(tiers.take(k)) <= sum_tiers(tiers),
        count_tier_one(tiers.take(k)) <= k,
    decreases tiers.len() - k,
{
    if k < tiers.len() {
        lemma_sum_tiers_prefix(tiers, k + 1);
        assert(tiers.take(k + 1).drop_last() =~= tiers.take(k));
    } else {
        assert(tiers.take(k) =~= tiers);
    }
    lemma_count_bound(tiers.take(k));
}

proof fn lemma_count_bound(tiers: Seq<usize>)
    ensures
        0 <= count_tier_one(tiers) <= tiers.len(),
        max_tier(tiers) >= 0,
    decreases tiers.len(),
{
    if tiers.len() > 0 {
        lemma_count_bound(tiers.drop_last());
    }
}

/// Summarises the tiers of a captain's skills; a player without captain
/// skills gets all zeros.
pub fn skill_summary(tiers: &Option<Vec<usize>>) -> (r: SkillSummary)
    requires
        tiers matches Some(t) ==> sum_tiers(t@) <= usize::MAX,
    ensures
        match tiers {
            Some(t) => r.skill_points == sum_tiers(t@) && r.num_skills == t@.len() && r.highest_tier
                == max_tier(t@) && r.num_tier_1_skills == count_tier_one(t@),
            None => r == SkillSummary {
                skill_points: 0,
                num_skills: 0,
                highest_tier: 0,
                num_tier_1_skills: 0,
            },
        },
{
    match tiers {
        None => SkillSummary { skill_points: 0, num_skills: 0, highest_tier: 0, num_tier_1_skills: 0 },
        Some(t) => {
            let mut points: usize = 0;
            let mut highest: usize = 0;
            let mut ones: usize = 0;
            let mut i: usize = 0;
            while i < t.len()
                invariant
                    i <= t.len(),
                    sum_tiers(t@) <= usize::MAX,
                    points == sum_tiers(t@.take(i as int)),
                    highest == max_tier(t@.take(i as int)),
                    ones == count_tier_one(t@.take(i as int)),
                decreases t.len() - i,
            {
                proof {
                    lemma_sum_tiers_prefix(t@, i + 1);
                    assert(t@.take(i + 1).drop_last() =~= t@.take(i as int));
                }
                points = points + t[i];
                if t[i] > highest {
                    highest = t[i];
                }
                if t[i] == 1 {
                    ones = ones + 1;
                }
                i = i + 1;
            }
            assert(t@.take(t.len() as int) =~= t@);
            SkillSummary { skill_points: points, num_skills: t.len(), highest_tier: highest, num_tier_1_skills: ones }
        },
    }
}

/// "minutes:seconds" with the seconds on two digits.
pub open spec fn spec_time_lived_text(secs: u64) -> Seq<char> {
    decimal((secs / 60) as nat) + seq![':'] + two_digits((secs % 60) as nat)
}

/// Renders the time a ship stayed alive.
pub fn time_lived_text(secs: u64) -> (r: String)
    ensures
        r@ == spec_time_lived_text(secs),
{
    let minutes = decimal_text(secs / 60);
    let rest = secs % 60;
    let seconds = if rest < 10 {
        let d = decimal_text(rest);
        concat_text("0", d.as_str())
    } else {
        decimal_text(rest)
    };
    proof {
        reveal_strlit("0");
        reveal_strlit(":");
    }
    let with_colon = concat_text(minutes.as_str(), ":");
    concat_text(with_colon.as_str(), seconds.as_str())
}

/// One row of the raw results: a statistic's key, its display name, its
/// value (if the results hold one) and the value as displayed.
pub struct BreakdownEntry {
    pub key: String,
    pub description: String,
    pub value: Option<u64>,
    pub value_text: String,
}

pub open spec fn entry_present(e: BreakdownEntry) -> bool {
    e.value matches Some(v) && v > 0
}

/// The entries with a positive value, in their order.
pub open spec fn present_entries(entries: Seq<BreakdownEntry>) -> Seq<BreakdownEntry> {
    entries.filter(|e: BreakdownEntry| entry_present(e))
}

/// The longest description among `entries`, in characters (0 if none).
pub open spec fn longest_description(entries: Seq<BreakdownEntry>) -> nat
    decreases entries.len(),
{
    if entries.len() == 0 {
        0
    } else {
        let m = longest_description(entries.drop_last());
        if entries.last().description@.len() > m {
            entries.last().description@.len()
        } else {
            m
        }
    }
}

/// The hover line of an entry: its description padded to `width`, a colon
/// and the displayed value.
pub open spec fn breakdown_line(e: BreakdownEntry, width: nat) -> Seq<char> {
    pad_right(e.description@, width) + ": "@ + e.value_text@
}

/// The statistics with a positive value, keyed, and the hover text listing
/// them one per line with the descriptions aligned.
pub struct Breakdown {
    pub values: Vec<(String, u64)>,
    pub hover_text: String,
}

pub open spec fn entry_value(e: BreakdownEntry) -> (Seq<char>, u64) {
    (e.key@, e.value->Some_0)
}

pub open spec fn breakdown_values_view(values: Seq<(String, u64)>) -> Seq<(Seq<char>, u64)> {
    values.map_values(|p: (String, u64)| (p.0@, p.1))
}

pub open spec fn spec_breakdown_lines(entries: Seq<BreakdownEntry>) -> Seq<Seq<char>> {
    let present = present_entries(entries);
    let width = longest_description(present) + 1;
    present.map_values(|e: BreakdownEntry| breakdown_line(e, width))
}

proof fn lemma_present_push(entries: Seq<BreakdownEntry>, e: BreakdownEntry)
    ensures
        present_entries(entries.push(e)) == if entry_present(e) {
            present_entries(entries).push(e)
        } else {
            present_entries(entries)
        },
{
    entries.lemma_filter_push(e, |x: BreakdownEntry| entry_present(x));
}

/// Collects the positive statistics and renders their aligned breakdown.
pub fn breakdown(entries: &Vec<BreakdownEntry>) -> (r: Breakdown)
    requires
        longest_description(present_entries(entries@)) < usize::MAX,
    ensures
        breakdown_values_view(r.values@) == present_entries(entries@).map_values(
            |e: BreakdownEntry| entry_value(e),
        ),
        r.hover_text@ == join(spec_breakdown_lines(entries@), "\n"@),
{
    let mut longest: usize = 0;
    let mut values: Vec<(String, u64)> = Vec::new();
    let mut present: Vec<usize> = Vec::new();
    let mut i: usize = 0;
    while i < entries.len()
        invariant
            i <= entries.len(),
            longest_description(present_entries(entries@)) < usize::MAX,
            longest == longest_description(present_entries(entries@.take(i as int))),
            breakdown_values_view(values@) == present_entries(entries@.take(i as int)).map_values(
                |e: BreakdownEntry| entry_value(e),
            ),
            present@.len() == present_entries(entries@.take(i as int)).len(),
            forall|k: int|
                0 <= k < present@.len() ==> #[trigger] present@[k] < entries@.len() && entries@[present@[k] as int]
                    == present_entries(entries@.take(i as int))[k],
        decreases entries.len() - i,
    {
        proof {
            assert(entries@.take(i + 1) =~= entries@.take(i as int).push(entries@[i as int]));
            lemma_present_push(entries@.take(i as int), entries@[i as int]);
            lemma_longest_prefix(entries@, i + 1);
        }
        let e = &entries[i];
        match e.value {
            Some(v) => {
                if v > 0 {
                    let n = e.description.as_str().unicode_len();
                    if n > longest {
                        longest = n;
                    }
                    let ghost old_values = values@;
                    let key = e.key.clone();
                    values.push((key, v));
                    present.push(i);
                    proof {
                        let old_present = present_entries(entries@.take(i as int));
                        let new_present = old_present.push(entries@[i as int]);
                        let f = |e: BreakdownEntry| entry_value(e);
                        let g = |p: (String, u64)| (p.0@, p.1);
                        assert(values@ == old_values.push((key, v)));
                        assert(old_values.push((key, v)).map_values(g) =~= old_values.map_values(g).push(
                            g((key, v)),
                        ));
                        assert(new_present.map_values(f) =~= old_present.map_values(f).push(
                            f(entries@[i as int]),
                        ));
                        assert(g((key, v)) == f(entries@[i as int]));
                        assert(new_present.drop_last() =~= old_present);
                        assert(new_present.last() == entries@[i as int]);
                    }
                }
            },
            None => {},
        }
        i = i + 1;
    }
    assert(entries@.take(entries.len() as int) =~= entries@);
    let width = longest + 1;
    let mut lines: Vec<String> = Vec::new();
    let mut k: usize = 0;
    let ghost present_seq = present_entries(entries@);
    while k < present.len()
        invariant
            k <= present@.len(),
            present@.len() == present_seq.len(),
            present_seq == present_entries(entries@),
            forall|j: int|
                0 <= j < present@.len() ==> #[trigger] present@[j] < entries@.len() && entries@[present@[j] as int]
                    == present_seq[j],
            width == longest_description(present_seq) + 1,
            views(lines@) == present_seq.take(k as int).map_values(
                |e: BreakdownEntry| breakdown_line(e, width as nat),
            ),
        decreases present@.len() - k,
    {
        let e = &entries[present[k]];
        let padded = pad_text(e.description.as_str(), width);
        let with_colon = concat_text(padded.as_str(), ": ");
        let line = concat_text(with_colon.as_str(), e.value_text.as_str());
        let ghost old_lines = lines@;
        proof {
            reveal_strlit(": ");
            assert(line@ == breakdown_line(present_seq[k as int], width as nat));
        }
        lines.push(line);
        proof {
            let f = |e: BreakdownEntry| breakdown_line(e, width as nat);
            assert(present_seq.take(k + 1) =~= present_seq.take(k as int).push(present_seq[k as int]));
            assert(present_seq.take(k as int).push(present_seq[k as int]).map_values(f)
                =~= present_seq.take(k as int).map_values(f).push(f(present_seq[k as int])));
            assert(views(old_lines.push(line)) =~= views(old_lines).push(line@));
        }
        k = k + 1;
    }
    assert(present_seq.take(present@.len() as int) =~= present_seq);
    let hover_text = join_text(&lines, "\n");
    Breakdown { values, hover_text }
}

/// The value stored under `key` once the pairs are inserted in order into a
/// map: the last pair with that key wins.
pub open spec fn lookup(values: Seq<(Seq<char>, u64)>, key: Seq<char>) -> Option<u64>
    decreases values.len(),
{
    if values.len() == 0 {
        None
    } else if values.last().0 == key {
        Some(values.last().1)
    } else {
        lookup(values.drop_last(), key)
    }
}

/// The sum of the values of that map.
pub open spec fn map_total(values: Seq<(Seq<char>, u64)>) -> int
    decreases values.len(),
{
    if values.len() == 0 {
        0
    } else {
        let rest = values.drop_last();
        let previous = match lookup(rest, values.last().0) {
            Some(v) => v as int,
            None => 0,
        };
        map_total(rest) - previous + values.last().1
    }
}

pub open spec fn lookup_or_zero(values: Seq<(Seq<char>, u64)>, key: Seq<char>) -> int {
    match lookup(values, key) {
        Some(v) => v as int,
        None => 0,
    }
}

/// The pairs whose key is not `key`.
pub open spec fn without_key(values: Seq<(Seq<char>, u64)>, key: Seq<char>) -> Seq<(Seq<char>, u64)> {
    values.filter(other_key(key))
}

pub open spec fn other_key(key: Seq<char>) -> spec_fn((Seq<char>, u64)) -> bool {
    |q: (Seq<char>, u64)| q.0 != key
}

proof fn lemma_without_push(values: Seq<(Seq<char>, u64)>, p: (Seq<char>, u64), key: Seq<char>)
    ensures
        without_key(values.push(p), key) == if p.0 != key {
            without_key(values, key).push(p)
        } else {
            without_key(values, key)
        },
{
    values.lemma_filter_push(p, other_key(key));
}

proof fn lemma_lookup_without(values: Seq<(Seq<char>, u64)>, key: Seq<char>, other: Seq<char>)
    ensures
        lookup(without_key(values, key), other) == if key == other {
            None
        } else {
            lookup(values, other)
        },
        without_key(values, key).len() <= values.len(),
    decreases values.len(),
{
    if values.len() > 0 {
        let rest = values.drop_last();
        assert(values =~= rest.push(values.last()));
        lemma_without_push(rest, values.last(), key);
        lemma_lookup_without(rest, key, other);
        if values.last().0 != key {
            assert(without_key(rest, key).push(values.last()).drop_last() =~= without_key(rest, key));
        }
        lemma_without_len(rest, key);
    } else {
        assert(without_key(values, key) =~= values);
    }
}

/// The total splits into the value under `key` and the total of the rest.
proof fn lemma_total_split(values: Seq<(Seq<char>, u64)>, key: Seq<char>)
    ensures
        map_total(values) == map_total(without_key(values, key)) + lookup_or_zero(values, key),
        0 <= map_total(values) <= values.len() * 0xffff_ffff_ffff_ffff,
    decreases values.len(), 1int,
{
    if values.len() == 0 {
        assert(without_key(values, key) =~= values);
    } else {
        let rest = values.drop_last();
        let p = values.last();
        assert(values =~= rest.push(p));
        lemma_without_push(rest, p, key);
        lemma_total_split(rest, key);
        lemma_total_split(rest, p.0);
        lemma_lookup_without(rest, p.0, p.0);
        lemma_total_bounds(without_key(rest, p.0));
        if p.0 != key {
            lemma_lookup_without(rest, key, p.0);
            let w = without_key(rest, key);
            assert(w.push(p).drop_last() =~= w);
        }
    }
}

proof fn lemma_total_bounds(values: Seq<(Seq<char>, u64)>)
    ensures
        0 <= map_total(values) <= values.len() * 0xffff_ffff_ffff_ffff,
    decreases values.len(), 0int,
{
    if values.len() > 0 {
        let rest = values.drop_last();
        let p = values.last();
        lemma_total_split(rest, p.0);
        assert(without_key(rest, p.0).len() <= rest.len()) by {
            if rest.len() > 0 {
                lemma_without_len(rest, p.0);
            }
        }
        lemma_total_split(without_key(rest, p.0), p.0);
    }
}

proof fn lemma_without_len(values: Seq<(Seq<char>, u64)>, key: Seq<char>)
    ensures
        without_key(values, key).len() <= values.len(),
{
    values.lemma_filter_len(other_key(key));
}

/// Looks a statistic up by key; the last pair with the key wins.
pub fn lookup_value(values: &Vec<(String, u64)>, key: &str) -> (r: Option<u64>)
    ensures
        r == lookup(breakdown_values_view(values@), key@),
{
    let ghost view = breakdown_values_view(values@);
    let mut i = values.len();
    assert(view.take(i as int) =~= view);
    while i > 0
        invariant
            i <= values.len(),
            view == breakdown_values_view(values@),
            lookup(view, key@) == lookup(view.take(i as int), key@),
        decreases i,
    {
        let same = crate::text::compare_text(values[i - 1].0.as_str(), key) == 0;
        proof {
            crate::text::lemma_lex_equal(values@[i - 1].0@, key@);
            assert(view.take(i as int).drop_last() =~= view.take(i - 1));
            assert(view.take(i as int).last() == view[i - 1]);
        }
        if same {
            return Some(values[i - 1].1);
        }
        i = i - 1;
    }
    None
}

/// Sums the statistics, counting each key once with its last value.
pub fn total_value(values: &Vec<(String, u64)>) -> (r: u64)
    requires
        map_total(breakdown_values_view(values@)) <= u64::MAX,
    ensures
        r == map_total(breakdown_values_view(values@)),
{
    let ghost view = breakdown_values_view(values@);
    let mut acc: u128 = 0;
    let mut i: usize = 0;
    let mut prefix: Vec<(String, u64)> = Vec::new();
    while i < values.len()
        invariant
            i <= values.len(),
            view == breakdown_values_view(values@),
            breakdown_values_view(prefix@) == view.take(i as int),
            acc == map_total(view.take(i as int)),
        decreases values.len() - i,
    {
        let previous = lookup_value(&prefix, values[i].0.as_str());
        proof {
            lemma_total_split(view.take(i as int), view[i as int].0);
            lemma_total_bounds(without_key(view.take(i as int), view[i as int].0));
            lemma_total_bounds(view.take(i as int));
            lemma_total_bounds(view.take(i + 1));
            assert(view.take(i + 1).drop_last() =~= view.take(i as int));
            assert(i + 1 <= values@.len());
        }
        let prev: u128 = match previous {
            Some(v) => v as u128,
            None => 0,
        };
        let next_total = acc - prev + values[i].1 as u128;
        let ghost old_prefix = prefix@;
        let key = values[i].0.clone();
        prefix.push((key, values[i].1));
        proof {
            let g = |p: (String, u64)| (p.0@, p.1);
            assert(old_prefix.push((key, values@[i as int].1)).map_values(g) =~= old_prefix.map_values(g).push(
                g((key, values@[i as int].1)),
            ));
            assert(view.take(i + 1) =~= view.take(i as int).push(view[i as int]));
        }
        acc = next_total;
        i = i + 1;
    }
    assert(view.take(values.len() as int) =~= view);
    acc as u64
}

/// The damage report read off the collected statistics.
pub open spec fn spec_damage_report(v: Seq<(Seq<char>, u64)>) -> Damage {
    Damage {
        ap: lookup(v, "damage_main_ap"@),
        sap: lookup(v, "damage_main_cs"@),
        he: lookup(v, "damage_main_he"@),
        he_secondaries: lookup(v, "damage_atba_he"@),
        sap_secondaries: lookup(v, "damage_atba_cs"@),
        torps: lookup(v, "damage_tpd_normal"@),
        deep_water_torps: lookup(v, "damage_tpd_deep"@),
        fire: lookup(v, "damage_fire"@),
        flooding: lookup(v, "damage_flood"@),
    }
}

/// Builds the damage report from the collected statistics.
pub fn damage_report(values: &Vec<(String, u64)>) -> (r: Damage)
    ensures
        r == spec_damage_report(breakdown_values_view(values@)),
{
    Damage {
        ap: lookup_value(values, "damage_main_ap"),
        sap: lookup_value(values, "damage_main_cs"),
        he: lookup_value(values, "damage_main_he"),
        he_secondaries: lookup_value(values, "damage_atba_he"),
        sap_secondaries: lookup_value(values, "damage_atba_cs"),
        torps: lookup_value(values, "damage_tpd_normal"),
        deep_water_torps: lookup_value(values, "damage_tpd_deep"),
        fire: lookup_value(values, "damage_fire"),
        flooding: lookup_value(values, "damage_flood"),
    }
}

/// The hit report read off the collected statistics.
pub open spec fn spec_hits_report(v: Seq<(Seq<char>, u64)>) -> Hits {
    Hits {
        ap: lookup(v, "hits_main_ap"@),
        sap: lookup(v, "hits_main_cs"@),
        he: lookup(v, "hits_main_he"@),
        he_secondaries: lookup(v, "hits_atba_he"@),
        sap_secondaries: lookup(v, "hits_atba_cs"@),
        torps: lookup(v, "hits_tpd"@),
    }
}

/// Builds the hit report from the collected statistics.
pub fn hits_report(values: &Vec<(String, u64)>) -> (r: Hits)
    ensures
        r == spec_hits_report(breakdown_values_view(values@)),
{
    Hits {
        ap: lookup_value(values, "hits_main_ap"),
        sap: lookup_value(values, "hits_main_cs"),
        he: lookup_value(values, "hits_main_he"),
        he_secondaries: lookup_value(values, "hits_atba_he"),
        sap_secondaries: lookup_value(values, "hits_atba_cs"),
        torps: lookup_value(values, "hits_tpd"),
    }
}

/// The potential damage report read off the collected statistics; absent
/// sources count as zero.
pub open spec fn spec_potential_report(v: Seq<(Seq<char>, u64)>) -> PotentialDamage {
    PotentialDamage {
        artillery: lookup_or_zero(v, "agro_art"@) as u64,
        torpedoes: lookup_or_zero(v, "agro_tpd"@) as u64,
        planes: lookup_or_zero(v, "agro_air"@) as u64,
    }
}

fn value_or_zero(values: &Vec<(String, u64)>, key: &str) -> (r: u64)
    ensures
        r == lookup_or_zero(breakdown_values_view(values@), key@),
{
    match lookup_value(values, key) {
        Some(v) => v,
        None => 0,
    }
}

/// Builds the potential damage report from the collected statistics.
pub fn potential_report(values: &Vec<(String, u64)>) -> (r: PotentialDamage)
    ensures
        r == spec_potential_report(breakdown_values_view(values@)),
{
    PotentialDamage {
        artillery: value_or_zero(values, "agro_art"),
        torpedoes: value_or_zero(values, "agro_tpd"),
        planes: value_or_zero(values, "agro_air"),
    }
}

/// Main battery hits: HE, SAP and AP shells.
pub open spec fn main_battery_hits(v: Seq<(Seq<char>, u64)>) -> int {
    lookup_or_zero(v, "hits_main_he"@) + lookup_or_zero(v, "hits_main_cs"@) + lookup_or_zero(v, "hits_main_ap"@)
}

/// Aircraft hits: rockets and skip bombs, air support included.
pub open spec fn plane_hits(v: Seq<(Seq<char>, u64)>) -> int {
    lookup_or_zero(v, "hits_rocket"@) + lookup_or_zero(v, "hits_rocket_airsupport"@) + lookup_or_zero(
        v,
        "hits_skip"@,
    ) + lookup_or_zero(v, "hits_skip_alt"@) + lookup_or_zero(v, "hits_skip_airsupport"@)
}

/// The hit count shown for a player: aircraft hits for a carrier, main
/// battery hits for every other ship.
pub fn relevant_hits(values: &Vec<(String, u64)>, is_carrier: bool) -> (r: u64)
    requires
        plane_hits(breakdown_values_view(values@)) <= u64::MAX,
        main_battery_hits(breakdown_values_view(values@)) <= u64::MAX,
    ensures
        r == if is_carrier {
            plane_hits(breakdown_values_view(values@))
        } else {
            main_battery_hits(breakdown_values_view(values@))
        },
{
    let he = value_or_zero(values, "hits_main_he");
    let cs = value_or_zero(values, "hits_main_cs");
    let ap = value_or_zero(values, "hits_main_ap");
    let rocket = value_or_zero(values, "hits_rocket");
    let rocket_air = value_or_zero(values, "hits_rocket_airsupport");
    let skip = value_or_zero(values, "hits_skip");
    let skip_alt = value_or_zero(values, "hits_skip_alt");
    let skip_air = value_or_zero(values, "hits_skip_airsupport");
    if is_carrier {
        rocket + rocket_air + skip + skip_alt + skip_air
    } else {
        he + cs + ap
    }
}

/// The positive division ids among the first `n` players, each once, in
/// the order they first appear.
pub open spec fn division_order(divs: Seq<u32>, n: int) -> Seq<u32>
    decreases n,
{
    if n <= 0 {
        Seq::empty()
    } else {
        let prev = division_order(divs, n - 1);
        if divs[n - 1] > 0 && !prev.contains(divs[n - 1]) {
            prev.push(divs[n - 1])
        } else {
            prev
        }
    }
}

/// The letter of the `k`-th division: A to Z, then '?'.
pub open spec fn division_letter(k: int) -> char {
    if 0 <= k < 26 {
        (65 + k) as char
    } else {
        '?'
    }
}

/// The division letter of player `i`, if the player is in a division.
pub open spec fn division_label_of(divs: Seq<u32>, i: int) -> Option<char> {
    if divs[i] == 0 {
        None
    } else {
        Some(division_letter(division_order(divs, divs.len() as int).index_of(divs[i])))
    }
}

proof fn lemma_division_order(divs: Seq<u32>, n: int, m: int)
    requires
        0 <= n <= m <= divs.len(),
    ensures
        division_order(divs, n).no_duplicates(),
        division_order(divs, m).len() >= division_order(divs, n).len(),
        division_order(divs, m).take(division_order(divs, n).len() as int) == division_order(divs, n),
        forall|k: int| 0 <= k < n && divs[k] > 0 ==> division_order(divs, n).contains(#[trigger] divs[k]),
    decreases m,
{
    if n < m {
        lemma_division_order(divs, n, m - 1);
        lemma_division_order(divs, m - 1, m - 1);
        let prev = division_order(divs, m - 1);
        if divs[m - 1] > 0 && !prev.contains(divs[m - 1]) {
            assert(prev.push(divs[m - 1]).take(prev.len() as int) =~= prev);
            assert(prev.push(divs[m - 1]).take(division_order(divs, n).len() as int) =~= prev.take(
                division_order(divs, n).len() as int,
            ));
        }
    } else if n > 0 {
        lemma_division_order(divs, n - 1, n - 1);
        let prev = division_order(divs, n - 1);
        assert(division_order(divs, n).take(division_order(divs, n).len() as int) =~= division_order(divs, n));
        assert forall|k: int| 0 <= k < n && divs[k] > 0 implies division_order(divs, n).contains(
            #[trigger] divs[k],
        ) by {
            if k < n - 1 {
                assert(prev.contains(divs[k]));
                if divs[n - 1] > 0 && !prev.contains(divs[n - 1]) {
                    let j = choose|j: int| 0 <= j < prev.len() && prev[j] == divs[k];
                    assert(prev.push(divs[n - 1])[j] == divs[k]);
                }
            } else {
                if !prev.contains(divs[n - 1]) {
                    assert(prev.push(divs[n - 1])[prev.len() as int] == divs[n - 1]);
                }
            }
        }
    } else {
        assert(division_order(divs, 0).take(0) =~= division_order(divs, 0));
    }
}

fn letter_for(k: usize) -> (c: char)
    ensures
        c == division_letter(k as int),
{
    let letters = ['A', 'B', 'C', 'D', 'E', 'F', 'G', 'H', 'I', 'J', 'K', 'L', 'M', 'N', 'O', 'P', 'Q', 'R', 'S', 'T', 'U', 'V', 'W', 'X', 'Y', 'Z'];
    if k < 26 {
        letters[k]
    } else {
        '?'
    }
}

/// Assigns each player in a division the letter of that division: letters go
/// out in the order divisions first appear, A to Z and then '?'.
pub fn division_labels(divs: &Vec<u32>) -> (r: Vec<Option<char>>)
    ensures
        r@.len() == divs@.len(),
        forall|i: int| 0 <= i < divs@.len() ==> #[trigger] r@[i] == division_label_of(divs@, i),
{
    let mut assigned: Vec<u32> = Vec::new();
    let mut labels: Vec<Option<char>> = Vec::new();
    let n = divs.len();
    let mut i: usize = 0;
    while i < n
        invariant
            n == divs@.len(),
            i <= n,
            assigned@ == division_order(divs@, i as int),
            labels@.len() == i,
            forall|k: int|
                0 <= k < i ==> #[trigger] labels@[k] == (if divs@[k] == 0 {
                    None
                } else {
                    Some(division_letter(division_order(divs@, i as int).index_of(divs@[k])))
                }),
        decreases n - i,
    {
        let d = divs[i];
        let ghost mut slot: int = 0;
        proof {
            lemma_division_order(divs@, i as int, i + 1);
            lemma_division_order(divs@, i as int, i as int);
        }
        if d == 0 {
            labels.push(None);
        } else {
            let mut j: usize = 0;
            while j < assigned.len() && assigned[j] != d
                invariant
                    j <= assigned.len(),
                    forall|k: int| 0 <= k < j ==> assigned@[k] != d,
                decreases assigned.len() - j,
            {
                j = j + 1;
            }
            if j == assigned.len() {
                assigned.push(d);
            }
            proof {
                slot = j as int;
            }
            labels.push(Some(letter_for(j)));
        }
        proof {
            let prev = division_order(divs@, i as int);
            let next = division_order(divs@, i + 1);
            assert(next.take(prev.len() as int) == prev);
            assert forall|k: int| 0 <= k < i + 1 implies #[trigger] labels@[k] == (if divs@[k] == 0 {
                None
            } else {
                Some(division_letter(next.index_of(divs@[k])))
            }) by {
                if divs@[k] != 0 {
                    lemma_division_order(divs@, i + 1, i + 1);
                    if k < i {
                        lemma_index_of_prefix(prev, next, divs@[k]);
                    } else {
                        if slot < prev.len() {
                            assert(prev[slot] == d);
                            assert(next[slot] == d);
                            lemma_index_unique(next, slot, d);
                        } else {
                            assert(next[slot] == d);
                            lemma_index_unique(next, slot, d);
                        }
                    }
                }
            }
        }
        i = i + 1;
    }
    proof {
        assert forall|k: int| 0 <= k < n implies #[trigger] labels@[k] == division_label_of(divs@, k) by {}
    }
    labels
}

proof fn lemma_index_unique(s: Seq<u32>, j: int, d: u32)
    requires
        s.no_duplicates(),
        0 <= j < s.len(),
        s[j] == d,
    ensures
        s.index_of(d) == j,
{
    assert(s.contains(d));
    let i = s.index_of(d);
    assert(s[i] == d);
}

proof fn lemma_index_of_prefix(prefix: Seq<u32>, whole: Seq<u32>, d: u32)
    requires
        prefix.contains(d),
        whole.len() >= prefix.len(),
        whole.take(prefix.len() as int) == prefix,
        whole.no_duplicates(),
    ensures
        whole.index_of(d) == prefix.index_of(d),
{
    let j = prefix.index_of(d);
    assert(prefix[j] == d);
    assert(whole[j] == prefix[j]);
    lemma_index_unique(whole, j, d);
}

/// The value of one interaction detail (fires, floods, a damage type...):
/// the detail's position among the detail names selects the value; absent
/// names or values count as zero.
pub open spec fn spec_interaction_detail(
    names: Seq<Option<String>>,
    values: Seq<Option<u64>>,
    name: Seq<char>,
) -> u64 {
    match position_of(names, name) {
        Some(i) => if i < values.len() {
            match values[i] {
                Some(v) => v,
                None => 0,
            }
        } else {
            0
        },
        None => 0,
    }
}

/// Reads one interaction detail of a victim.
pub fn interaction_detail(names: &Vec<Option<String>>, values: &Vec<Option<u64>>, name: &str) -> (r: u64)
    ensures
        r == spec_interaction_detail(names@, values@, name@),
{
    match find_name(names, name) {
        Some(i) => if i < values.len() {
            match values[i] {
                Some(v) => v,
                None => 0,
            }
        } else {
            0
        },
        None => 0,
    }
}

/// The damage dealt to one victim: the sum of the details named `keys`.
pub open spec fn spec_damage_dealt(
    names: Seq<Option<String>>,
    values: Seq<Option<u64>>,
    keys: Seq<String>,
) -> int
    decreases keys.len(),
{
    if keys.len() == 0 {
        0
    } else {
        spec_damage_dealt(names, values, keys.drop_last()) + spec_interaction_detail(
            names,
            values,
            keys.last()@,
        )
    }
}

/// Adds up the damage a player dealt to one victim over all damage types.
pub fn damage_dealt(names: &Vec<Option<String>>, values: &Vec<Option<u64>>, keys: &Vec<String>) -> (r: u64)
    requires
        forall|k: int| 0 <= k <= keys@.len() ==> spec_damage_dealt(names@, values@, #[trigger] keys@.take(k)) <= u64::MAX,
    ensures
        r == spec_damage_dealt(names@, values@, keys@),
{
    let mut total: u64 = 0;
    let mut i: usize = 0;
    while i < keys.len()
        invariant
            i <= keys@.len(),
            forall|k: int| 0 <= k <= keys@.len() ==> spec_damage_dealt(names@, values@, #[trigger] keys@.take(k)) <= u64::MAX,
            total == spec_damage_dealt(names@, values@, keys@.take(i as int)),
        decreases keys.len() - i,
    {
        let v = interaction_detail(names, values, keys[i].as_str());
        assert(keys@.take(i + 1).drop_last() =~= keys@.take(i as int));
        assert(spec_damage_dealt(names@, values@, keys@.take(i + 1)) <= u64::MAX);
        total = total + v;
        i = i + 1;
    }
    assert(keys@.take(keys.len() as int) =~= keys@);
    total
}

/// The sum over all victims of one interaction detail (fires, floods,
/// citadels, critical hits).
pub open spec fn spec_detail_total(names: Seq<Option<String>>, victims: Seq<Vec<Option<u64>>>, name: Seq<char>) -> int
    decreases victims.len(),
{
    if victims.len() == 0 {
        0
    } else {
        spec_detail_total(names, victims.drop_last(), name) + spec_interaction_detail(names, victims.last()@, name)
    }
}

proof fn lemma_detail_total_prefix(names: Seq<Option<String>>, victims: Seq<Vec<Option<u64>>>, name: Seq<char>, k: int)
    requires
        0 <= k <= victims.len(),
    ensures
        0 <= spec_detail_total(names, victims.take(k), name) <= spec_detail_total(names, victims, name),
    decreases victims.len() - k,
{
    if k < victims.len() {
        lemma_detail_total_prefix(names, victims, name, k + 1);
        assert(victims.take(k + 1).drop_last() =~= victims.take(k));
    } else {
        assert(victims.take(k) =~= victims);
    }
    lemma_detail_total_nonneg(names, victims.take(k), name);
}

proof fn lemma_detail_total_nonneg(names: Seq<Option<String>>, victims: Seq<Vec<Option<u64>>>, name: Seq<char>)
    ensures
        spec_detail_total(names, victims, name) >= 0,
    decreases victims.len(),
{
    if victims.len() > 0 {
        lemma_detail_total_nonneg(names, victims.drop_last(), name);
    }
}

/// Adds up one interaction detail over the victims of a player.
pub fn detail_total(names: &Vec<Option<String>>, victims: &Vec<Vec<Option<u64>>>, name: &str) -> (r: u64)
    requires
        spec_detail_total(names@, victims@, name@) <= u64::MAX,
    ensures
        r == spec_detail_total(names@, victims@, name@),
{
    let mut total: u64 = 0;
    let mut i: usize = 0;
    while i < victims.len()
        invariant
            i <= victims@.len(),
            spec_detail_total(names@, victims@, name@) <= u64::MAX,
            total == spec_detail_total(names@, victims@.take(i as int), name@),
        decreases victims.len() - i,
    {
        let v = interaction_detail(names, &victims[i], name);
        proof {
            assert(victims@.take(i + 1).drop_last() =~= victims@.take(i as int));
            lemma_detail_total_prefix(names@, victims@, name@, i + 1);
        }
        total = total + v;
        i = i + 1;
    }
    assert(victims@.take(victims.len() as int) =~= victims@);
    total
}

/// Another player in the recording player's division; the recording player
/// is given by player id and division id (0: no division).
pub open spec fn spec_division_mate(recorder: Option<(i64, u32)>, db_id: i64, division_id: u32) -> bool {
    match recorder {
        Some((self_id, self_division)) => self_id != db_id && self_division > 0 && division_id == self_division,
        None => false,
    }
}

/// Whether a player's row is shown in the division colour.
pub fn is_division_mate(recorder: Option<(i64, u32)>, db_id: i64, division_id: u32) -> (r: bool)
    ensures
        r == spec_division_mate(recorder, db_id, division_id),
{
    match recorder {
        Some((self_id, self_division)) => self_id != db_id && self_division > 0 && division_id == self_division,
        None => false,
    }
}

proof fn lemma_longest_prefix(entries: Seq<BreakdownEntry>, k: int)
    requires
        0 <= k <= entries.len(),
    ensures
        longest_description(present_entries(entries.take(k))) <= longest_description(
            present_entries(entries),
        ),
    decreases entries.len() - k,
{
    if k < entries.len() {
        lemma_longest_prefix(entries, k + 1);
        assert(entries.take(k + 1) =~= entries.take(k).push(entries[k]));
        lemma_present_push(entries.take(k), entries[k]);
        let p = present_entries(entries.take(k));
        if entry_present(entries[k]) {
            assert(p.push(entries[k]).drop_last() =~= p);
        }
    } else {
        assert(entries.take(k) =~= entries);
    }
}

/// The damage between the reported player and one other player, either
/// dealt or received.
#[derive(Debug, Copy, Clone, PartialEq, Eq, Structural)]
pub struct InteractionRow {
    pub db_id: i64,
    pub damage: u64,
}

impl crate::stable_sort::Ranked for InteractionRow {
    /// Most damage first.
    open spec fn precedes_or_ties(self, other: Self) -> bool {
        self.damage >= other.damage
    }

    proof fn lemma_total(a: Self, b: Self) {
    }

    proof fn lemma_transitive(a: Self, b: Self, c: Self) {
    }

    fn ranks_before_or_with(&self, other: &Self) -> (r: bool) {
        self.damage >= other.damage
    }
}

/// The rows the damage details list: the interactions with some damage,
/// most damage first (equal damage in the given order).
pub fn interaction_rows(interactions: Vec<InteractionRow>) -> (r: Vec<InteractionRow>)
    ensures
        crate::stable_sort::is_sorted(r@),
        crate::stable_sort::stable_reordering(interactions@.filter(|x: InteractionRow| x.damage > 0), r@),
{
    let mut kept: Vec<InteractionRow> = Vec::new();
    let mut i: usize = 0;
    while i < interactions.len()
        invariant
            i <= interactions@.len(),
            kept@ == interactions@.take(i as int).filter(|x: InteractionRow| x.damage > 0),
        decreases interactions@.len() - i,
    {
        proof {
            reveal(Seq::filter);
            assert(interactions@.take(i + 1).drop_last() =~= interactions@.take(i as int));
            assert(interactions@.take(i + 1).last() == interactions@[i as int]);
        }
        if interactions[i].damage > 0 {
            kept.push(interactions[i]);
        }
        i = i + 1;
    }
    assert(interactions@.take(interactions@.len() as int) =~= interactions@);
    crate::stable_sort::sort_stable(kept)
}

/// The line of a damage detail: "ship: damage (percentage)".
pub fn interaction_label(ship_name: &str, damage_text: &str, percentage_text: &str) -> (r: String)
    ensures
        r@ == ship_name@ + ": "@ + damage_text@ + " ("@ + percentage_text@ + ")"@,
{
    let a = concat_text(ship_name, ": ");
    let b = concat_text(a.as_str(), damage_text);
    let c = concat_text(b.as_str(), " (");
    let d = concat_text(c.as_str(), percentage_text);
    concat_text(d.as_str(), ")")
}


/// What a cell of the player table shows.
#[derive(Debug, Clone, PartialEq, Eq)]
pub enum CellContent {
    /// "-": there is no value.
    Missing,
    /// "NDA": the value is hidden.
    Hidden,
    /// A text the report prepared.
    Text(String),
    /// A counter.
    Count(u64),
    /// A signed number (experience, kills).
    Signed(i64),
    /// A value the table draws itself (name and icons, skills, rating,
    /// distance, the actions menu).
    Drawn,
}

/// A prepared text, or "-" without one; "NDA" instead when hidden.
pub open spec fn guarded_text(text: Option<String>, hidden: bool) -> CellContent {
    match text {
        Some(t) => if hidden {
            CellContent::Hidden
        } else {
            CellContent::Text(t)
        },
        None => CellContent::Missing,
    }
}

/// A counter, or "-" without one; "NDA" instead when hidden.
pub open spec fn guarded_count(value: Option<u64>, hidden: bool) -> CellContent {
    match value {
        Some(v) => if hidden {
            CellContent::Hidden
        } else {
            CellContent::Count(v)
        },
        None => CellContent::Missing,
    }
}

/// What the cell of a player's row in a column shows. Damage figures, hits,
/// fires, floods, citadels and critical hits read "NDA" when the player's
/// statistics are hidden, unless in debug mode; an enemy's skills are
/// shown only in debug mode.
pub open spec fn spec_cell_content(p: PlayerStats, column: ReplayColumn, debug: bool) -> CellContent {
    let hidden = p.spec_should_hide_stats() && !debug;
    match column {
        ReplayColumn::Actions => CellContent::Drawn,
        ReplayColumn::Name => CellContent::Drawn,
        ReplayColumn::ShipName => CellContent::Text(p.ship_name),
        ReplayColumn::Skills => if p.relation > 1 && !debug {
            CellContent::Missing
        } else {
            CellContent::Drawn
        },
        ReplayColumn::PersonalRating => if p.personal_rating is Some {
            CellContent::Drawn
        } else {
            CellContent::Missing
        },
        ReplayColumn::BaseXp => match p.base_xp {
            Some(x) => CellContent::Signed(x),
            None => CellContent::Missing,
        },
        ReplayColumn::RawXp => match p.raw_xp {
            Some(x) => CellContent::Signed(x),
            None => CellContent::Missing,
        },
        ReplayColumn::Kills => CellContent::Signed(
            match p.kills {
                Some(k) => k,
                None => p.observed_kills,
            },
        ),
        ReplayColumn::ObservedDamage => if hidden {
            CellContent::Hidden
        } else {
            CellContent::Text(p.observed_damage_text)
        },
        ReplayColumn::ActualDamage => guarded_text(p.actual_damage_text, hidden),
        ReplayColumn::ReceivedDamage => guarded_text(p.received_damage_text, hidden),
        ReplayColumn::PotentialDamage => guarded_text(p.potential_damage_text, hidden),
        ReplayColumn::SpottingDamage => match p.spotting_damage {
            Some(v) => CellContent::Count(v),
            None => CellContent::Missing,
        },
        ReplayColumn::TimeLived => match p.time_lived_text {
            Some(t) => CellContent::Text(t),
            None => CellContent::Missing,
        },
        ReplayColumn::Fires => guarded_count(p.fires, hidden),
        ReplayColumn::Floods => guarded_count(p.floods, hidden),
        ReplayColumn::Citadels => guarded_count(p.citadels, hidden),
        ReplayColumn::Crits => guarded_count(p.crits, hidden),
        ReplayColumn::Hits => guarded_count(p.hits, hidden),
        ReplayColumn::DistanceTraveled => if p.distance_traveled is Some {
            CellContent::Drawn
        } else {
            CellContent::Missing
        },
    }
}

fn text_cell(text: &Option<String>, hidden: bool) -> (r: CellContent)
    ensures
        r == guarded_text(*text, hidden),
{
    match text {
        Some(t) => if hidden {
            CellContent::Hidden
        } else {
            CellContent::Text(t.clone())
        },
        None => CellContent::Missing,
    }
}

fn count_cell(value: Option<u64>, hidden: bool) -> (r: CellContent)
    ensures
        r == guarded_count(value, hidden),
{
    match value {
        Some(v) => if hidden {
            CellContent::Hidden
        } else {
            CellContent::Count(v)
        },
        None => CellContent::Missing,
    }
}

/// Decides what a cell of the player table shows.
pub fn cell_content(p: &PlayerStats, column: ReplayColumn, debug: bool) -> (r: CellContent)
    ensures
        r == spec_cell_content(*p, column, debug),
{
    let hidden = p.should_hide_stats() && !debug;
    match column {
        ReplayColumn::Actions => CellContent::Drawn,
        ReplayColumn::Name => CellContent::Drawn,
        ReplayColumn::ShipName => CellContent::Text(p.ship_name.clone()),
        ReplayColumn::Skills => if p.is_enemy() && !debug {
            CellContent::Missing
        } else {
            CellContent::Drawn
        },
        ReplayColumn::PersonalRating => if p.personal_rating.is_some() {
            CellContent::Drawn
        } else {
            CellContent::Missing
        },
        ReplayColumn::BaseXp => match p.base_xp {
            Some(x) => CellContent::Signed(x),
            None => CellContent::Missing,
        },
        ReplayColumn::RawXp => match p.raw_xp {
            Some(x) => CellContent::Signed(x),
            None => CellContent::Missing,
        },
        ReplayColumn::Kills => CellContent::Signed(
            match p.kills {
                Some(k) => k,
                None => p.observed_kills,
            },
        ),
        ReplayColumn::ObservedDamage => if hidden {
            CellContent::Hidden
        } else {
            CellContent::Text(p.observed_damage_text.clone())
        },
        ReplayColumn::ActualDamage => text_cell(&p.actual_damage_text, hidden),
        ReplayColumn::ReceivedDamage => text_cell(&p.received_damage_text, hidden),
        ReplayColumn::PotentialDamage => text_cell(&p.potential_damage_text, hidden),
        ReplayColumn::SpottingDamage => match p.spotting_damage {
            Some(v) => CellContent::Count(v),
            None => CellContent::Missing,
        },
        ReplayColumn::TimeLived => match &p.time_lived_text {
            Some(t) => CellContent::Text(t.clone()),
            None => CellContent::Missing,
        },
        ReplayColumn::Fires => count_cell(p.fires, hidden),
        ReplayColumn::Floods => count_cell(p.floods, hidden),
        ReplayColumn::Citadels => count_cell(p.citadels, hidden),
        ReplayColumn::Crits => count_cell(p.crits, hidden),
        ReplayColumn::Hits => count_cell(p.hits, hidden),
        ReplayColumn::DistanceTraveled => if p.distance_traveled.is_some() {
            CellContent::Drawn
        } else {
            CellContent::Missing
        },
    }
}

} // verus!
