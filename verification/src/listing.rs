//! The replay list: labels and file names of replays, the version check
//! before a replay is parsed, the grouping of the list by date and by ship,
//! chat lines, clan colours and the session statistics.

use vstd::prelude::*;

use crate::outside::{decode_html_text, html_decoded};
use crate::report::BattleResult;
use crate::stable_sort::{is_sorted, sort_stable, stable_reordering, tie_class, ties, Ranked};
use crate::text::{
    chars_of, compare_text, concat_text, join, join_text, lex_compare, pieces, same_chars, same_text, split_chars,
    string_of, views,
};

verus! {

/// The parts a replay is described by: ship, map, scenario, game mode and
/// the time it was played ("DD.MM.YYYY HH:MM:SS").
pub open spec fn label_parts(vehicle: Seq<char>, map: Seq<char>, scenario: Seq<char>, mode: Seq<char>, time: Seq<char>) -> Seq<
    Seq<char>,
> {
    seq![vehicle, map, scenario, mode, time]
}

fn parts_vec(vehicle: &str, map: &str, scenario: &str, mode: &str, time: &str) -> (r: Vec<String>)
    ensures
        views(r@) == label_parts(vehicle@, map@, scenario@, mode@, time@),
{
    let mut v: Vec<String> = Vec::new();
    v.push(vehicle.to_owned());
    v.push(map.to_owned());
    v.push(scenario.to_owned());
    v.push(mode.to_owned());
    v.push(time.to_owned());
    assert(views(v@) =~= label_parts(vehicle@, map@, scenario@, mode@, time@));
    v
}

/// The label of a replay in the list: its parts, one per line.
pub fn replay_label(vehicle: &str, map: &str, scenario: &str, mode: &str, time: &str) -> (r: String)
    ensures
        r@ == join(label_parts(vehicle@, map@, scenario@, mode@, time@), "\n"@),
{
    let parts = parts_vec(vehicle, map, scenario, mode, time);
    join_text(&parts, "\n")
}

/// '.', ':' and ' ' become '-'.
pub open spec fn dashed(s: Seq<char>) -> Seq<char> {
    s.map_values(|c: char| if c == '.' || c == ':' || c == ' ' { '-' } else { c })
}

/// A file name for an exported replay: its parts joined by '_', with '.',
/// ':' and ' ' turned into '-'.
pub fn better_file_name(vehicle: &str, map: &str, scenario: &str, mode: &str, time: &str) -> (r: String)
    ensures
        r@ == dashed(join(label_parts(vehicle@, map@, scenario@, mode@, time@), "_"@)),
{
    let parts = parts_vec(vehicle, map, scenario, mode, time);
    let joined = join_text(&parts, "_");
    let chars = chars_of(joined.as_str());
    let mut out: Vec<char> = Vec::new();
    let mut i: usize = 0;
    while i < chars.len()
        invariant
            i <= chars@.len(),
            out@ == dashed(chars@.take(i as int)),
        decreases chars@.len() - i,
    {
        let c = chars[i];
        out.push(
            if c == '.' || c == ':' || c == ' ' {
                '-'
            } else {
                c
            },
        );
        assert(out@ =~= dashed(chars@.take(i + 1)));
        i = i + 1;
    }
    assert(chars@.take(chars@.len() as int) =~= chars@);
    string_of(&out)
}

/// Line breaks become '_'.
pub open spec fn underscored(s: Seq<char>) -> Seq<char> {
    s.map_values(|c: char| if c == '\n' { '_' } else { c })
}

proof fn lemma_underscored_join(parts: Seq<Seq<char>>)
    requires
        forall|i: int| 0 <= i < parts.len() ==> !(#[trigger] parts[i]).contains('\n'),
    ensures
        underscored(join(parts, "\n"@)) == join(parts, "_"@),
    decreases parts.len(),
{
    reveal_strlit("\n");
    reveal_strlit("_");
    if parts.len() == 0 {
        assert(underscored(Seq::<char>::empty()) =~= Seq::<char>::empty());
    } else if parts.len() == 1 {
        lemma_underscored_plain(parts[0]);
    } else {
        let init = parts.drop_last();
        assert forall|i: int| 0 <= i < init.len() implies !(#[trigger] init[i]).contains('\n') by {
            assert(init[i] == parts[i]);
        }
        lemma_underscored_join(init);
        lemma_underscored_plain(parts.last());
        let a = join(init, "\n"@);
        let whole = a + "\n"@ + parts.last();
        assert(underscored(whole) =~= underscored(a) + "_"@ + underscored(parts.last()));
    }
}

proof fn lemma_underscored_plain(s: Seq<char>)
    requires
        !s.contains('\n'),
    ensures
        underscored(s) == s,
{
    assert forall|i: int| 0 <= i < s.len() implies underscored(s)[i] == s[i] by {
        if s[i] == '\n' {
            assert(s.contains('\n'));
        }
    }
    assert(underscored(s) =~= s);
}

/// The file name of an exported replay is its label with the line breaks
/// turned into '_' and then '.', ':' and ' ' into '-', whenever no part of
/// the label holds a line break; it holds none of '.', ':' and ' '.
pub proof fn law_file_name_from_label(vehicle: Seq<char>, map: Seq<char>, scenario: Seq<char>, mode: Seq<char>, time: Seq<char>)
    requires
        !vehicle.contains('\n'),
        !map.contains('\n'),
        !scenario.contains('\n'),
        !mode.contains('\n'),
        !time.contains('\n'),
    ensures
        dashed(join(label_parts(vehicle, map, scenario, mode, time), "_"@)) == dashed(
            underscored(join(label_parts(vehicle, map, scenario, mode, time), "\n"@)),
        ),
        forall|c: char|
            #[trigger] dashed(join(label_parts(vehicle, map, scenario, mode, time), "_"@)).contains(c) ==> c != '.'
                && c != ':' && c != ' ',
{
    let parts = label_parts(vehicle, map, scenario, mode, time);
    assert forall|i: int| 0 <= i < parts.len() implies !(#[trigger] parts[i]).contains('\n') by {
        if i == 0 {
        } else if i == 1 {
        } else if i == 2 {
        } else if i == 3 {
        } else {
        }
    }
    lemma_underscored_join(parts);
    let d = dashed(join(parts, "_"@));
    assert forall|c: char| #[trigger] d.contains(c) implies c != '.' && c != ':' && c != ' ' by {
        let k = choose|k: int| 0 <= k < d.len() && d[k] == c;
    }
}

/// A replay recorded by another game build than the data loaded for it.
#[derive(Debug)]
pub struct VersionMismatch {
    pub game_version: String,
    pub replay_version: String,
}

/// Checks, before parsing, that a replay was recorded by the expected game
/// build: the last of the four comma-separated parts of its client version.
pub fn check_replay_build(client_version: &str, expected_build: &str) -> (r: Result<(), VersionMismatch>)
    requires
        pieces(client_version@, ',').len() == 4,
    ensures
        match r {
            Ok(()) => pieces(client_version@, ',')[3] == expected_build@,
            Err(e) => pieces(client_version@, ',')[3] != expected_build@ && e.game_version@ == expected_build@
                && e.replay_version@ == pieces(client_version@, ',')[3],
        },
{
    let chars = chars_of(client_version);
    let parts = split_chars(&chars, ',');
    let expected = chars_of(expected_build);
    if same_chars(&parts[3], &expected) {
        Ok(())
    } else {
        Err(VersionMismatch { game_version: expected_build.to_owned(), replay_version: string_of(&parts[3]) })
    }
}

/// The colour of a player's clan tag, from the clan colour of the player's
/// properties: `None` without a clan.
pub fn clan_color(clan: &str, color: i64) -> (r: Option<(u8, u8, u8)>)
    ensures
        clan@.len() == 0 ==> r is None,
        clan@.len() > 0 ==> r == Some(
            (((color & 0xFF0000) >> 16) as u8, ((color & 0xFF00) >> 8) as u8, (color & 0xFF) as u8),
        ),
{
    if clan.is_empty() {
        None
    } else {
        let red: u8 = #[verifier::truncate] (((color & 0xFF0000) >> 16) as u8);
        let green: u8 = #[verifier::truncate] (((color & 0xFF00) >> 8) as u8);
        let blue: u8 = #[verifier::truncate] ((color & 0xFF) as u8);
        Some((red, green, blue))
    }
}

/// The chat channel a message was sent on.
#[derive(Debug, Copy, Clone, PartialEq, Eq, Structural)]
pub enum ChatChannel {
    Division,
    Global,
    Team,
}

pub open spec fn channel_name(c: ChatChannel) -> Seq<char> {
    match c {
        ChatChannel::Division => "Division"@,
        ChatChannel::Global => "Global"@,
        ChatChannel::Team => "Team"@,
    }
}

/// The text shown for a chat message: its translation when there is one,
/// otherwise the message with its HTML character references decoded, or as
/// it is when decoding fails.
pub fn chat_message_text(message: &str, translated: Option<String>) -> (r: String)
    ensures
        r@ == match translated {
            Some(t) => t@,
            None => match html_decoded(message@) {
                Some(d) => d,
                None => message@,
            },
        },
{
    match translated {
        Some(t) => t,
        None => match decode_html_text(message) {
            Some(d) => d,
            None => message.to_owned(),
        },
    }
}

/// The text copied for a chat line: "[clan] sender (Channel): text", the
/// clan part left out without a clan.
pub open spec fn spec_chat_line(clan: Seq<char>, sender: Seq<char>, channel: ChatChannel, text: Seq<char>) -> Seq<
    char,
> {
    let rest = sender + " ("@ + channel_name(channel) + "): "@ + text;
    if clan.len() > 0 {
        "["@ + clan + "] "@ + rest
    } else {
        rest
    }
}

/// The text copied for a chat line.
pub fn chat_line(clan: &str, sender: &str, channel: ChatChannel, text: &str) -> (r: String)
    ensures
        r@ == spec_chat_line(clan@, sender@, channel, text@),
{
    let name = match channel {
        ChatChannel::Division => "Division",
        ChatChannel::Global => "Global",
        ChatChannel::Team => "Team",
    };
    let a = concat_text(sender, " (");
    let b = concat_text(a.as_str(), name);
    let c = concat_text(b.as_str(), "): ");
    let rest = concat_text(c.as_str(), text);
    if clan.is_empty() {
        rest
    } else {
        let d = concat_text("[", clan);
        let e = concat_text(d.as_str(), "] ");
        let r = concat_text(e.as_str(), rest.as_str());
        assert(r@ =~= spec_chat_line(clan@, sender@, channel, text@));
        r
    }
}

/// The date part of a replay time ("DD.MM.YYYY HH:MM:SS"): the text before
/// the first space.
pub open spec fn date_part(time: Seq<char>) -> Seq<char> {
    pieces(time, ' ')[0]
}

/// The time of day of a replay time: the text after the first space (up to
/// a second one), or the whole text without a space.
pub open spec fn time_part(time: Seq<char>) -> Seq<char> {
    if pieces(time, ' ').len() > 1 {
        pieces(time, ' ')[1]
    } else {
        time
    }
}

/// Groups of consecutive replays played on the same date, from the first
/// `n` dates: each group is the date and the indices of its replays.
pub open spec fn date_groups(dates: Seq<Seq<char>>, n: int) -> Seq<(Seq<char>, Seq<usize>)>
    decreases n,
{
    if n <= 0 {
        Seq::empty()
    } else {
        let g = date_groups(dates, n - 1);
        if g.len() > 0 && g.last().0 == dates[n - 1] {
            g.update(g.len() - 1, (g.last().0, g.last().1.push((n - 1) as usize)))
        } else {
            g.push((dates[n - 1], seq![(n - 1) as usize]))
        }
    }
}

pub open spec fn group_views(groups: Seq<(String, Vec<usize>)>) -> Seq<(Seq<char>, Seq<usize>)> {
    groups.map_values(|g: (String, Vec<usize>)| (g.0@, g.1@))
}

fn date_of(time: &str) -> (r: String)
    ensures
        r@ == date_part(time@),
{
    let chars = chars_of(time);
    let parts = split_chars(&chars, ' ');
    proof {
        crate::text::lemma_pieces_nonempty(time@, ' ');
    }
    string_of(&parts[0])
}

/// Groups the replay list, sorted newest first, into runs of replays played
/// on the same date.
pub fn group_by_date(times: &Vec<String>) -> (r: Vec<(String, Vec<usize>)>)
    ensures
        group_views(r@) == date_groups(times@.map_values(|t: String| date_part(t@)), times@.len() as int),
{
    let ghost dates = times@.map_values(|t: String| date_part(t@));
    let mut groups: Vec<(String, Vec<usize>)> = Vec::new();
    let mut i: usize = 0;
    while i < times.len()
        invariant
            i <= times@.len(),
            dates == times@.map_values(|t: String| date_part(t@)),
            group_views(groups@) == date_groups(dates, i as int),
        decreases times@.len() - i,
    {
        let date = date_of(times[i].as_str());
        assert(date@ == dates[i as int]);
        let n = groups.len();
        let ghost before = groups@;
        if n > 0 && same_text(groups[n - 1].0.as_str(), date.as_str()) {
            let (name, mut members) = groups.pop().unwrap();
            members.push(i);
            groups.push((name, members));
            assert(group_views(groups@) =~= group_views(before).update(n - 1, (group_views(before).last().0, group_views(before).last().1.push(i))));
        } else {
            let mut members: Vec<usize> = Vec::new();
            members.push(i);
            groups.push((date, members));
            assert(group_views(groups@) =~= group_views(before).push((dates[i as int], seq![i])));
        }
        i = i + 1;
    }
    groups
}

/// The indices of the groups, one group after the other.
pub open spec fn flatten_members(groups: Seq<(Seq<char>, Seq<usize>)>) -> Seq<usize>
    decreases groups.len(),
{
    if groups.len() == 0 {
        Seq::empty()
    } else {
        flatten_members(groups.drop_last()) + groups.last().1
    }
}

/// Grouping by date keeps the list as it is and only cuts it into runs:
/// the groups hold the replays in list order, one after the other; each
/// group holds replays of its date only and is not empty; and two groups in
/// a row have different dates.
pub proof fn law_date_groups_partition(dates: Seq<Seq<char>>, n: int)
    requires
        0 <= n <= dates.len(),
        dates.len() <= usize::MAX,
    ensures
        flatten_members(date_groups(dates, n)) == Seq::new(n as nat, |i: int| i as usize),
        forall|j: int| 0 <= j < date_groups(dates, n).len() ==> (#[trigger] date_groups(dates, n)[j]).1.len() > 0,
        forall|j: int, k: int|
            0 <= j < date_groups(dates, n).len() && 0 <= k < date_groups(dates, n)[j].1.len() ==> dates[#[trigger] date_groups(
                dates,
                n,
            )[j].1[k] as int] == date_groups(dates, n)[j].0,
        forall|j: int|
            0 <= j < date_groups(dates, n).len() - 1 ==> #[trigger] date_groups(dates, n)[j].0 != date_groups(dates, n)[j
                + 1].0,
    decreases n,
{
    if n > 0 {
        law_date_groups_partition(dates, n - 1);
        let g = date_groups(dates, n - 1);
        let d = dates[n - 1];
        let r = date_groups(dates, n);
        if g.len() > 0 && g.last().0 == d {
            let y = (g.last().0, g.last().1.push((n - 1) as usize));
            assert(r == g.update(g.len() - 1, y));
            assert(r.drop_last() =~= g.drop_last());
            assert(flatten_members(g) == flatten_members(g.drop_last()) + g.last().1);
            assert(flatten_members(r) =~= flatten_members(g).push((n - 1) as usize));
            assert(flatten_members(r) =~= Seq::new(n as nat, |i: int| i as usize));
            assert forall|j: int, k: int|
                0 <= j < r.len() && 0 <= k < r[j].1.len() implies dates[#[trigger] r[j].1[k] as int] == r[j].0 by {
                if j < g.len() - 1 {
                    assert(r[j] == g[j]);
                } else if k < g.last().1.len() {
                    assert(r[j].1[k] == g[j].1[k]);
                }
            }
            assert forall|j: int| 0 <= j < r.len() - 1 implies #[trigger] r[j].0 != r[j + 1].0 by {
                assert(r[j] == g[j]);
            }
        } else {
            let y = (d, seq![(n - 1) as usize]);
            assert(r == g.push(y));
            assert(r.drop_last() =~= g);
            assert(flatten_members(r) =~= Seq::new(n as nat, |i: int| i as usize));
            assert forall|j: int, k: int|
                0 <= j < r.len() && 0 <= k < r[j].1.len() implies dates[#[trigger] r[j].1[k] as int] == r[j].0 by {
                if j < g.len() {
                    assert(r[j] == g[j]);
                }
            }
            assert forall|j: int| 0 <= j < r.len() - 1 implies #[trigger] r[j].0 != r[j + 1].0 by {
                assert(r[j] == g[j]);
                if j + 1 < g.len() {
                    assert(r[j + 1] == g[j + 1]);
                }
            }
        }
    }
}

/// The first group named `name`.
pub open spec fn group_index(groups: Seq<(Seq<char>, Seq<usize>)>, name: Seq<char>) -> Option<int>
    decreases groups.len(),
{
    if groups.len() == 0 {
        None
    } else {
        match group_index(groups.drop_last(), name) {
            Some(j) => Some(j),
            None => if groups.last().0 == name {
                Some(groups.len() - 1)
            } else {
                None
            },
        }
    }
}

/// Groups of replays by ship, from the first `n` ships: in the order each
/// ship first appears, each with the indices of its replays in order.
pub open spec fn ship_groups(ships: Seq<Seq<char>>, n: int) -> Seq<(Seq<char>, Seq<usize>)>
    decreases n,
{
    if n <= 0 {
        Seq::empty()
    } else {
        let g = ship_groups(ships, n - 1);
        match group_index(g, ships[n - 1]) {
            Some(j) => g.update(j, (g[j].0, g[j].1.push((n - 1) as usize))),
            None => g.push((ships[n - 1], seq![(n - 1) as usize])),
        }
    }
}

proof fn lemma_group_index(groups: Seq<(Seq<char>, Seq<usize>)>, name: Seq<char>)
    ensures
        match group_index(groups, name) {
            Some(j) => 0 <= j < groups.len() && groups[j].0 == name && forall|k: int| 0 <= k < j ==> (#[trigger] groups[k]).0 != name,
            None => forall|k: int| 0 <= k < groups.len() ==> (#[trigger] groups[k]).0 != name,
        },
    decreases groups.len(),
{
    if groups.len() > 0 {
        lemma_group_index(groups.drop_last(), name);
        assert forall|k: int| 0 <= k < groups.len() - 1 implies groups[k] == groups.drop_last()[k] by {}
    }
}

/// Groups the replay list, sorted newest first, by ship: the ships in the
/// order they first appear, which is by their most recent replay.
pub fn group_by_ship(ships: &Vec<String>) -> (r: Vec<(String, Vec<usize>)>)
    ensures
        group_views(r@) == ship_groups(ships@.map_values(|s: String| s@), ships@.len() as int),
{
    let ghost names = ships@.map_values(|s: String| s@);
    let mut groups: Vec<(String, Vec<usize>)> = Vec::new();
    let mut i: usize = 0;
    while i < ships.len()
        invariant
            i <= ships@.len(),
            names == ships@.map_values(|s: String| s@),
            group_views(groups@) == ship_groups(names, i as int),
        decreases ships@.len() - i,
    {
        let ghost gv = group_views(groups@);
        proof {
            lemma_group_index(gv, names[i as int]);
        }
        let mut j: usize = 0;
        while j < groups.len() && !same_text(groups[j].0.as_str(), ships[i].as_str())
            invariant
                i < ships@.len(),
                j <= groups@.len(),
                gv == group_views(groups@),
                names[i as int] == ships@[i as int]@,
                forall|k: int| 0 <= k < j ==> (#[trigger] gv[k]).0 != names[i as int],
            decreases groups@.len() - j,
        {
            j = j + 1;
        }
        if j < groups.len() {
            assert(gv[j as int].0 == groups@[j as int].0@);
            assert(gv[j as int].0 == names[i as int]);
            assert(group_index(gv, names[i as int]) == Some(j as int));
            let (name, mut members) = groups.remove(j);
            members.push(i);
            groups.insert(j, (name, members));
            assert(group_views(groups@) =~= gv.update(j as int, (gv[j as int].0, gv[j as int].1.push(i))));
        } else {
            assert(group_index(gv, names[i as int]) is None);
            let mut members: Vec<usize> = Vec::new();
            members.push(i);
            groups.push((ships[i].clone(), members));
            assert(group_views(groups@) =~= gv.push((names[i as int], seq![i])));
        }
        i = i + 1;
    }
    groups
}

/// The wins and losses among the results of the given replays.
pub open spec fn wins_and_losses(results: Seq<Option<BattleResult>>, members: Seq<usize>) -> (nat, nat)
    decreases members.len(),
{
    if members.len() == 0 {
        (0, 0)
    } else {
        let (w, l) = wins_and_losses(results, members.drop_last());
        let k = members.last() as int;
        if 0 <= k < results.len() && results[k] matches Some(BattleResult::Win(_)) {
            (w + 1, l)
        } else if 0 <= k < results.len() && results[k] matches Some(BattleResult::Loss(_)) {
            (w, l + 1)
        } else {
            (w, l)
        }
    }
}

/// Counts the wins and losses of a group of replays.
pub fn count_wins_and_losses(results: &Vec<Option<BattleResult>>, members: &Vec<usize>) -> (r: (u64, u64))
    ensures
        r.0 == wins_and_losses(results@, members@).0,
        r.1 == wins_and_losses(results@, members@).1,
{
    let mut wins: u64 = 0;
    let mut losses: u64 = 0;
    let mut i: usize = 0;
    while i < members.len()
        invariant
            i <= members@.len(),
            wins == wins_and_losses(results@, members@.take(i as int)).0,
            losses == wins_and_losses(results@, members@.take(i as int)).1,
            wins + losses <= i,
        decreases members@.len() - i,
    {
        proof {
            assert(members@.take(i + 1).drop_last() =~= members@.take(i as int));
            assert(members@.take(i + 1).last() == members@[i as int]);
        }
        let k = members[i];
        if k < results.len() {
            match results[k] {
                Some(BattleResult::Win(_)) => {
                    wins = wins + 1;
                },
                Some(BattleResult::Loss(_)) => {
                    losses = losses + 1;
                },
                _ => {},
            }
        }
        i = i + 1;
    }
    assert(members@.take(members@.len() as int) =~= members@);
    (wins, losses)
}

/// The label of a replay in the list grouped by date: "ship - map (time)".
pub fn date_leaf_label(ship: &str, map: &str, time: &str) -> (r: String)
    ensures
        r@ == ship@ + " - "@ + map@ + " ("@ + time_part(time@) + ")"@,
{
    let chars = chars_of(time);
    let parts = split_chars(&chars, ' ');
    let hour = if parts.len() > 1 {
        string_of(&parts[1])
    } else {
        time.to_owned()
    };
    let a = concat_text(ship, " - ");
    let b = concat_text(a.as_str(), map);
    let c = concat_text(b.as_str(), " (");
    let d = concat_text(c.as_str(), hour.as_str());
    concat_text(d.as_str(), ")")
}

/// The label of a replay in the list grouped by ship: "map - time".
pub fn ship_leaf_label(map: &str, time: &str) -> (r: String)
    ensures
        r@ == map@ + " - "@ + time@,
{
    let a = concat_text(map, " - ");
    concat_text(a.as_str(), time)
}

/// An achievement earned in a battle, and how often.
#[derive(Debug)]
pub struct AchievementCount {
    pub id: u32,
    pub display_name: String,
    pub description: String,
    pub count: usize,
}

/// An achievement as plain values.
pub open spec fn achievement_view(a: AchievementCount) -> (u32, Seq<char>, Seq<char>, int) {
    (a.id, a.display_name@, a.description@, a.count as int)
}

/// The first achievement with this id.
pub open spec fn achievement_index(xs: Seq<(u32, Seq<char>, Seq<char>, int)>, id: u32) -> Option<int>
    decreases xs.len(),
{
    if xs.len() == 0 {
        None
    } else {
        match achievement_index(xs.drop_last(), id) {
            Some(j) => Some(j),
            None => if xs.last().0 == id {
                Some(xs.len() - 1)
            } else {
                None
            },
        }
    }
}

/// The achievements of the session from the first `n` earned ones: the
/// first of each id, with the counts of all with that id added up.
pub open spec fn merged_achievements(xs: Seq<(u32, Seq<char>, Seq<char>, int)>, n: int) -> Seq<
    (u32, Seq<char>, Seq<char>, int),
>
    decreases n,
{
    if n <= 0 {
        Seq::empty()
    } else {
        let m = merged_achievements(xs, n - 1);
        let a = xs[n - 1];
        match achievement_index(m, a.0) {
            Some(j) => m.update(j, (m[j].0, m[j].1, m[j].2, m[j].3 + a.3)),
            None => m.push(a),
        }
    }
}

/// The sum of the counts.
pub open spec fn total_count(xs: Seq<(u32, Seq<char>, Seq<char>, int)>) -> int
    decreases xs.len(),
{
    if xs.len() == 0 {
        0
    } else {
        total_count(xs.drop_last()) + xs.last().3
    }
}

proof fn lemma_achievement_index(xs: Seq<(u32, Seq<char>, Seq<char>, int)>, id: u32)
    ensures
        match achievement_index(xs, id) {
            Some(j) => 0 <= j < xs.len() && xs[j].0 == id && forall|k: int| 0 <= k < j ==> (#[trigger] xs[k]).0 != id,
            None => forall|k: int| 0 <= k < xs.len() ==> (#[trigger] xs[k]).0 != id,
        },
    decreases xs.len(),
{
    if xs.len() > 0 {
        lemma_achievement_index(xs.drop_last(), id);
        assert forall|k: int| 0 <= k < xs.len() - 1 implies xs[k] == xs.drop_last()[k] by {}
    }
}

proof fn lemma_merged_counts(xs: Seq<(u32, Seq<char>, Seq<char>, int)>, n: int)
    requires
        0 <= n <= xs.len(),
        forall|k: int| 0 <= k < xs.len() ==> (#[trigger] xs[k]).3 >= 0,
    ensures
        total_count(merged_achievements(xs, n)) == total_count(xs.take(n)),
        forall|k: int| 0 <= k < merged_achievements(xs, n).len() ==> (#[trigger] merged_achievements(xs, n)[k]).3 >= 0,
    decreases n,
{
    if n > 0 {
        lemma_merged_counts(xs, n - 1);
        let m = merged_achievements(xs, n - 1);
        let a = xs[n - 1];
        assert(xs.take(n).drop_last() =~= xs.take(n - 1));
        lemma_achievement_index(m, a.0);
        match achievement_index(m, a.0) {
            Some(j) => {
                lemma_total_count_update(m, j, (m[j].0, m[j].1, m[j].2, m[j].3 + a.3));
            },
            None => {
                assert(m.push(a).drop_last() =~= m);
            },
        }
    }
}

proof fn lemma_total_count_update(xs: Seq<(u32, Seq<char>, Seq<char>, int)>, j: int, v: (u32, Seq<char>, Seq<char>, int))
    requires
        0 <= j < xs.len(),
    ensures
        total_count(xs.update(j, v)) == total_count(xs) - xs[j].3 + v.3,
    decreases xs.len(),
{
    if j < xs.len() - 1 {
        lemma_total_count_update(xs.drop_last(), j, v);
        assert(xs.update(j, v).drop_last() =~= xs.drop_last().update(j, v));
    } else {
        assert(xs.update(j, v).drop_last() =~= xs.drop_last());
    }
}

proof fn lemma_total_count_nonneg(xs: Seq<(u32, Seq<char>, Seq<char>, int)>)
    requires
        forall|i: int| 0 <= i < xs.len() ==> (#[trigger] xs[i]).3 >= 0,
    ensures
        total_count(xs) >= 0,
    decreases xs.len(),
{
    if xs.len() > 0 {
        let d = xs.drop_last();
        assert forall|i: int| 0 <= i < d.len() implies (#[trigger] d[i]).3 >= 0 by {
            assert(d[i] == xs[i]);
        }
        lemma_total_count_nonneg(d);
        assert(xs.last() == xs[xs.len() - 1]);
    }
}

proof fn lemma_total_count_bound(xs: Seq<(u32, Seq<char>, Seq<char>, int)>, k: int)
    requires
        0 <= k < xs.len(),
        forall|i: int| 0 <= i < xs.len() ==> (#[trigger] xs[i]).3 >= 0,
    ensures
        xs[k].3 <= total_count(xs),
        total_count(xs) >= 0,
    decreases xs.len(),
{
    let d = xs.drop_last();
    assert forall|i: int| 0 <= i < d.len() implies (#[trigger] d[i]).3 >= 0 by {
        assert(d[i] == xs[i]);
    }
    lemma_total_count_nonneg(d);
    assert(xs.last() == xs[xs.len() - 1]);
    if k < xs.len() - 1 {
        lemma_total_count_bound(d, k);
        assert(d[k] == xs[k]);
    }
}

impl Ranked for AchievementCount {
    open spec fn precedes_or_ties(self, other: Self) -> bool {
        self.count >= other.count
    }

    proof fn lemma_total(a: Self, b: Self) {
    }

    proof fn lemma_transitive(a: Self, b: Self, c: Self) {
    }

    fn ranks_before_or_with(&self, other: &Self) -> (r: bool) {
        self.count >= other.count
    }
}

/// The achievements of the session: those earned with the same id merged
/// into the first, counts added up, then ordered by count, highest first,
/// achievements with equal counts in the order they were first earned.
pub fn session_achievements(earned: Vec<AchievementCount>) -> (r: Vec<AchievementCount>)
    requires
        total_count(earned@.map_values(|a: AchievementCount| achievement_view(a))) <= usize::MAX,
    ensures
        is_sorted(r@),
        r@.map_values(|a: AchievementCount| achievement_view(a)).to_multiset() == merged_achievements(
            earned@.map_values(|a: AchievementCount| achievement_view(a)),
            earned@.len() as int,
        ).to_multiset(),
        forall|c: usize|
            #[trigger] achievement_views(r@).filter(with_count(c as int)) == merged_achievements(
                earned@.map_values(|a: AchievementCount| achievement_view(a)),
                earned@.len() as int,
            ).filter(with_count(c as int)),
{
    let ghost xs = earned@.map_values(|a: AchievementCount| achievement_view(a));
    assert forall|k: int| 0 <= k < xs.len() implies (#[trigger] xs[k]).3 >= 0 by {
        assert(xs[k] == achievement_view(earned@[k]));
    }
    assert forall|k: int| 0 <= k < earned@.len() implies achievement_view(#[trigger] earned@[k]) == xs[0 + k] by {}
    let n = earned.len();
    let mut rest = earned;
    let mut merged: Vec<AchievementCount> = Vec::new();
    let mut i: usize = 0;
    proof {
        assert(xs.take(0) =~= Seq::<(u32, Seq<char>, Seq<char>, int)>::empty());
    }
    while i < n
        invariant
            n == xs.len(),
            i <= n,
            rest@.len() == n - i,
            forall|k: int| 0 <= k < rest@.len() ==> achievement_view(#[trigger] rest@[k]) == xs[i + k],
            merged@.map_values(|a: AchievementCount| achievement_view(a)) == merged_achievements(xs, i as int),
            total_count(xs) <= usize::MAX,
            forall|k: int| 0 <= k < xs.len() ==> (#[trigger] xs[k]).3 >= 0,
        decreases n - i,
    {
        let ghost mv = merged@.map_values(|a: AchievementCount| achievement_view(a));
        let a = rest.remove(0);
        assert(achievement_view(a) == xs[i as int]);
        proof {
            lemma_achievement_index(mv, a.id);
        }
        let mut j: usize = 0;
        while j < merged.len() && merged[j].id != a.id
            invariant
                j <= merged@.len(),
                mv == merged@.map_values(|x: AchievementCount| achievement_view(x)),
                forall|k: int| 0 <= k < j ==> (#[trigger] mv[k]).0 != a.id,
            decreases merged@.len() - j,
        {
            j = j + 1;
        }
        if j < merged.len() {
            assert(mv[j as int] == achievement_view(merged@[j as int]));
            assert(achievement_index(mv, a.id) == Some(j as int));
            proof {
                let m2 = mv.update(j as int, (mv[j as int].0, mv[j as int].1, mv[j as int].2, mv[j as int].3 + a.count));
                assert(m2 == merged_achievements(xs, i + 1));
                lemma_total_count_bound(m2, j as int);
                lemma_merged_counts(xs, i + 1);
                assert(total_count(xs.take(i + 1)) <= total_count(xs)) by {
                    lemma_total_count_prefix(xs, i + 1);
                }
            }
            let mut entry = merged.remove(j);
            entry.count = entry.count + a.count;
            merged.insert(j, entry);
            assert(merged@.map_values(|x: AchievementCount| achievement_view(x)) =~= mv.update(
                j as int,
                (mv[j as int].0, mv[j as int].1, mv[j as int].2, mv[j as int].3 + a.count),
            ));
        } else {
            assert(achievement_index(mv, a.id) is None);
            merged.push(a);
            assert(merged@.map_values(|x: AchievementCount| achievement_view(x)) =~= mv.push(xs[i as int]));
        }
        proof {
            assert forall|k: int| 0 <= k < rest@.len() implies achievement_view(#[trigger] rest@[k]) == xs[(i + 1) + k] by {}
        }
        i = i + 1;
    }
    let ghost before_sort = merged@;
    let sorted = sort_stable(merged);
    proof {
        crate::stable_sort::lemma_multiset_map(before_sort, sorted@, |a: AchievementCount| achievement_view(a));
        assert forall|c: usize|
            #[trigger] achievement_views(sorted@).filter(with_count(c as int)) == achievement_views(before_sort).filter(
                with_count(c as int),
            ) by {
            let e = AchievementCount { id: 0u32, display_name: arbitrary(), description: arbitrary(), count: c };
            let f = |a: AchievementCount| achievement_view(a);
            let q = |a: AchievementCount| with_count(c as int)(f(a));
            assert(q =~= (|y: AchievementCount| ties(y, e)));
            assert(tie_class(before_sort, e) == tie_class(sorted@, e));
            lemma_filter_map(before_sort, f, with_count(c as int));
            lemma_filter_map(sorted@, f, with_count(c as int));
        }
    }
    sorted
}

/// The achievements as plain values.
pub open spec fn achievement_views(s: Seq<AchievementCount>) -> Seq<(u32, Seq<char>, Seq<char>, int)> {
    s.map_values(|a: AchievementCount| achievement_view(a))
}

/// Achievements earned this many times.
pub open spec fn with_count(c: int) -> spec_fn((u32, Seq<char>, Seq<char>, int)) -> bool {
    |x: (u32, Seq<char>, Seq<char>, int)| x.3 == c
}

/// Keeping the images of a sequence that meet a test is taking the images
/// of the elements whose image meets it.
proof fn lemma_filter_map<A, B>(s: Seq<A>, f: spec_fn(A) -> B, p: spec_fn(B) -> bool)
    ensures
        s.map_values(f).filter(p) == s.filter(|a: A| p(f(a))).map_values(f),
    decreases s.len(),
{
    reveal(Seq::filter);
    let q = |a: A| p(f(a));
    if s.len() == 0 {
        assert(s.map_values(f) =~= Seq::<B>::empty());
        assert(s.filter(q) =~= Seq::<A>::empty());
        assert(s.map_values(f).filter(p) =~= Seq::<B>::empty());
    } else {
        lemma_filter_map(s.drop_last(), f, p);
        assert(s.map_values(f).drop_last() =~= s.drop_last().map_values(f));
        assert(s.map_values(f).last() == f(s.last()));
        let rest = s.drop_last().filter(q);
        if q(s.last()) {
            assert(rest.push(s.last()).map_values(f) =~= rest.map_values(f).push(f(s.last())));
        }
    }
}

proof fn lemma_total_count_prefix(xs: Seq<(u32, Seq<char>, Seq<char>, int)>, n: int)
    requires
        0 <= n <= xs.len(),
        forall|k: int| 0 <= k < xs.len() ==> (#[trigger] xs[k]).3 >= 0,
    ensures
        total_count(xs.take(n)) <= total_count(xs),
    decreases xs.len() - n,
{
    if n < xs.len() {
        lemma_total_count_prefix(xs, n + 1);
        assert(xs.take(n + 1).drop_last() =~= xs.take(n));
    } else {
        assert(xs.take(n) =~= xs);
    }
}

/// A ship's results over the session.
#[derive(Debug)]
pub struct ShipRecord {
    pub ship_name: String,
    pub wins: u64,
    pub losses: u64,
}

impl Ranked for ShipRecord {
    /// Most wins first, then fewest losses, then by name.
    open spec fn precedes_or_ties(self, other: Self) -> bool {
        self.wins > other.wins || (self.wins == other.wins && (self.losses < other.losses || (self.losses
            == other.losses && lex_compare(self.ship_name@, other.ship_name@) <= 0)))
    }

    proof fn lemma_total(a: Self, b: Self) {
        crate::text::lemma_lex_antisymmetric(a.ship_name@, b.ship_name@);
    }

    proof fn lemma_transitive(a: Self, b: Self, c: Self) {
        if a.wins == b.wins && b.wins == c.wins && a.losses == b.losses && b.losses == c.losses {
            crate::text::lemma_lex_transitive(a.ship_name@, b.ship_name@, c.ship_name@);
        }
    }

    fn ranks_before_or_with(&self, other: &Self) -> (r: bool) {
        self.wins > other.wins || (self.wins == other.wins && (self.losses < other.losses || (self.losses
            == other.losses && compare_text(self.ship_name.as_str(), other.ship_name.as_str()) <= 0)))
    }
}

/// Orders the ships of the session: most wins first, then fewest losses,
/// then by name.
pub fn order_ship_records(records: Vec<ShipRecord>) -> (r: Vec<ShipRecord>)
    ensures
        is_sorted(r@),
        stable_reordering(records@, r@),
{
    sort_stable(records)
}

} // verus!
