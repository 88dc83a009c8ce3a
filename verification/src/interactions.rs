//! The damage players of one battle dealt to each other: each player's
//! report lists the damage they dealt to every player they hit, and learns
//! from the other players' reports the damage they received from them.

use vstd::prelude::*;

verus! {

/// What one player did to one other player in a battle.
#[derive(Debug, Clone, Copy, PartialEq, Eq)]
pub struct DamageInteraction {
    /// The account id of the other player.
    pub other_player: i64,
    pub damage_dealt: u64,
    pub damage_received: u64,
}

/// A player of a battle and their interactions with the others, when the
/// battle results list them.
#[derive(Debug, Clone)]
pub struct PlayerInteractions {
    pub db_id: i64,
    pub interactions: Option<Vec<DamageInteraction>>,
}

/// An interaction as plain values: other player, damage dealt, damage
/// received.
pub open spec fn interaction_view(x: DamageInteraction) -> (i64, u64, u64) {
    (x.other_player, x.damage_dealt, x.damage_received)
}

pub open spec fn interactions_view(v: Vec<DamageInteraction>) -> Seq<(i64, u64, u64)> {
    v@.map_values(|x: DamageInteraction| interaction_view(x))
}

/// A player's report as plain values.
pub open spec fn player_view(p: PlayerInteractions) -> (i64, Option<Seq<(i64, u64, u64)>>) {
    (
        p.db_id,
        match p.interactions {
            Some(v) => Some(interactions_view(v)),
            None => None,
        },
    )
}

pub open spec fn players_view(s: Seq<PlayerInteractions>) -> Seq<(i64, Option<Seq<(i64, u64, u64)>>)> {
    s.map_values(|p: PlayerInteractions| player_view(p))
}

/// The first of the first `n` reports that belongs to player `d`.
pub open spec fn first_report(rs: Seq<(i64, Option<Seq<(i64, u64, u64)>>)>, d: i64, n: int) -> Option<int>
    decreases n,
{
    if n <= 0 {
        None
    } else {
        match first_report(rs, d, n - 1) {
            Some(j) => Some(j),
            None => if rs[n - 1].0 == d {
                Some(n - 1)
            } else {
                None
            },
        }
    }
}

/// The last of the first `n` reports that belongs to player `d` and lists
/// interactions.
pub open spec fn last_listing_report(rs: Seq<(i64, Option<Seq<(i64, u64, u64)>>)>, d: i64, n: int) -> Option<int>
    decreases n,
{
    if n <= 0 {
        None
    } else if rs[n - 1].0 == d && rs[n - 1].1 is Some {
        Some(n - 1)
    } else {
        last_listing_report(rs, d, n - 1)
    }
}

/// The first of the first `n` interactions that is with player `d`.
pub open spec fn interaction_with(ints: Seq<(i64, u64, u64)>, d: i64, n: int) -> Option<int>
    decreases n,
{
    if n <= 0 {
        None
    } else {
        match interaction_with(ints, d, n - 1) {
            Some(j) => Some(j),
            None => if ints[n - 1].0 == d {
                Some(n - 1)
            } else {
                None
            },
        }
    }
}

/// The damage player `pid` dealt to player `d`, as `pid`'s report lists
/// it: the report is the first of `pid`'s, and it must list `d`.
pub open spec fn received_from(rs: Seq<(i64, Option<Seq<(i64, u64, u64)>>)>, pid: i64, d: i64) -> Option<u64> {
    match first_report(rs, pid, rs.len() as int) {
        Some(o) => match rs[o].1 {
            Some(oi) => match interaction_with(oi, d, oi.len() as int) {
                Some(j) => Some(oi[j].1),
                None => None,
            },
            None => None,
        },
        None => None,
    }
}

/// The interactions with the damage received from `k` set to `v`; an
/// interaction with `k` that is not listed yet is added, with no damage
/// dealt.
pub open spec fn set_received(ints: Seq<(i64, u64, u64)>, k: i64, v: u64) -> Seq<(i64, u64, u64)> {
    match interaction_with(ints, k, ints.len() as int) {
        Some(j) => ints.update(j, (k, ints[j].1, v)),
        None => ints.push((k, 0, v)),
    }
}

/// The interactions of player `d` after the damage received from each of
/// the first `n` players of `keys` was taken from their reports.
pub open spec fn apply_received(
    ints: Seq<(i64, u64, u64)>,
    keys: Seq<(i64, u64, u64)>,
    rs: Seq<(i64, Option<Seq<(i64, u64, u64)>>)>,
    d: i64,
    n: int,
) -> Seq<(i64, u64, u64)>
    decreases n,
{
    if n <= 0 {
        ints
    } else {
        let acc = apply_received(ints, keys, rs, d, n - 1);
        match received_from(rs, keys[n - 1].0, d) {
            Some(v) => set_received(acc, keys[n - 1].0, v),
            None => acc,
        }
    }
}

/// The interactions report `r` ends with. The damage a player received is
/// gathered once per player, from the players listed by the last of their
/// reports that lists interactions, and goes to the first of their reports;
/// every other report keeps its interactions as they were.
pub open spec fn linked_interactions(rs: Seq<(i64, Option<Seq<(i64, u64, u64)>>)>, r: int) -> Option<
    Seq<(i64, u64, u64)>,
> {
    let d = rs[r].0;
    match rs[r].1 {
        None => None,
        Some(ints) => if first_report(rs, d, rs.len() as int) == Some(r) {
            match last_listing_report(rs, d, rs.len() as int) {
                Some(l) => Some(apply_received(ints, rs[l].1.unwrap(), rs, d, rs[l].1.unwrap().len() as int)),
                None => Some(ints),
            }
        } else {
            Some(ints)
        },
    }
}

proof fn lemma_first_report_bounds(rs: Seq<(i64, Option<Seq<(i64, u64, u64)>>)>, d: i64, n: int)
    ensures
        first_report(rs, d, n) matches Some(j) ==> 0 <= j < n && rs[j].0 == d,
    decreases n,
{
    if n > 0 {
        lemma_first_report_bounds(rs, d, n - 1);
    }
}

proof fn lemma_last_listing_bounds(rs: Seq<(i64, Option<Seq<(i64, u64, u64)>>)>, d: i64, n: int)
    ensures
        last_listing_report(rs, d, n) matches Some(j) ==> 0 <= j < n && rs[j].0 == d && rs[j].1 is Some,
    decreases n,
{
    if n > 0 {
        lemma_last_listing_bounds(rs, d, n - 1);
    }
}

proof fn lemma_interaction_with_bounds(ints: Seq<(i64, u64, u64)>, d: i64, n: int)
    ensures
        interaction_with(ints, d, n) matches Some(j) ==> 0 <= j < n && ints[j].0 == d,
    decreases n,
{
    if n > 0 {
        lemma_interaction_with_bounds(ints, d, n - 1);
    }
}

proof fn lemma_interaction_with_first(ints: Seq<(i64, u64, u64)>, d: i64, n: int)
    requires
        0 <= n <= ints.len(),
    ensures
        match interaction_with(ints, d, n) {
            Some(f) => 0 <= f < n && ints[f].0 == d && forall|k: int| 0 <= k < f ==> (#[trigger] ints[k]).0 != d,
            None => forall|k: int| 0 <= k < n ==> (#[trigger] ints[k]).0 != d,
        },
    decreases n,
{
    if n > 0 {
        lemma_interaction_with_first(ints, d, n - 1);
    }
}

proof fn lemma_interaction_with_same_keys(a: Seq<(i64, u64, u64)>, b: Seq<(i64, u64, u64)>, d: i64, n: int)
    requires
        0 <= n <= a.len(),
        a.len() == b.len(),
        forall|i: int| 0 <= i < a.len() ==> (#[trigger] a[i]).0 == b[i].0,
    ensures
        interaction_with(a, d, n) == interaction_with(b, d, n),
    decreases n,
{
    if n > 0 {
        lemma_interaction_with_same_keys(a, b, d, n - 1);
    }
}

proof fn lemma_first_report_unique(rs: Seq<(i64, Option<Seq<(i64, u64, u64)>>)>, r: int, n: int)
    requires
        0 <= r < rs.len(),
        0 <= n <= rs.len(),
        forall|i: int, j: int| 0 <= i < j < rs.len() ==> #[trigger] rs[i].0 != #[trigger] rs[j].0,
    ensures
        first_report(rs, rs[r].0, n) == (if r < n {
            Some(r)
        } else {
            None::<int>
        }),
        last_listing_report(rs, rs[r].0, n) == (if r < n && rs[r].1 is Some {
            Some(r)
        } else {
            None::<int>
        }),
    decreases n,
{
    if n > 0 {
        lemma_first_report_unique(rs, r, n - 1);
        if n - 1 != r {
            if n - 1 < r {
                assert(rs[n - 1].0 != rs[r].0);
            } else {
                assert(rs[r].0 != rs[n - 1].0);
            }
        }
    }
}

/// Taking the damage received from the players a report names into that
/// same report keeps each interaction's other player and damage dealt, and
/// sets the damage received of the first interaction with each of the
/// first `n` players named, where that player's report names this one.
proof fn lemma_apply_own_keys(
    ints: Seq<(i64, u64, u64)>,
    rs: Seq<(i64, Option<Seq<(i64, u64, u64)>>)>,
    d: i64,
    n: int,
)
    requires
        0 <= n <= ints.len(),
    ensures
        ({
            let res = apply_received(ints, ints, rs, d, n);
            &&& res.len() == ints.len()
            &&& forall|i: int| 0 <= i < ints.len() ==> (#[trigger] res[i]).0 == ints[i].0 && res[i].1 == ints[i].1
            &&& forall|i: int|
                0 <= i < ints.len() ==> (#[trigger] res[i]).2 == (if i < n && interaction_with(
                    ints,
                    ints[i].0,
                    ints.len() as int,
                ) == Some(i) && received_from(rs, ints[i].0, d) is Some {
                    received_from(rs, ints[i].0, d).unwrap()
                } else {
                    ints[i].2
                })
        }),
    decreases n,
{
    if n > 0 {
        lemma_apply_own_keys(ints, rs, d, n - 1);
        let acc = apply_received(ints, ints, rs, d, n - 1);
        let res = apply_received(ints, ints, rs, d, n);
        let key = ints[n - 1].0;
        let len = ints.len() as int;
        match received_from(rs, key, d) {
            Some(v) => {
                lemma_interaction_with_same_keys(acc, ints, key, len);
                lemma_interaction_with_first(ints, key, len);
                let f = interaction_with(ints, key, len).unwrap();
                assert(res == acc.update(f, (key, acc[f].1, v)));
                assert forall|i: int| 0 <= i < ints.len() implies (#[trigger] res[i]).2 == (if i < n && interaction_with(
                    ints,
                    ints[i].0,
                    len,
                ) == Some(i) && received_from(rs, ints[i].0, d) is Some {
                    received_from(rs, ints[i].0, d).unwrap()
                } else {
                    ints[i].2
                }) by {
                    if i != f && i == n - 1 {
                        assert(interaction_with(ints, ints[i].0, len) == Some(f));
                    }
                }
            },
            None => {
                assert(res == acc);
            },
        }
    }
}

/// With one report per player, the damage a player received from another
/// is the damage the other's report says it dealt to them: each
/// interaction keeps its other player and damage dealt, and the first
/// interaction with each player takes the damage that player's report
/// lists as dealt to this one, when it lists it.
pub proof fn law_received_is_dealt(rs: Seq<(i64, Option<Seq<(i64, u64, u64)>>)>, r: int)
    requires
        0 <= r < rs.len(),
        rs[r].1 is Some,
        forall|i: int, j: int| 0 <= i < j < rs.len() ==> #[trigger] rs[i].0 != #[trigger] rs[j].0,
    ensures
        ({
            let ints = rs[r].1.unwrap();
            let out = linked_interactions(rs, r).unwrap();
            &&& linked_interactions(rs, r) is Some
            &&& out.len() == ints.len()
            &&& forall|i: int| 0 <= i < ints.len() ==> (#[trigger] out[i]).0 == ints[i].0 && out[i].1 == ints[i].1
            &&& forall|i: int|
                0 <= i < ints.len() && interaction_with(ints, ints[i].0, ints.len() as int) == Some(i) ==> (
                #[trigger] out[i]).2 == match received_from(rs, ints[i].0, rs[r].0) {
                    Some(v) => v,
                    None => ints[i].2,
                }
        }),
{
    let ints = rs[r].1.unwrap();
    lemma_first_report_unique(rs, r, rs.len() as int);
    lemma_apply_own_keys(ints, rs, rs[r].0, ints.len() as int);
}

fn find_report(rs: &Vec<PlayerInteractions>, d: i64) -> (r: Option<usize>)
    ensures
        match r {
            Some(i) => first_report(players_view(rs@), d, rs@.len() as int) == Some(i as int),
            None => first_report(players_view(rs@), d, rs@.len() as int) is None,
        },
{
    let ghost v = players_view(rs@);
    let mut i: usize = 0;
    while i < rs.len()
        invariant
            i <= rs@.len(),
            v == players_view(rs@),
            first_report(v, d, i as int) is None,
        decreases rs@.len() - i,
    {
        assert(v[i as int] == player_view(rs@[i as int]));
        if rs[i].db_id == d {
            assert(first_report(v, d, i + 1) == Some(i as int));
            proof {
                lemma_first_report_settles(v, d, i + 1, rs@.len() as int);
            }
            return Some(i);
        }
        i = i + 1;
    }
    None
}

proof fn lemma_first_report_settles(rs: Seq<(i64, Option<Seq<(i64, u64, u64)>>)>, d: i64, n: int, m: int)
    requires
        n <= m,
        first_report(rs, d, n) is Some,
    ensures
        first_report(rs, d, m) == first_report(rs, d, n),
    decreases m - n,
{
    if n < m {
        lemma_first_report_settles(rs, d, n, m - 1);
    }
}

proof fn lemma_interaction_with_settles(ints: Seq<(i64, u64, u64)>, d: i64, n: int, m: int)
    requires
        n <= m,
        interaction_with(ints, d, n) is Some,
    ensures
        interaction_with(ints, d, m) == interaction_with(ints, d, n),
    decreases m - n,
{
    if n < m {
        lemma_interaction_with_settles(ints, d, n, m - 1);
    }
}

fn find_interaction(ints: &Vec<DamageInteraction>, d: i64) -> (r: Option<usize>)
    ensures
        match r {
            Some(i) => interaction_with(interactions_view(*ints), d, ints@.len() as int) == Some(i as int),
            None => interaction_with(interactions_view(*ints), d, ints@.len() as int) is None,
        },
{
    let ghost v = interactions_view(*ints);
    let mut i: usize = 0;
    while i < ints.len()
        invariant
            i <= ints@.len(),
            v == interactions_view(*ints),
            interaction_with(v, d, i as int) is None,
        decreases ints@.len() - i,
    {
        assert(v[i as int] == interaction_view(ints@[i as int]));
        if ints[i].other_player == d {
            assert(interaction_with(v, d, i + 1) == Some(i as int));
            proof {
                lemma_interaction_with_settles(v, d, i + 1, ints@.len() as int);
            }
            return Some(i);
        }
        i = i + 1;
    }
    None
}

fn find_last_listing(rs: &Vec<PlayerInteractions>, d: i64) -> (r: Option<usize>)
    ensures
        match r {
            Some(i) => last_listing_report(players_view(rs@), d, rs@.len() as int) == Some(i as int),
            None => last_listing_report(players_view(rs@), d, rs@.len() as int) is None,
        },
{
    let ghost v = players_view(rs@);
    let mut found: Option<usize> = None;
    let mut i: usize = 0;
    while i < rs.len()
        invariant
            i <= rs@.len(),
            v == players_view(rs@),
            match found {
                Some(j) => last_listing_report(v, d, i as int) == Some(j as int),
                None => last_listing_report(v, d, i as int) is None,
            },
        decreases rs@.len() - i,
    {
        assert(v[i as int] == player_view(rs@[i as int]));
        if rs[i].db_id == d && rs[i].interactions.is_some() {
            found = Some(i);
        }
        i = i + 1;
    }
    found
}

fn received_damage_from(rs: &Vec<PlayerInteractions>, pid: i64, d: i64) -> (r: Option<u64>)
    ensures
        r == received_from(players_view(rs@), pid, d),
{
    let ghost v = players_view(rs@);
    assert(v.len() == rs@.len());
    proof {
        lemma_first_report_bounds(v, pid, rs@.len() as int);
    }
    let found = find_report(rs, pid);
    if found.is_none() {
        return None;
    }
    let o = found.unwrap();
    assert(first_report(v, pid, v.len() as int) == Some(o as int));
    assert(v[o as int] == player_view(rs@[o as int]));
    if rs[o].interactions.is_none() {
        assert(v[o as int].1 is None);
        return None;
    }
    let oi = rs[o].interactions.as_ref().unwrap();
    let ghost oiv = interactions_view(*oi);
    assert(v[o as int].1 == Some(oiv));
    assert(oiv.len() == oi@.len());
    proof {
        lemma_interaction_with_bounds(oiv, d, oi@.len() as int);
    }
    match find_interaction(oi, d) {
        Some(j) => {
            assert(oiv[j as int] == interaction_view(oi@[j as int]));
            Some(oi[j].damage_dealt)
        },
        None => None,
    }
}

fn set_received_damage(ints: &mut Vec<DamageInteraction>, k: i64, v: u64)
    ensures
        interactions_view(*final(ints)) == set_received(interactions_view(*old(ints)), k, v),
{
    let ghost before = interactions_view(*ints);
    proof {
        lemma_interaction_with_bounds(before, k, ints@.len() as int);
    }
    match find_interaction(ints, k) {
        Some(j) => {
            assert(before[j as int] == interaction_view(ints@[j as int]));
            let dealt = ints[j].damage_dealt;
            ints.set(j, DamageInteraction { other_player: k, damage_dealt: dealt, damage_received: v });
            assert(interactions_view(*ints) =~= before.update(j as int, (k, before[j as int].1, v)));
        },
        None => {
            ints.push(DamageInteraction { other_player: k, damage_dealt: 0, damage_received: v });
            assert(interactions_view(*ints) =~= before.push((k, 0, v)));
        },
    }
}

fn apply_received_damage(
    ints: &mut Vec<DamageInteraction>,
    keys: &Vec<DamageInteraction>,
    rs: &Vec<PlayerInteractions>,
    d: i64,
)
    ensures
        interactions_view(*final(ints)) == apply_received(
            interactions_view(*old(ints)),
            interactions_view(*keys),
            players_view(rs@),
            d,
            keys@.len() as int,
        ),
{
    let ghost start = interactions_view(*ints);
    let ghost kv = interactions_view(*keys);
    let mut i: usize = 0;
    while i < keys.len()
        invariant
            i <= keys@.len(),
            kv == interactions_view(*keys),
            interactions_view(*ints) == apply_received(start, kv, players_view(rs@), d, i as int),
        decreases keys@.len() - i,
    {
        assert(kv[i as int] == interaction_view(keys@[i as int]));
        let pid = keys[i].other_player;
        match received_damage_from(rs, pid, d) {
            Some(v) => set_received_damage(ints, pid, v),
            None => {},
        }
        i = i + 1;
    }
}

/// Fills in the damage each player received from the others: a player's
/// report takes, for every player its interactions name, the damage that
/// player's report says it dealt to them. When several reports belong to
/// one player, the players named by the last of them that lists
/// interactions are asked, and the first of them receives the damage.
pub fn link_received_damage(reports: Vec<PlayerInteractions>) -> (r: Vec<PlayerInteractions>)
    ensures
        r@.len() == reports@.len(),
        forall|i: int|
            0 <= i < r@.len() ==> (#[trigger] r@[i]).db_id == reports@[i].db_id && player_view(r@[i]).1
                == linked_interactions(players_view(reports@), i),
{
    let ghost rv = players_view(reports@);
    let mut out: Vec<PlayerInteractions> = Vec::new();
    let mut i: usize = 0;
    while i < reports.len()
        invariant
            i <= reports@.len(),
            rv == players_view(reports@),
            out@.len() == i,
            forall|k: int|
                0 <= k < i ==> (#[trigger] out@[k]).db_id == reports@[k].db_id && player_view(out@[k]).1
                    == linked_interactions(rv, k),
        decreases reports@.len() - i,
    {
        assert(rv[i as int] == player_view(reports@[i as int]));
        let d = reports[i].db_id;
        let linked = match &reports[i].interactions {
            None => None,
            Some(ints) => {
                let mut mine = ints.clone();
                assert(mine@ == ints@);
                proof {
                    lemma_first_report_bounds(rv, d, reports@.len() as int);
                    lemma_last_listing_bounds(rv, d, reports@.len() as int);
                }
                let first = find_report(&reports, d);
                if first == Some(i) {
                    match find_last_listing(&reports, d) {
                        Some(l) => {
                            assert(rv[l as int] == player_view(reports@[l as int]));
                            match &reports[l].interactions {
                                Some(src) => apply_received_damage(&mut mine, src, &reports, d),
                                None => {},
                            }
                        },
                        None => {},
                    }
                }
                Some(mine)
            },
        };
        let ghost before = out@;
        out.push(PlayerInteractions { db_id: d, interactions: linked });
        proof {
            assert forall|k: int|
                0 <= k < i + 1 implies (#[trigger] out@[k]).db_id == reports@[k].db_id && player_view(out@[k]).1
                == linked_interactions(rv, k) by {
                if k < i {
                    assert(out@[k] == before[k]);
                }
            }
        }
        i = i + 1;
    }
    out
}

} // verus!
