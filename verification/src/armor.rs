//! The armor viewer's grouping of hull parts and its ship search.

use vstd::prelude::*;

use crate::mod_manager::{ascending_names, texts};
use crate::outside::{lowercase, to_lowercase, transliterate, transliterated};
use crate::text::{
    chars_of, compare_text, contains_chars, find_chars, first_occurrence, has_substring, lemma_lex_antisymmetric,
    lemma_lex_equal, lemma_lex_transitive, lex_compare, same_chars, same_text, sub_chars,
};

verus! {

/// `s` starts with `prefix`.
pub open spec fn starts_with(s: Seq<char>, prefix: Seq<char>) -> bool {
    s.len() >= prefix.len() && s.take(prefix.len() as int) == prefix
}

fn starts_with_text(s: &Vec<char>, prefix: &str) -> (r: bool)
    ensures
        r == starts_with(s@, prefix@),
{
    let p = chars_of(prefix);
    if p.len() > s.len() {
        return false;
    }
    let head = sub_chars(s, 0, p.len());
    assert(head@ =~= s@.take(p@.len() as int));
    same_chars(&head, &p)
}

/// A hull part name can be grouped: when it holds "[HP_", its last
/// character is one byte long in UTF-8, so that it can be cut off.
pub open spec fn groupable_part_name(name: Seq<char>) -> bool {
    first_occurrence(name, "[HP_"@) is Some ==> name.len() > 0 && (name.last() as u32) < 0x80
}

/// The group of a hull part, from the hard point its name holds in brackets
/// ("[HP_AGM1]": a main battery turret); a render set without a hard point
/// ("Hull", "Superstructure", "DeckHouse") forms a group named after itself.
pub open spec fn spec_hull_part_group(name: Seq<char>) -> Seq<char> {
    match first_occurrence(name, "[HP_"@) {
        None => name,
        Some(start) => {
            let hp = name.subrange(start + 1, name.len() - 1);
            if starts_with(hp, "HP_AGM"@) {
                "Main Battery"@
            } else if starts_with(hp, "HP_AGS"@) {
                "Secondary Battery"@
            } else if starts_with(hp, "HP_AGA"@) {
                "AA Guns"@
            } else if starts_with(hp, "HP_ATB"@) || starts_with(hp, "HP_AT_"@) {
                "Torpedoes"@
            } else {
                "Other"@
            }
        },
    }
}

/// The group of a hull part.
pub fn hull_part_group(name: &str) -> (r: String)
    requires
        groupable_part_name(name@),
    ensures
        r@ == spec_hull_part_group(name@),
{
    let chars = chars_of(name);
    let marker = chars_of("[HP_");
    match find_chars(&chars, &marker) {
        None => name.to_owned(),
        Some(start) => {
            let n = chars.len();
            proof {
                reveal_strlit("[HP_");
                assert(marker@.len() == 4);
                assert(start + 4 <= n);
            }
            let hp = sub_chars(&chars, start + 1, n - 1);
            let group = if starts_with_text(&hp, "HP_AGM") {
                "Main Battery"
            } else if starts_with_text(&hp, "HP_AGS") {
                "Secondary Battery"
            } else if starts_with_text(&hp, "HP_AGA") {
                "AA Guns"
            } else if starts_with_text(&hp, "HP_ATB") || starts_with_text(&hp, "HP_AT_") {
                "Torpedoes"
            } else {
                "Other"
            };
            group.to_owned()
        },
    }
}

/// The display position of a hull part group; 6 for an unknown group.
pub open spec fn spec_hull_group_order(group: Seq<char>) -> u32 {
    if group == "Hull"@ {
        0
    } else if group == "Main Battery"@ {
        1
    } else if group == "Secondary Battery"@ {
        2
    } else if group == "AA Guns"@ {
        3
    } else if group == "Torpedoes"@ {
        4
    } else if group == "Other"@ {
        5
    } else {
        6
    }
}

/// The display position of a hull part group.
pub fn hull_group_order(group: &str) -> (r: u32)
    ensures
        r == spec_hull_group_order(group@),
{
    if same_text(group, "Hull") {
        0
    } else if same_text(group, "Main Battery") {
        1
    } else if same_text(group, "Secondary Battery") {
        2
    } else if same_text(group, "AA Guns") {
        3
    } else if same_text(group, "Torpedoes") {
        4
    } else if same_text(group, "Other") {
        5
    } else {
        6
    }
}

/// Inserts `s` at its place among ascending names, unless it is there.
fn insert_sorted_unique(v: &mut Vec<String>, s: String)
    requires
        ascending_names(texts(old(v)@)),
    ensures
        ascending_names(texts(final(v)@)),
        forall|x: Seq<char>| #[trigger] texts(final(v)@).contains(x) <==> (texts(old(v)@).contains(x) || x == s@),
{
    let ghost before = texts(v@);
    let mut p: usize = 0;
    while p < v.len() && compare_text(v[p].as_str(), s.as_str()) < 0
        invariant
            p <= v@.len(),
            before == texts(v@),
            forall|i: int| 0 <= i < p ==> lex_compare(#[trigger] before[i], s@) < 0,
        decreases v@.len() - p,
    {
        p = p + 1;
    }
    if p < v.len() && same_text(v[p].as_str(), s.as_str()) {
        assert(before[p as int] == s@);
        return;
    }
    proof {
        if p < before.len() {
            lemma_lex_antisymmetric(before[p as int], s@);
            lemma_lex_equal(before[p as int], s@);
        }
        assert forall|i: int| p <= i < before.len() implies lex_compare(s@, #[trigger] before[i]) < 0 by {
            if i > p {
                lemma_lex_transitive(s@, before[p as int], before[i]);
            }
        }
    }
    let ghost sv = s@;
    v.insert(p, s);
    proof {
        let after = texts(v@);
        assert(after =~= before.insert(p as int, sv));
        assert forall|i: int, j: int| 0 <= i < j < after.len() implies lex_compare(#[trigger] after[i], #[trigger] after[j]) < 0 by {
            if j < p {
            } else if j == p {
            } else if i < p {
                assert(after[j] == before[j - 1]);
                lemma_lex_transitive(before[i], sv, before[j - 1]);
            } else if i == p {
                assert(after[j] == before[j - 1]);
            } else {
                assert(after[i] == before[i - 1] && after[j] == before[j - 1]);
            }
        }
        assert forall|x: Seq<char>| #[trigger] after.contains(x) <==> (before.contains(x) || x == sv) by {
            if after.contains(x) {
                let k = choose|k: int| 0 <= k < after.len() && after[k] == x;
                if k < p {
                    assert(before[k] == x);
                } else if k > p {
                    assert(before[k - 1] == x);
                }
            }
            if before.contains(x) {
                let k = choose|k: int| 0 <= k < before.len() && before[k] == x;
                if k < p {
                    assert(after[k] == x);
                } else {
                    assert(after[k + 1] == x);
                }
            }
            if x == sv {
                assert(after[p as int] == x);
            }
        }
    }
}

/// A group named `label` is among the groups.
pub open spec fn has_group(groups: Seq<(String, Vec<String>)>, label: Seq<char>) -> bool {
    exists|g: int| 0 <= g < groups.len() && groups[g].0@ == label
}

/// Group `a` is shown before group `b`: by display position, then by
/// name.
pub open spec fn group_before(a: Seq<char>, b: Seq<char>) -> bool {
    spec_hull_group_order(a) < spec_hull_group_order(b) || (spec_hull_group_order(a) == spec_hull_group_order(b)
        && lex_compare(a, b) < 0)
}

proof fn lemma_group_before_transitive(a: Seq<char>, b: Seq<char>, c: Seq<char>)
    requires
        group_before(a, b),
        group_before(b, c),
    ensures
        group_before(a, c),
{
    if spec_hull_group_order(a) == spec_hull_group_order(b) && spec_hull_group_order(b) == spec_hull_group_order(c) {
        lemma_lex_transitive(a, b, c);
    }
}

proof fn lemma_group_before_total(a: Seq<char>, b: Seq<char>)
    ensures
        a == b || group_before(a, b) || group_before(b, a),
        !group_before(a, a),
        !(group_before(a, b) && group_before(b, a)),
{
    lemma_lex_antisymmetric(a, b);
    lemma_lex_equal(a, b);
    lemma_lex_equal(a, a);
}

/// Group names strictly in display order.
pub open spec fn groups_in_order(s: Seq<Seq<char>>) -> bool {
    forall|i: int, j: int| 0 <= i < j < s.len() ==> group_before(#[trigger] s[i], #[trigger] s[j])
}

fn group_precedes(a: &str, b: &str) -> (r: bool)
    ensures
        r == group_before(a@, b@),
{
    let oa = hull_group_order(a);
    let ob = hull_group_order(b);
    oa < ob || (oa == ob && compare_text(a, b) < 0)
}

/// Inserts a group name at its place in display order, unless it is there.
fn insert_group_name(v: &mut Vec<String>, s: String)
    requires
        groups_in_order(texts(old(v)@)),
    ensures
        groups_in_order(texts(final(v)@)),
        forall|x: Seq<char>| #[trigger] texts(final(v)@).contains(x) <==> (texts(old(v)@).contains(x) || x == s@),
{
    let ghost before = texts(v@);
    let mut p: usize = 0;
    while p < v.len() && group_precedes(v[p].as_str(), s.as_str())
        invariant
            p <= v@.len(),
            before == texts(v@),
            forall|i: int| 0 <= i < p ==> group_before(#[trigger] before[i], s@),
        decreases v@.len() - p,
    {
        p = p + 1;
    }
    if p < v.len() && same_text(v[p].as_str(), s.as_str()) {
        assert(before[p as int] == s@);
        return;
    }
    proof {
        if p < before.len() {
            lemma_group_before_total(before[p as int], s@);
        }
        assert forall|i: int| p <= i < before.len() implies group_before(s@, #[trigger] before[i]) by {
            if i > p {
                lemma_group_before_transitive(s@, before[p as int], before[i]);
            }
        }
    }
    let ghost sv = s@;
    v.insert(p, s);
    proof {
        let after = texts(v@);
        assert(after =~= before.insert(p as int, sv));
        assert forall|i: int, j: int| 0 <= i < j < after.len() implies group_before(#[trigger] after[i], #[trigger] after[j]) by {
            if j < p {
            } else if j == p {
            } else if i < p {
                assert(after[j] == before[j - 1]);
                lemma_group_before_transitive(before[i], sv, before[j - 1]);
            } else if i == p {
                assert(after[j] == before[j - 1]);
            } else {
                assert(after[i] == before[i - 1] && after[j] == before[j - 1]);
            }
        }
        assert forall|x: Seq<char>| #[trigger] after.contains(x) <==> (before.contains(x) || x == sv) by {
            if after.contains(x) {
                let k = choose|k: int| 0 <= k < after.len() && after[k] == x;
                if k < p {
                    assert(before[k] == x);
                } else if k > p {
                    assert(before[k - 1] == x);
                }
            }
            if before.contains(x) {
                let k = choose|k: int| 0 <= k < before.len() && before[k] == x;
                if k < p {
                    assert(after[k] == x);
                } else {
                    assert(after[k + 1] == x);
                }
            }
            if x == sv {
                assert(after[p as int] == x);
            }
        }
    }
}

/// Some part among `parts` falls into group `g`.
pub open spec fn some_part_in(parts: Seq<Seq<char>>, g: Seq<char>) -> bool {
    exists|j: int| 0 <= j < parts.len() && spec_hull_part_group(#[trigger] parts[j]) == g
}

proof fn lemma_texts_push(v: Seq<String>, n: int, x: Seq<char>)
    requires
        0 <= n < v.len(),
    ensures
        texts(v.take(n + 1)).contains(x) <==> (texts(v.take(n)).contains(x) || x == v[n]@),
{
    let t = texts(v.take(n));
    let nm = v[n]@;
    assert(texts(v.take(n + 1)) =~= t.push(nm));
    if t.push(nm).contains(x) && x != nm {
        let k = choose|k: int| 0 <= k < t.push(nm).len() && t.push(nm)[k] == x;
        assert(t[k] == x);
    }
    if t.contains(x) {
        let k = choose|k: int| 0 <= k < t.len() && t[k] == x;
        assert(t.push(nm)[k] == x);
    }
    if x == nm {
        assert(t.push(nm)[t.len() as int] == x);
    }
}

/// The parts among `names` that fall into group `label`, distinct and in
/// ascending order.
fn group_members(names: &Vec<String>, label: &str) -> (r: Vec<String>)
    requires
        forall|i: int| 0 <= i < names@.len() ==> groupable_part_name(#[trigger] names@[i]@),
    ensures
        ascending_names(texts(r@)),
        forall|x: Seq<char>| #[trigger] texts(r@).contains(x) <==> (texts(names@).contains(x) && spec_hull_part_group(x)
            == label@),
{
    let mut members: Vec<String> = Vec::new();
    let mut i: usize = 0;
    while i < names.len()
        invariant
            i <= names@.len(),
            ascending_names(texts(members@)),
            forall|x: Seq<char>| #[trigger] texts(members@).contains(x) <==> (texts(names@.take(i as int)).contains(x)
                && spec_hull_part_group(x) == label@),
            forall|j: int| 0 <= j < names@.len() ==> groupable_part_name(#[trigger] names@[j]@),
        decreases names@.len() - i,
    {
        let g = hull_part_group(names[i].as_str());
        if same_text(g.as_str(), label) {
            let copy = names[i].clone();
            insert_sorted_unique(&mut members, copy);
        }
        proof {
            assert forall|x: Seq<char>| #[trigger] texts(names@.take(i + 1)).contains(x) <==> (texts(
                names@.take(i as int),
            ).contains(x) || x == names@[i as int]@) by {
                lemma_texts_push(names@, i as int, x);
            }
        }
        i = i + 1;
    }
    assert(names@.take(names@.len() as int) =~= names@);
    members
}

/// The hull parts grouped: each group that has parts, in display order
/// (groups at the same position by name), with the distinct part names in
/// ascending order. A part without a hard point forms a group named after
/// itself.
pub fn build_hull_part_groups(names: &Vec<String>) -> (r: Vec<(String, Vec<String>)>)
    requires
        forall|i: int| 0 <= i < names@.len() ==> groupable_part_name(#[trigger] names@[i]@),
    ensures
        forall|g: int| 0 <= g < r@.len() ==> ascending_names(texts(#[trigger] r@[g].1@)) && r@[g].1@.len() > 0,
        forall|g: int, x: Seq<char>|
            0 <= g < r@.len() ==> (#[trigger] texts(r@[g].1@).contains(x) <==> (texts(names@).contains(x)
                && spec_hull_part_group(x) == r@[g].0@)),
        forall|g1: int, g2: int| 0 <= g1 < g2 < r@.len() ==> group_before(#[trigger] r@[g1].0@, #[trigger] r@[g2].0@),
        forall|i: int| 0 <= i < names@.len() ==> has_group(r@, spec_hull_part_group(#[trigger] names@[i]@)),
{
    // The group names, in display order.
    let mut labels: Vec<String> = Vec::new();
    let mut i: usize = 0;
    while i < names.len()
        invariant
            i <= names@.len(),
            groups_in_order(texts(labels@)),
            forall|x: Seq<char>| #[trigger] texts(labels@).contains(x) <==> some_part_in(
                texts(names@.take(i as int)),
                x,
            ),
            forall|j: int| 0 <= j < names@.len() ==> groupable_part_name(#[trigger] names@[j]@),
        decreases names@.len() - i,
    {
        let g = hull_part_group(names[i].as_str());
        let ghost gv = g@;
        insert_group_name(&mut labels, g);
        proof {
            let t0 = texts(names@.take(i as int));
            let t1 = texts(names@.take(i + 1));
            assert(t1 =~= t0.push(names@[i as int]@));
            assert forall|x: Seq<char>| #[trigger] texts(labels@).contains(x) <==> some_part_in(t1, x) by {
                if some_part_in(t1, x) {
                    let j = choose|j: int| 0 <= j < t1.len() && spec_hull_part_group(#[trigger] t1[j]) == x;
                    if j < t0.len() {
                        assert(t0[j] == t1[j]);
                        assert(some_part_in(t0, x));
                    }
                }
                if some_part_in(t0, x) {
                    let j = choose|j: int| 0 <= j < t0.len() && spec_hull_part_group(#[trigger] t0[j]) == x;
                    assert(t1[j] == t0[j]);
                }
                if x == gv {
                    assert(t1[i as int] == names@[i as int]@);
                    assert(spec_hull_part_group(t1[i as int]) == x);
                }
            }
        }
        i = i + 1;
    }
    assert(names@.take(names@.len() as int) =~= names@);
    let ghost all = texts(names@);
    let mut groups: Vec<(String, Vec<String>)> = Vec::new();
    let mut k: usize = 0;
    while k < labels.len()
        invariant
            k <= labels@.len(),
            all == texts(names@),
            groups_in_order(texts(labels@)),
            forall|x: Seq<char>| #[trigger] texts(labels@).contains(x) <==> some_part_in(all, x),
            groups@.len() == k,
            forall|g: int| 0 <= g < k ==> (#[trigger] groups@[g]).0@ == labels@[g]@,
            forall|g: int| 0 <= g < groups@.len() ==> ascending_names(texts(#[trigger] groups@[g].1@)) && groups@[g].1@.len() > 0,
            forall|g: int, x: Seq<char>|
                0 <= g < groups@.len() ==> (#[trigger] texts(groups@[g].1@).contains(x) <==> (all.contains(x)
                    && spec_hull_part_group(x) == groups@[g].0@)),
            forall|j: int| 0 <= j < names@.len() ==> groupable_part_name(#[trigger] names@[j]@),
        decreases labels@.len() - k,
    {
        let members = group_members(names, labels[k].as_str());
        proof {
            let lv = labels@[k as int]@;
            assert(texts(labels@)[k as int] == lv);
            assert(texts(labels@).contains(lv));
            let j = choose|j: int| 0 <= j < all.len() && spec_hull_part_group(#[trigger] all[j]) == lv;
            assert(all.contains(all[j]));
            assert(texts(members@).contains(all[j]));
            assert(members@.len() > 0);
        }
        let ghost before = groups@;
        groups.push((labels[k].clone(), members));
        proof {
            assert forall|g: int| 0 <= g < groups@.len() implies (#[trigger] groups@[g]).0@ == labels@[g]@ by {
                if g < k {
                    assert(groups@[g] == before[g]);
                }
            }
        }
        k = k + 1;
    }
    proof {
        assert forall|g1: int, g2: int| 0 <= g1 < g2 < groups@.len() implies group_before(
            #[trigger] groups@[g1].0@,
            #[trigger] groups@[g2].0@,
        ) by {
            assert(texts(labels@)[g1] == labels@[g1]@);
            assert(texts(labels@)[g2] == labels@[g2]@);
        }
        assert forall|i: int| 0 <= i < names@.len() implies has_group(groups@, spec_hull_part_group(#[trigger] names@[i]@)) by {
            let gv = spec_hull_part_group(names@[i]@);
            assert(all[i] == names@[i]@);
            assert(some_part_in(all, gv));
            assert(texts(labels@).contains(gv));
            let g = choose|g: int| 0 <= g < texts(labels@).len() && texts(labels@)[g] == gv;
            assert(groups@[g].0@ == gv);
        }
    }
    groups
}

/// The text a ship search looks for: the query transliterated to ASCII and
/// lower-cased.
pub open spec fn search_text(query: Seq<char>) -> Seq<char> {
    lowercase(transliterated(query))
}

/// The indices of the first `n` catalog ships (search name, parameter index)
/// whose search name holds `search` and that are not compared yet.
pub open spec fn search_hits(ships: Seq<(Seq<char>, Seq<char>)>, search: Seq<char>, added: Seq<Seq<char>>, n: int) -> Seq<
    usize,
>
    decreases n,
{
    if n <= 0 {
        Seq::empty()
    } else {
        let rest = search_hits(ships, search, added, n - 1);
        if has_substring(ships[n - 1].0, search) && !added.contains(ships[n - 1].1) {
            rest.push((n - 1) as usize)
        } else {
            rest
        }
    }
}

/// The most results the comparison search lists.
pub const MAX_SEARCH_RESULTS: usize = 10;

/// The ships the comparison search offers for a query, as indices into the
/// catalog: the first ten whose search name holds the search text and that
/// are not compared yet.
pub fn comparison_search(query: &str, ships: &Vec<(String, String)>, already_added: &Vec<String>) -> (r: Vec<usize>)
    ensures
        ({
            let hits = search_hits(
                ships@.map_values(|s: (String, String)| (s.0@, s.1@)),
                search_text(query@),
                texts(already_added@),
                ships@.len() as int,
            );
            r@ == if hits.len() > MAX_SEARCH_RESULTS {
                hits.take(MAX_SEARCH_RESULTS as int)
            } else {
                hits
            }
        }),
{
    let ascii = transliterate(query);
    let lower = to_lowercase(ascii.as_str());
    let search = chars_of(lower.as_str());
    let ghost views = ships@.map_values(|s: (String, String)| (s.0@, s.1@));
    let mut results: Vec<usize> = Vec::new();
    let mut i: usize = 0;
    while i < ships.len()
        invariant
            i <= ships@.len(),
            views == ships@.map_values(|s: (String, String)| (s.0@, s.1@)),
            search@ == search_text(query@),
            results@ == search_hits(views, search@, texts(already_added@), i as int),
        decreases ships@.len() - i,
    {
        assert(views[i as int] == (ships@[i as int].0@, ships@[i as int].1@));
        let name = chars_of(ships[i].0.as_str());
        let hit = contains_chars(&name, &search) && !contains_text_in(already_added, ships[i].1.as_str());
        if hit {
            results.push(i);
        }
        i = i + 1;
    }
    results.truncate(MAX_SEARCH_RESULTS);
    assert(results@ =~= (if search_hits(views, search@, texts(already_added@), ships@.len() as int).len() > MAX_SEARCH_RESULTS {
        search_hits(views, search@, texts(already_added@), ships@.len() as int).take(MAX_SEARCH_RESULTS as int)
    } else {
        search_hits(views, search@, texts(already_added@), ships@.len() as int)
    }));
    results
}

/// A ship stays in the ship tree for a search: every ship with no search,
/// otherwise one whose search name holds the search text.
pub open spec fn shown_ship(name: Seq<char>, search: Seq<char>) -> bool {
    search.len() == 0 || has_substring(name, search)
}

/// The indices of the first `n` ships of a class that stay in the tree.
pub open spec fn tree_ships(ships: Seq<Seq<char>>, search: Seq<char>, n: int) -> Seq<usize>
    decreases n,
{
    if n <= 0 {
        Seq::empty()
    } else {
        let rest = tree_ships(ships, search, n - 1);
        if shown_ship(ships[n - 1], search) {
            rest.push((n - 1) as usize)
        } else {
            rest
        }
    }
}

/// The first `n` classes of a nation that stay in the tree, by index, each
/// with its ships that stay: with no search every class, otherwise those
/// with a ship that matches.
pub open spec fn tree_classes(classes: Seq<Seq<Seq<char>>>, search: Seq<char>, n: int) -> Seq<(usize, Seq<usize>)>
    decreases n,
{
    if n <= 0 {
        Seq::empty()
    } else {
        let rest = tree_classes(classes, search, n - 1);
        let ships = tree_ships(classes[n - 1], search, classes[n - 1].len() as int);
        if search.len() == 0 || ships.len() > 0 {
            rest.push(((n - 1) as usize, ships))
        } else {
            rest
        }
    }
}

/// The first `n` nations that stay in the tree, by index, each with its
/// classes that stay: with no search every nation, otherwise those with a
/// class that has a matching ship.
pub open spec fn tree_nations(nations: Seq<Seq<Seq<Seq<char>>>>, search: Seq<char>, n: int) -> Seq<
    (usize, Seq<(usize, Seq<usize>)>),
>
    decreases n,
{
    if n <= 0 {
        Seq::empty()
    } else {
        let rest = tree_nations(nations, search, n - 1);
        let classes = tree_classes(nations[n - 1], search, nations[n - 1].len() as int);
        if search.len() == 0 || classes.len() > 0 {
            rest.push(((n - 1) as usize, classes))
        } else {
            rest
        }
    }
}

/// The search names of a class's ships.
pub open spec fn ship_names(class: Vec<String>) -> Seq<Seq<char>> {
    class@.map_values(|s: String| s@)
}

/// The search names of a nation's ships, class by class.
pub open spec fn class_names(nation: Vec<Vec<String>>) -> Seq<Seq<Seq<char>>> {
    nation@.map_values(|c: Vec<String>| ship_names(c))
}

/// The search names of the catalog's ships, nation by nation.
pub open spec fn catalog_names(nations: Seq<Vec<Vec<String>>>) -> Seq<Seq<Seq<Seq<char>>>> {
    nations.map_values(|n: Vec<Vec<String>>| class_names(n))
}

pub open spec fn class_entry_view(e: (usize, Vec<usize>)) -> (usize, Seq<usize>) {
    (e.0, e.1@)
}

pub open spec fn nation_entry_view(e: (usize, Vec<(usize, Vec<usize>)>)) -> (usize, Seq<(usize, Seq<usize>)>) {
    (e.0, e.1@.map_values(|c: (usize, Vec<usize>)| class_entry_view(c)))
}

fn visible_ships(ships: &Vec<String>, search: &Vec<char>) -> (r: Vec<usize>)
    ensures
        r@ == tree_ships(ship_names(*ships), search@, ships@.len() as int),
{
    let ghost names = ship_names(*ships);
    let mut out: Vec<usize> = Vec::new();
    let mut i: usize = 0;
    while i < ships.len()
        invariant
            i <= ships@.len(),
            names == ship_names(*ships),
            out@ == tree_ships(names, search@, i as int),
        decreases ships@.len() - i,
    {
        assert(names[i as int] == ships@[i as int]@);
        let name = chars_of(ships[i].as_str());
        if search.len() == 0 || contains_chars(&name, search) {
            out.push(i);
        }
        i = i + 1;
    }
    out
}

fn visible_classes(classes: &Vec<Vec<String>>, search: &Vec<char>) -> (r: Vec<(usize, Vec<usize>)>)
    ensures
        r@.map_values(|c: (usize, Vec<usize>)| class_entry_view(c)) == tree_classes(
            class_names(*classes),
            search@,
            classes@.len() as int,
        ),
{
    let ghost names = class_names(*classes);
    let mut out: Vec<(usize, Vec<usize>)> = Vec::new();
    let mut i: usize = 0;
    while i < classes.len()
        invariant
            i <= classes@.len(),
            names == class_names(*classes),
            out@.map_values(|c: (usize, Vec<usize>)| class_entry_view(c)) == tree_classes(names, search@, i as int),
        decreases classes@.len() - i,
    {
        assert(names[i as int] == ship_names(classes@[i as int]));
        let ships = visible_ships(&classes[i], search);
        if search.len() == 0 || ships.len() > 0 {
            let ghost before = out@;
            out.push((i, ships));
            assert(out@.map_values(|c: (usize, Vec<usize>)| class_entry_view(c)) =~= before.map_values(
                |c: (usize, Vec<usize>)| class_entry_view(c),
            ).push(class_entry_view(out@[out@.len() - 1])));
        }
        i = i + 1;
    }
    out
}

/// The ship tree of the armor viewer for a query: the catalog, given as
/// nations of classes of ship search names, cut down to what stays for the
/// query transliterated to ASCII and lower-cased. With an empty query
/// everything stays; otherwise a ship stays when its search name holds the
/// search text, and a class or nation when something under it stays.
pub fn ship_tree_filter(query: &str, nations: &Vec<Vec<Vec<String>>>) -> (r: Vec<(usize, Vec<(usize, Vec<usize>)>)>)
    ensures
        r@.map_values(|e: (usize, Vec<(usize, Vec<usize>)>)| nation_entry_view(e)) == tree_nations(
            catalog_names(nations@),
            search_text(query@),
            nations@.len() as int,
        ),
{
    let ascii = transliterate(query);
    let lower = to_lowercase(ascii.as_str());
    let search = chars_of(lower.as_str());
    let ghost names = catalog_names(nations@);
    let mut out: Vec<(usize, Vec<(usize, Vec<usize>)>)> = Vec::new();
    let mut i: usize = 0;
    while i < nations.len()
        invariant
            i <= nations@.len(),
            names == catalog_names(nations@),
            search@ == search_text(query@),
            out@.map_values(|e: (usize, Vec<(usize, Vec<usize>)>)| nation_entry_view(e)) == tree_nations(
                names,
                search@,
                i as int,
            ),
        decreases nations@.len() - i,
    {
        assert(names[i as int] == class_names(nations@[i as int]));
        let classes = visible_classes(&nations[i], &search);
        if search.len() == 0 || classes.len() > 0 {
            let ghost before = out@;
            out.push((i, classes));
            assert(out@.map_values(|e: (usize, Vec<(usize, Vec<usize>)>)| nation_entry_view(e)) =~= before.map_values(
                |e: (usize, Vec<(usize, Vec<usize>)>)| nation_entry_view(e),
            ).push(nation_entry_view(out@[out@.len() - 1])));
        }
        i = i + 1;
    }
    out
}

fn contains_text_in(v: &Vec<String>, s: &str) -> (r: bool)
    ensures
        r == texts(v@).contains(s@),
{
    let mut i: usize = 0;
    while i < v.len()
        invariant
            i <= v@.len(),
            forall|k: int| 0 <= k < i ==> (#[trigger] v@[k])@ != s@,
        decreases v@.len() - i,
    {
        if same_text(v[i].as_str(), s) {
            assert(texts(v@)[i as int] == s@);
            return true;
        }
        i = i + 1;
    }
    false
}

} // verus!
