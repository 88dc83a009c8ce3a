//! The mod index: the mods published in the index, grouped into categories,
//! and the per-mod state (enabled, installed files) that survives an index
//! update.

use vstd::prelude::*;

use crate::outside::{lowercase, to_lowercase};
use crate::text::{
    chars_of, compare_text, contains_chars, has_substring, lemma_lex_antisymmetric, lemma_lex_equal, lemma_lex_transitive,
    lex_compare, pieces, same_text, split_chars, string_of,
};

verus! {

/// The views of a list of strings.
pub open spec fn texts(v: Seq<String>) -> Seq<Seq<char>> {
    v.map_values(|s: String| s@)
}

/// What the index says of a mod.
pub struct ModMeta {
    pub unique_id: Seq<char>,
    pub category: Seq<char>,
    pub author: Seq<char>,
    pub name: Seq<char>,
    pub description: Seq<char>,
    pub repo_url: Seq<char>,
    pub preview_images: Seq<Seq<char>>,
    pub discord_approval_url: Option<Seq<char>>,
    pub commit: Seq<char>,
    pub paths: Seq<Seq<char>>,
    pub dependencies: Seq<Seq<char>>,
}

/// A mod as the mod index describes it.
#[derive(Debug, Clone)]
pub struct IndexModInfo {
    unique_id: String,
    category: String,
    author: String,
    name: String,
    description: String,
    repo_url: String,
    preview_images: Vec<String>,
    discord_approval_url: Option<String>,
    commit: String,
    /// Paths to pull from the repository to install the mod.
    paths: Vec<String>,
    /// Unique ids of the mods this mod depends on.
    dependencies: Vec<String>,
}

impl View for IndexModInfo {
    type V = ModMeta;

    closed spec fn view(&self) -> ModMeta {
        ModMeta {
            unique_id: self.unique_id@,
            category: self.category@,
            author: self.author@,
            name: self.name@,
            description: self.description@,
            repo_url: self.repo_url@,
            preview_images: texts(self.preview_images@),
            discord_approval_url: match self.discord_approval_url {
                Some(u) => Some(u@),
                None => None,
            },
            commit: self.commit@,
            paths: texts(self.paths@),
            dependencies: texts(self.dependencies@),
        }
    }
}

fn copy_texts(v: &Vec<String>) -> (r: Vec<String>)
    ensures
        texts(r@) == texts(v@),
{
    let mut out: Vec<String> = Vec::new();
    let mut i: usize = 0;
    while i < v.len()
        invariant
            i <= v@.len(),
            out@.len() == i,
            forall|k: int| 0 <= k < i ==> (#[trigger] out@[k])@ == v@[k]@,
        decreases v@.len() - i,
    {
        let c = v[i].clone();
        out.push(c);
        i = i + 1;
    }
    assert(texts(out@) =~= texts(v@));
    out
}

impl IndexModInfo {
    /// A mod description with every field given.
    pub fn new(
        unique_id: String,
        category: String,
        author: String,
        name: String,
        description: String,
        repo_url: String,
        preview_images: Vec<String>,
        discord_approval_url: Option<String>,
        commit: String,
        paths: Vec<String>,
        dependencies: Vec<String>,
    ) -> (r: IndexModInfo)
        ensures
            r@.unique_id == unique_id@,
            r@.category == category@,
            r@.author == author@,
            r@.name == name@,
            r@.description == description@,
            r@.repo_url == repo_url@,
            r@.preview_images == texts(preview_images@),
            r@.discord_approval_url == (match discord_approval_url {
                Some(u) => Some(u@),
                None => None,
            }),
            r@.commit == commit@,
            r@.paths == texts(paths@),
            r@.dependencies == texts(dependencies@),
    {
        IndexModInfo {
            unique_id,
            category,
            author,
            name,
            description,
            repo_url,
            preview_images,
            discord_approval_url,
            commit,
            paths,
            dependencies,
        }
    }

    /// A copy of the description.
    pub fn duplicate(&self) -> (r: IndexModInfo)
        ensures
            r@ == self@,
    {
        let discord_approval_url = match &self.discord_approval_url {
            Some(u) => Some(u.clone()),
            None => None,
        };
        IndexModInfo {
            unique_id: self.unique_id.clone(),
            category: self.category.clone(),
            author: self.author.clone(),
            name: self.name.clone(),
            description: self.description.clone(),
            repo_url: self.repo_url.clone(),
            preview_images: copy_texts(&self.preview_images),
            discord_approval_url,
            commit: self.commit.clone(),
            paths: copy_texts(&self.paths),
            dependencies: copy_texts(&self.dependencies),
        }
    }

    pub fn name(&self) -> (r: &str)
        ensures
            r@ == self@.name,
    {
        self.name.as_str()
    }

    pub fn description(&self) -> (r: &str)
        ensures
            r@ == self@.description,
    {
        self.description.as_str()
    }

    pub fn repo_url(&self) -> (r: &str)
        ensures
            r@ == self@.repo_url,
    {
        self.repo_url.as_str()
    }

    pub fn preview_images(&self) -> (r: &Vec<String>)
        ensures
            texts(r@) == self@.preview_images,
    {
        &self.preview_images
    }

    pub fn discord_approval_url(&self) -> (r: Option<&String>)
        ensures
            match r {
                Some(u) => self@.discord_approval_url == Some(u@),
                None => self@.discord_approval_url is None,
            },
    {
        self.discord_approval_url.as_ref()
    }

    pub fn unique_id(&self) -> (r: &str)
        ensures
            r@ == self@.unique_id,
    {
        self.unique_id.as_str()
    }

    pub fn category(&self) -> (r: &str)
        ensures
            r@ == self@.category,
    {
        self.category.as_str()
    }

    pub fn author(&self) -> (r: &str)
        ensures
            r@ == self@.author,
    {
        self.author.as_str()
    }

    pub fn commit(&self) -> (r: &str)
        ensures
            r@ == self@.commit,
    {
        self.commit.as_str()
    }

    pub fn paths(&self) -> (r: &Vec<String>)
        ensures
            texts(r@) == self@.paths,
    {
        &self.paths
    }

    pub fn dependencies(&self) -> (r: &Vec<String>)
        ensures
            texts(r@) == self@.dependencies,
    {
        &self.dependencies
    }
}

/// A mod with its local state.
#[derive(Debug)]
pub struct ModInfo {
    /// Whether the mod is enabled.
    pub enabled: bool,
    /// The files written when the mod was installed.
    pub mod_paths: Vec<String>,
    pub meta: IndexModInfo,
}

/// What a mod entry holds, as plain values.
pub open spec fn mod_view(m: ModInfo) -> (bool, Seq<Seq<char>>, ModMeta) {
    (m.enabled, texts(m.mod_paths@), m.meta@)
}

impl ModInfo {
    /// Takes the index description of `other`, keeping this mod's state.
    pub fn update_meta(&mut self, other: &ModInfo)
        ensures
            final(self).meta@ == other.meta@,
            final(self).enabled == old(self).enabled,
            final(self).mod_paths@ == old(self).mod_paths@,
    {
        self.meta = other.meta.duplicate();
    }

    /// Whether the mod list shows this mod under the filter text: always
    /// for an empty filter, otherwise when the lower-cased name contains the
    /// lower-cased filter and the lower-cased author does not.
    pub fn shown_under_filter(&self, filter: &str) -> (r: bool)
        ensures
            r == (filter@.len() == 0 || (has_substring(lowercase(self.meta@.name), lowercase(filter@))
                && !has_substring(lowercase(self.meta@.author), lowercase(filter@)))),
    {
        if filter.is_empty() {
            return true;
        }
        let f = chars_of(to_lowercase(filter).as_str());
        let name = chars_of(to_lowercase(self.meta.name.as_str()).as_str());
        let author = chars_of(to_lowercase(self.meta.author.as_str()).as_str());
        contains_chars(&name, &f) && !contains_chars(&author, &f)
    }
}

/// The published mod index.
#[derive(Debug)]
pub struct ModManagerIndex {
    pub mods: Vec<IndexModInfo>,
}

/// A category of mods below a top-level group.
#[derive(Debug)]
pub struct ModManagerCategory {
    pub name: String,
    pub enabled: bool,
    pub mods: Vec<ModInfo>,
}

/// The top-level group and the category a mod's category text names
/// ("group/category", anything after a second '/' ignored); `None` without
/// a '/'.
pub open spec fn category_key(category: Seq<char>) -> Option<(Seq<char>, Seq<char>)> {
    let p = pieces(category, '/');
    if p.len() >= 2 {
        Some((p[0], p[1]))
    } else {
        None
    }
}

/// The mods of a list of categories, in order.
pub open spec fn category_mods(cs: Seq<ModManagerCategory>) -> Seq<ModInfo>
    decreases cs.len(),
{
    if cs.len() == 0 {
        Seq::empty()
    } else {
        category_mods(cs.drop_last()) + cs.last().mods@
    }
}

/// The mods of all groups, in order.
pub open spec fn all_mods(groups: Seq<(String, Vec<ModManagerCategory>)>) -> Seq<ModInfo>
    decreases groups.len(),
{
    if groups.len() == 0 {
        Seq::empty()
    } else {
        all_mods(groups.drop_last()) + category_mods(groups.last().1@)
    }
}

/// The name and the enabled flag of a list of categories, in order.
pub open spec fn category_states(cs: Seq<ModManagerCategory>) -> Seq<(Seq<char>, bool)>
    decreases cs.len(),
{
    if cs.len() == 0 {
        Seq::empty()
    } else {
        category_states(cs.drop_last()).push((cs.last().name@, cs.last().enabled))
    }
}

/// The name and the enabled flag of every category of all groups, in order.
pub open spec fn all_category_states(groups: Seq<(String, Vec<ModManagerCategory>)>) -> Seq<(Seq<char>, bool)>
    decreases groups.len(),
{
    if groups.len() == 0 {
        Seq::empty()
    } else {
        all_category_states(groups.drop_last()) + category_states(groups.last().1@)
    }
}

/// The last mod of `ms` with this unique id.
pub open spec fn last_with_id(ms: Seq<ModInfo>, uid: Seq<char>) -> Option<ModInfo>
    decreases ms.len(),
{
    if ms.len() == 0 {
        None
    } else if ms.last().meta@.unique_id == uid {
        Some(ms.last())
    } else {
        last_with_id(ms.drop_last(), uid)
    }
}

/// The flag of the last category state with this name.
pub open spec fn last_state(states: Seq<(Seq<char>, bool)>, name: Seq<char>) -> Option<bool>
    decreases states.len(),
{
    if states.len() == 0 {
        None
    } else if states.last().0 == name {
        Some(states.last().1)
    } else {
        last_state(states.drop_last(), name)
    }
}

/// The mod has a group and a category.
pub open spec fn keyed(m: ModMeta) -> bool {
    category_key(m.category) is Some
}

/// No earlier mod with a group and a category has the unique id of mod `k`.
pub open spec fn first_of_id(new: Seq<ModMeta>, k: int) -> bool {
    forall|j: int| 0 <= j < k && keyed(new[j]) ==> new[j].unique_id != new[k].unique_id
}

/// The state mod `k` of the index takes over: the enabled flag and the
/// installed files of the last previous mod with its unique id, for the
/// first such mod of the index; nothing for a later one.
pub open spec fn carried(old: Seq<ModInfo>, new: Seq<ModMeta>, k: int) -> (bool, Seq<Seq<char>>) {
    if first_of_id(new, k) {
        match last_with_id(old, new[k].unique_id) {
            Some(m) => (m.enabled, texts(m.mod_paths@)),
            None => (false, Seq::empty()),
        }
    } else {
        (false, Seq::empty())
    }
}

/// A mod of the new index takes its state by its unique id alone, whatever
/// category it or the earlier mod names: the first mod with a group and a
/// category that carries a unique id takes the enabled flag and the
/// installed files of the last earlier mod with that id, and starts
/// disabled with no files when there is none; a later mod with the same id
/// starts disabled with no files.
pub proof fn law_state_follows_unique_id(old: Seq<ModInfo>, new: Seq<ModMeta>, k: int)
    requires
        0 <= k < new.len(),
    ensures
        forall|i: int|
            0 <= i < old.len() && first_of_id(new, k) && (#[trigger] old[i]).meta@.unique_id == new[k].unique_id && (
            forall|j: int| i < j < old.len() ==> (#[trigger] old[j]).meta@.unique_id != new[k].unique_id) ==> carried(
                old,
                new,
                k,
            ) == (old[i].enabled, texts(old[i].mod_paths@)),
        first_of_id(new, k) && (forall|j: int| 0 <= j < old.len() ==> (#[trigger] old[j]).meta@.unique_id
            != new[k].unique_id) ==> carried(old, new, k) == (false, Seq::<Seq<char>>::empty()),
        !first_of_id(new, k) ==> carried(old, new, k) == (false, Seq::<Seq<char>>::empty()),
{
    assert forall|i: int|
        0 <= i < old.len() && first_of_id(new, k) && (#[trigger] old[i]).meta@.unique_id == new[k].unique_id && (
        forall|j: int| i < j < old.len() ==> (#[trigger] old[j]).meta@.unique_id != new[k].unique_id) implies carried(
        old,
        new,
        k,
    ) == (old[i].enabled, texts(old[i].mod_paths@)) by {
        lemma_last_with_id_at(old, new[k].unique_id, i);
    }
    if forall|j: int| 0 <= j < old.len() ==> (#[trigger] old[j]).meta@.unique_id != new[k].unique_id {
        lemma_last_with_id_none(old, new[k].unique_id);
    }
}

/// An index entry: group, category, and the mod with its state.
pub type EntryView = (Seq<char>, Seq<char>, (bool, Seq<Seq<char>>, ModMeta));

/// The first `n` mods of the index that have a group and a category, with
/// the state they take over, in index order.
pub open spec fn index_entries(old: Seq<ModInfo>, new: Seq<ModMeta>, n: int) -> Seq<EntryView>
    decreases n,
{
    if n <= 0 {
        Seq::empty()
    } else {
        let rest = index_entries(old, new, n - 1);
        match category_key(new[n - 1].category) {
            Some((g, c)) => rest.push((g, c, (carried(old, new, n - 1).0, carried(old, new, n - 1).1, new[n - 1]))),
            None => rest,
        }
    }
}

/// The mods of the entries in group `g` and category `c`, in order.
pub open spec fn members(entries: Seq<EntryView>, g: Seq<char>, c: Seq<char>) -> Seq<(bool, Seq<Seq<char>>, ModMeta)>
    decreases entries.len(),
{
    if entries.len() == 0 {
        Seq::empty()
    } else {
        let rest = members(entries.drop_last(), g, c);
        if entries.last().0 == g && entries.last().1 == c {
            rest.push(entries.last().2)
        } else {
            rest
        }
    }
}

/// Names in strictly ascending order.
pub open spec fn ascending_names(s: Seq<Seq<char>>) -> bool {
    forall|i: int, j: int| 0 <= i < j < s.len() ==> lex_compare(#[trigger] s[i], #[trigger] s[j]) < 0
}

pub open spec fn group_names(groups: Seq<(String, Vec<ModManagerCategory>)>) -> Seq<Seq<char>> {
    groups.map_values(|g: (String, Vec<ModManagerCategory>)| g.0@)
}

pub open spec fn category_names(cs: Seq<ModManagerCategory>) -> Seq<Seq<char>> {
    cs.map_values(|c: ModManagerCategory| c.name@)
}

/// The categories built from the entries: groups and categories sorted by
/// name, every group holding at least one category, each category holding the mods of its entries in index order and
/// enabled as the last previous category named like the category text of
/// its first mod was (enabled when there is none), and every entry placed.
pub open spec fn built_from(
    groups: Seq<(String, Vec<ModManagerCategory>)>,
    entries: Seq<EntryView>,
    states: Seq<(Seq<char>, bool)>,
) -> bool {
    &&& ascending_names(group_names(groups))
    &&& forall|g: int| 0 <= g < groups.len() ==> (#[trigger] groups[g].1@).len() > 0
    &&& forall|g: int| 0 <= g < groups.len() ==> ascending_names(category_names(#[trigger] groups[g].1@))
    &&& forall|g: int, c: int|
        0 <= g < groups.len() && 0 <= c < groups[g].1@.len() ==> {
            let cat = #[trigger] groups[g].1@[c];
            let ms = members(entries, groups[g].0@, cat.name@);
            &&& cat.mods@.map_values(|m: ModInfo| mod_view(m)) == ms
            &&& ms.len() > 0
            &&& cat.enabled == match last_state(states, ms[0].2.category) {
                Some(b) => b,
                None => true,
            }
        }
    &&& forall|i: int|
        0 <= i < entries.len() ==> exists|g: int, c: int|
            0 <= g < groups.len() && 0 <= c < groups[g].1@.len() && #[trigger] entries[i].0 == groups[g].0@
                && entries[i].1 == #[trigger] groups[g].1@[c].name@
}

proof fn lemma_members_push(entries: Seq<EntryView>, e: EntryView, g: Seq<char>, c: Seq<char>)
    ensures
        members(entries.push(e), g, c) == if e.0 == g && e.1 == c {
            members(entries, g, c).push(e.2)
        } else {
            members(entries, g, c)
        },
{
    assert(entries.push(e).drop_last() =~= entries);
}

/// Without an entry in `g`/`c` there is no member.
proof fn lemma_members_absent(entries: Seq<EntryView>, g: Seq<char>, c: Seq<char>)
    requires
        forall|i: int| 0 <= i < entries.len() ==> !(#[trigger] entries[i].0 == g && entries[i].1 == c),
    ensures
        members(entries, g, c).len() == 0,
    decreases entries.len(),
{
    if entries.len() > 0 {
        let rest = entries.drop_last();
        assert forall|i: int| 0 <= i < rest.len() implies !(#[trigger] rest[i].0 == g && rest[i].1 == c) by {
            assert(rest[i] == entries[i]);
        }
        lemma_members_absent(rest, g, c);
        assert(entries[entries.len() - 1] == entries.last());
    }
}

/// Distinct positions of an ascending name list hold distinct names.
proof fn lemma_ascending_distinct(s: Seq<Seq<char>>, i: int, j: int)
    requires
        ascending_names(s),
        0 <= i < s.len(),
        0 <= j < s.len(),
        i != j,
    ensures
        s[i] != s[j],
{
    if i < j {
        assert(lex_compare(s[i], s[j]) < 0);
        lemma_lex_equal(s[i], s[j]);
    } else {
        assert(lex_compare(s[j], s[i]) < 0);
        lemma_lex_equal(s[j], s[i]);
    }
}

/// Inserting a name at a position between its smaller and its larger
/// neighbours keeps a list ascending.
proof fn lemma_ascending_insert(s: Seq<Seq<char>>, p: int, name: Seq<char>)
    requires
        ascending_names(s),
        0 <= p <= s.len(),
        forall|i: int| 0 <= i < p ==> lex_compare(#[trigger] s[i], name) < 0,
        forall|i: int| p <= i < s.len() ==> lex_compare(name, #[trigger] s[i]) < 0,
    ensures
        ascending_names(s.insert(p, name)),
{
    let t = s.insert(p, name);
    assert forall|i: int, j: int| 0 <= i < j < t.len() implies lex_compare(#[trigger] t[i], #[trigger] t[j]) < 0 by {
        if j < p {
            assert(t[i] == s[i] && t[j] == s[j]);
        } else if j == p {
            assert(t[i] == s[i]);
        } else if i < p {
            assert(t[i] == s[i] && t[j] == s[j - 1]);
            lemma_lex_transitive(s[i], name, s[j - 1]);
        } else if i == p {
            assert(t[j] == s[j - 1]);
        } else {
            assert(t[i] == s[i - 1] && t[j] == s[j - 1]);
        }
    }
}

/// The position of `name` among the group names: where it is, or where it
/// belongs.
fn group_position(groups: &Vec<(String, Vec<ModManagerCategory>)>, name: &str) -> (r: (usize, bool))
    requires
        ascending_names(group_names(groups@)),
    ensures
        r.0 <= groups@.len(),
        r.1 ==> r.0 < groups@.len() && groups@[r.0 as int].0@ == name@,
        !r.1 ==> (forall|i: int| 0 <= i < r.0 ==> lex_compare(#[trigger] groups@[i].0@, name@) < 0) && (forall|i: int|
            r.0 <= i < groups@.len() ==> lex_compare(name@, #[trigger] groups@[i].0@) < 0),
{
    let mut p: usize = 0;
    while p < groups.len() && compare_text(groups[p].0.as_str(), name) < 0
        invariant
            p <= groups@.len(),
            forall|i: int| 0 <= i < p ==> lex_compare(#[trigger] groups@[i].0@, name@) < 0,
        decreases groups@.len() - p,
    {
        p = p + 1;
    }
    if p < groups.len() && same_text(groups[p].0.as_str(), name) {
        return (p, true);
    }
    proof {
        if p < groups@.len() {
            lemma_lex_antisymmetric(groups@[p as int].0@, name@);
            lemma_lex_equal(groups@[p as int].0@, name@);
            assert forall|i: int| p <= i < groups@.len() implies lex_compare(name@, #[trigger] groups@[i].0@) < 0 by {
                if i > p {
                    assert(lex_compare(group_names(groups@)[p as int], group_names(groups@)[i]) < 0);
                    lemma_lex_transitive(name@, groups@[p as int].0@, groups@[i].0@);
                }
            }
        }
    }
    (p, false)
}

/// The position of `name` among the category names: where it is, or where
/// it belongs.
fn category_position(cats: &Vec<ModManagerCategory>, name: &str) -> (r: (usize, bool))
    requires
        ascending_names(category_names(cats@)),
    ensures
        r.0 <= cats@.len(),
        r.1 ==> r.0 < cats@.len() && cats@[r.0 as int].name@ == name@,
        !r.1 ==> (forall|i: int| 0 <= i < r.0 ==> lex_compare(#[trigger] cats@[i].name@, name@) < 0) && (forall|i: int|
            r.0 <= i < cats@.len() ==> lex_compare(name@, #[trigger] cats@[i].name@) < 0),
{
    let mut p: usize = 0;
    while p < cats.len() && compare_text(cats[p].name.as_str(), name) < 0
        invariant
            p <= cats@.len(),
            forall|i: int| 0 <= i < p ==> lex_compare(#[trigger] cats@[i].name@, name@) < 0,
        decreases cats@.len() - p,
    {
        p = p + 1;
    }
    if p < cats.len() && same_text(cats[p].name.as_str(), name) {
        return (p, true);
    }
    proof {
        if p < cats@.len() {
            lemma_lex_antisymmetric(cats@[p as int].name@, name@);
            lemma_lex_equal(cats@[p as int].name@, name@);
            assert forall|i: int| p <= i < cats@.len() implies lex_compare(name@, #[trigger] cats@[i].name@) < 0 by {
                if i > p {
                    assert(lex_compare(category_names(cats@)[p as int], category_names(cats@)[i]) < 0);
                    lemma_lex_transitive(name@, cats@[p as int].name@, cats@[i].name@);
                }
            }
        }
    }
    (p, false)
}

/// The enabled flag a new category takes: that of the last previous
/// category named like the category text of its first mod, or enabled.
pub open spec fn initial_enabled(states: Seq<(Seq<char>, bool)>, first: (bool, Seq<Seq<char>>, ModMeta)) -> bool {
    match last_state(states, first.2.category) {
        Some(b) => b,
        None => true,
    }
}

/// Adding a mod to the category its entry names keeps the categories built
/// from the entries.
#[verifier::spinoff_prover]
proof fn lemma_place_in_category(
    groups: Seq<(String, Vec<ModManagerCategory>)>,
    groups2: Seq<(String, Vec<ModManagerCategory>)>,
    entries: Seq<EntryView>,
    states: Seq<(Seq<char>, bool)>,
    e: EntryView,
    p: int,
    q: int,
    m: ModInfo,
)
    requires
        built_from(groups, entries, states),
        0 <= p < groups.len(),
        0 <= q < groups[p].1@.len(),
        e.0 == groups[p].0@,
        e.1 == groups[p].1@[q].name@,
        mod_view(m) == e.2,
        groups2.len() == groups.len(),
        forall|g: int| 0 <= g < groups.len() && g != p ==> groups2[g] == groups[g],
        groups2[p].0 == groups[p].0,
        groups2[p].1@.len() == groups[p].1@.len(),
        forall|c: int| 0 <= c < groups[p].1@.len() && c != q ==> groups2[p].1@[c] == groups[p].1@[c],
        groups2[p].1@[q].name == groups[p].1@[q].name,
        groups2[p].1@[q].enabled == groups[p].1@[q].enabled,
        groups2[p].1@[q].mods@ == groups[p].1@[q].mods@.push(m),
    ensures
        built_from(groups2, entries.push(e), states),
{
    let entries2 = entries.push(e);
    assert(group_names(groups2) =~= group_names(groups));
    assert forall|g: int| 0 <= g < groups2.len() implies (#[trigger] groups2[g].1@).len() > 0 by {
        assert(groups[g].1@.len() > 0);
    }
    assert forall|g: int| 0 <= g < groups2.len() implies ascending_names(category_names(#[trigger] groups2[g].1@)) by {
        if g == p {
            assert(category_names(groups2[p].1@) =~= category_names(groups[p].1@));
        }
        assert(ascending_names(category_names(groups[g].1@)));
    }
    assert forall|g: int, c: int| 0 <= g < groups2.len() && 0 <= c < groups2[g].1@.len() implies {
        let cat = #[trigger] groups2[g].1@[c];
        let ms = members(entries2, groups2[g].0@, cat.name@);
        &&& cat.mods@.map_values(|m: ModInfo| mod_view(m)) == ms
        &&& ms.len() > 0
        &&& cat.enabled == match last_state(states, ms[0].2.category) {
            Some(b) => b,
            None => true,
        }
    } by {
        let cat = groups[g].1@[c];
        let old_ms = members(entries, groups[g].0@, cat.name@);
        lemma_members_push(entries, e, groups[g].0@, cat.name@);
        assert(cat.mods@.map_values(|m: ModInfo| mod_view(m)) == old_ms && old_ms.len() > 0);
        if g == p && c == q {
            assert(groups2[g].1@[c].mods@.map_values(|m: ModInfo| mod_view(m)) =~= old_ms.push(e.2));
            assert(old_ms.push(e.2)[0] == old_ms[0]);
        } else {
            assert(groups2[g].1@[c] == cat);
            if g == p {
                lemma_ascending_distinct(category_names(groups[p].1@), c, q);
                assert(category_names(groups[p].1@)[c] == cat.name@);
            } else {
                lemma_ascending_distinct(group_names(groups), g, p);
                assert(group_names(groups)[g] == groups[g].0@);
            }
        }
    }
    assert forall|i: int| 0 <= i < entries2.len() implies exists|g: int, c: int|
        0 <= g < groups2.len() && 0 <= c < groups2[g].1@.len() && #[trigger] entries2[i].0 == groups2[g].0@
            && entries2[i].1 == #[trigger] groups2[g].1@[c].name@ by {
        if i < entries.len() {
            assert(entries2[i] == entries[i]);
            let (g, c) = choose|g: int, c: int|
                0 <= g < groups.len() && 0 <= c < groups[g].1@.len() && #[trigger] entries[i].0 == groups[g].0@
                    && entries[i].1 == #[trigger] groups[g].1@[c].name@;
            if g == p {
                assert(groups2[g].1@[c].name == groups[g].1@[c].name);
            } else {
                assert(groups2[g] == groups[g]);
            }
            assert(entries2[i].0 == groups2[g].0@ && entries2[i].1 == groups2[g].1@[c].name@);
        } else {
            assert(entries2[i] == e);
            assert(entries2[i].0 == groups2[p].0@ && entries2[i].1 == groups2[p].1@[q].name@);
        }
    }
}

/// An entry whose group and category no built category has contributes no
/// member to any category before it.
proof fn lemma_new_key_has_no_members(
    groups: Seq<(String, Vec<ModManagerCategory>)>,
    entries: Seq<EntryView>,
    states: Seq<(Seq<char>, bool)>,
    g: Seq<char>,
    c: Seq<char>,
)
    requires
        built_from(groups, entries, states),
        forall|x: int, y: int|
            0 <= x < groups.len() && 0 <= y < groups[x].1@.len() ==> !(#[trigger] groups[x].0@ == g
                && #[trigger] groups[x].1@[y].name@ == c),
    ensures
        members(entries, g, c).len() == 0,
{
    assert forall|i: int| 0 <= i < entries.len() implies !(#[trigger] entries[i].0 == g && entries[i].1 == c) by {
        let (x, y) = choose|x: int, y: int|
            0 <= x < groups.len() && 0 <= y < groups[x].1@.len() && #[trigger] entries[i].0 == groups[x].0@
                && entries[i].1 == #[trigger] groups[x].1@[y].name@;
        assert(!(groups[x].0@ == g && groups[x].1@[y].name@ == c));
    }
    lemma_members_absent(entries, g, c);
}

/// Adding a new category, at its place among the categories of the group
/// its entry names, keeps the categories built from the entries.
#[verifier::spinoff_prover]
proof fn lemma_place_new_category(
    groups: Seq<(String, Vec<ModManagerCategory>)>,
    groups2: Seq<(String, Vec<ModManagerCategory>)>,
    entries: Seq<EntryView>,
    states: Seq<(Seq<char>, bool)>,
    e: EntryView,
    p: int,
    q: int,
    cat: ModManagerCategory,
    m: ModInfo,
)
    requires
        built_from(groups, entries, states),
        0 <= p < groups.len(),
        e.0 == groups[p].0@,
        0 <= q <= groups[p].1@.len(),
        forall|c: int| 0 <= c < q ==> lex_compare(#[trigger] groups[p].1@[c].name@, e.1) < 0,
        forall|c: int| q <= c < groups[p].1@.len() ==> lex_compare(e.1, #[trigger] groups[p].1@[c].name@) < 0,
        cat.name@ == e.1,
        cat.mods@ == seq![m],
        mod_view(m) == e.2,
        cat.enabled == initial_enabled(states, e.2),
        groups2.len() == groups.len(),
        forall|g: int| 0 <= g < groups.len() && g != p ==> groups2[g] == groups[g],
        groups2[p].0 == groups[p].0,
        groups2[p].1@ == groups[p].1@.insert(q, cat),
    ensures
        built_from(groups2, entries.push(e), states),
{
    let entries2 = entries.push(e);
    let cats = groups[p].1@;
    assert(group_names(groups2) =~= group_names(groups));
    assert forall|x: int, y: int|
        0 <= x < groups.len() && 0 <= y < groups[x].1@.len() implies !(#[trigger] groups[x].0@ == e.0
        && #[trigger] groups[x].1@[y].name@ == e.1) by {
        if groups[x].0@ == e.0 && x != p {
            lemma_ascending_distinct(group_names(groups), x, p);
            assert(group_names(groups)[x] == groups[x].0@);
        }
        if x == p {
            if y < q {
                assert(lex_compare(cats[y].name@, e.1) < 0);
            } else {
                assert(lex_compare(e.1, cats[y].name@) < 0);
            }
            lemma_lex_equal(cats[y].name@, e.1);
            lemma_lex_equal(e.1, cats[y].name@);
        }
    }
    lemma_new_key_has_no_members(groups, entries, states, e.0, e.1);
    assert(category_names(groups2[p].1@) =~= category_names(cats).insert(q, e.1));
    lemma_ascending_insert(category_names(cats), q, e.1);
    assert forall|g: int| 0 <= g < groups2.len() implies (#[trigger] groups2[g].1@).len() > 0 by {
        assert(groups[g].1@.len() > 0);
    }
    assert forall|g: int| 0 <= g < groups2.len() implies ascending_names(category_names(#[trigger] groups2[g].1@)) by {
        if g != p {
            assert(ascending_names(category_names(groups[g].1@)));
        }
    }
    assert forall|g: int, c: int| 0 <= g < groups2.len() && 0 <= c < groups2[g].1@.len() implies {
        let k = #[trigger] groups2[g].1@[c];
        let ms = members(entries2, groups2[g].0@, k.name@);
        &&& k.mods@.map_values(|m: ModInfo| mod_view(m)) == ms
        &&& ms.len() > 0
        &&& k.enabled == match last_state(states, ms[0].2.category) {
            Some(b) => b,
            None => true,
        }
    } by {
        if g == p && c == q {
            lemma_members_push(entries, e, e.0, e.1);
            assert(groups2[g].1@[c] == cat);
            assert(cat.mods@.map_values(|m: ModInfo| mod_view(m)) =~= seq![e.2]);
            assert(members(entries2, e.0, e.1) =~= seq![e.2]);
        } else {
            let c0 = if g == p && c > q {
                c - 1
            } else {
                c
            };
            let k = groups[g].1@[c0];
            assert(groups2[g].1@[c] == k);
            let old_ms = members(entries, groups[g].0@, k.name@);
            lemma_members_push(entries, e, groups[g].0@, k.name@);
            assert(k.mods@.map_values(|m: ModInfo| mod_view(m)) == old_ms && old_ms.len() > 0);
            if g == p {
                if c0 < q {
                    assert(lex_compare(cats[c0].name@, e.1) < 0);
                } else {
                    assert(lex_compare(e.1, cats[c0].name@) < 0);
                }
                lemma_lex_equal(cats[c0].name@, e.1);
                lemma_lex_equal(e.1, cats[c0].name@);
            } else {
                lemma_ascending_distinct(group_names(groups), g, p);
                assert(group_names(groups)[g] == groups[g].0@);
            }
        }
    }
    assert forall|i: int| 0 <= i < entries2.len() implies exists|g: int, c: int|
        0 <= g < groups2.len() && 0 <= c < groups2[g].1@.len() && #[trigger] entries2[i].0 == groups2[g].0@
            && entries2[i].1 == #[trigger] groups2[g].1@[c].name@ by {
        if i < entries.len() {
            assert(entries2[i] == entries[i]);
            let (g, c) = choose|g: int, c: int|
                0 <= g < groups.len() && 0 <= c < groups[g].1@.len() && #[trigger] entries[i].0 == groups[g].0@
                    && entries[i].1 == #[trigger] groups[g].1@[c].name@;
            if g == p {
                let c2 = if c >= q {
                    c + 1
                } else {
                    c
                };
                assert(groups2[g].1@[c2] == groups[g].1@[c]);
                assert(entries2[i].0 == groups2[g].0@ && entries2[i].1 == groups2[g].1@[c2].name@);
            } else {
                assert(groups2[g] == groups[g]);
                assert(entries2[i].0 == groups2[g].0@ && entries2[i].1 == groups2[g].1@[c].name@);
            }
        } else {
            assert(entries2[i] == e);
            assert(groups2[p].1@[q] == cat);
            assert(entries2[i].0 == groups2[p].0@ && entries2[i].1 == groups2[p].1@[q].name@);
        }
    }
}

/// Adding a new group, at its place among the groups, with the new category
/// of the entry, keeps the categories built from the entries.
#[verifier::spinoff_prover]
proof fn lemma_place_new_group(
    groups: Seq<(String, Vec<ModManagerCategory>)>,
    groups2: Seq<(String, Vec<ModManagerCategory>)>,
    entries: Seq<EntryView>,
    states: Seq<(Seq<char>, bool)>,
    e: EntryView,
    p: int,
    group: (String, Vec<ModManagerCategory>),
    cat: ModManagerCategory,
    m: ModInfo,
)
    requires
        built_from(groups, entries, states),
        0 <= p <= groups.len(),
        forall|g: int| 0 <= g < p ==> lex_compare(#[trigger] groups[g].0@, e.0) < 0,
        forall|g: int| p <= g < groups.len() ==> lex_compare(e.0, #[trigger] groups[g].0@) < 0,
        group.0@ == e.0,
        group.1@ == seq![cat],
        cat.name@ == e.1,
        cat.mods@ == seq![m],
        mod_view(m) == e.2,
        cat.enabled == initial_enabled(states, e.2),
        groups2 == groups.insert(p, group),
    ensures
        built_from(groups2, entries.push(e), states),
{
    let entries2 = entries.push(e);
    assert forall|x: int, y: int|
        0 <= x < groups.len() && 0 <= y < groups[x].1@.len() implies !(#[trigger] groups[x].0@ == e.0
        && #[trigger] groups[x].1@[y].name@ == e.1) by {
        if x < p {
            assert(lex_compare(groups[x].0@, e.0) < 0);
        } else {
            assert(lex_compare(e.0, groups[x].0@) < 0);
        }
        lemma_lex_equal(groups[x].0@, e.0);
        lemma_lex_equal(e.0, groups[x].0@);
    }
    lemma_new_key_has_no_members(groups, entries, states, e.0, e.1);
    assert(group_names(groups2) =~= group_names(groups).insert(p, e.0));
    lemma_ascending_insert(group_names(groups), p, e.0);
    assert forall|g: int| 0 <= g < groups2.len() implies (#[trigger] groups2[g].1@).len() > 0 by {
        if g < p {
            assert(groups2[g] == groups[g]);
            assert(groups[g].1@.len() > 0);
        } else if g > p {
            assert(groups2[g] == groups[g - 1]);
            assert(groups[g - 1].1@.len() > 0);
        } else {
            assert(groups2[g] == group);
        }
    }
    assert forall|g: int| 0 <= g < groups2.len() implies ascending_names(category_names(#[trigger] groups2[g].1@)) by {
        if g < p {
            assert(groups2[g] == groups[g]);
            assert(ascending_names(category_names(groups[g].1@)));
        } else if g > p {
            assert(groups2[g] == groups[g - 1]);
            assert(ascending_names(category_names(groups[g - 1].1@)));
        }
    }
    assert forall|g: int, c: int| 0 <= g < groups2.len() && 0 <= c < groups2[g].1@.len() implies {
        let k = #[trigger] groups2[g].1@[c];
        let ms = members(entries2, groups2[g].0@, k.name@);
        &&& k.mods@.map_values(|m: ModInfo| mod_view(m)) == ms
        &&& ms.len() > 0
        &&& k.enabled == match last_state(states, ms[0].2.category) {
            Some(b) => b,
            None => true,
        }
    } by {
        if g == p {
            assert(c == 0);
            lemma_members_push(entries, e, e.0, e.1);
            assert(groups2[g].1@[c] == cat);
            assert(cat.mods@.map_values(|m: ModInfo| mod_view(m)) =~= seq![e.2]);
            assert(members(entries2, e.0, e.1) =~= seq![e.2]);
        } else {
            let g0 = if g > p {
                g - 1
            } else {
                g
            };
            assert(groups2[g] == groups[g0]);
            let k = groups[g0].1@[c];
            let old_ms = members(entries, groups[g0].0@, k.name@);
            lemma_members_push(entries, e, groups[g0].0@, k.name@);
            assert(k.mods@.map_values(|m: ModInfo| mod_view(m)) == old_ms && old_ms.len() > 0);
            if g0 < p {
                assert(lex_compare(groups[g0].0@, e.0) < 0);
            } else {
                assert(lex_compare(e.0, groups[g0].0@) < 0);
            }
            lemma_lex_equal(groups[g0].0@, e.0);
            lemma_lex_equal(e.0, groups[g0].0@);
        }
    }
    assert forall|i: int| 0 <= i < entries2.len() implies exists|g: int, c: int|
        0 <= g < groups2.len() && 0 <= c < groups2[g].1@.len() && #[trigger] entries2[i].0 == groups2[g].0@
            && entries2[i].1 == #[trigger] groups2[g].1@[c].name@ by {
        if i < entries.len() {
            assert(entries2[i] == entries[i]);
            let (g, c) = choose|g: int, c: int|
                0 <= g < groups.len() && 0 <= c < groups[g].1@.len() && #[trigger] entries[i].0 == groups[g].0@
                    && entries[i].1 == #[trigger] groups[g].1@[c].name@;
            let g2 = if g >= p {
                g + 1
            } else {
                g
            };
            assert(groups2[g2] == groups[g]);
            assert(entries2[i].0 == groups2[g2].0@ && entries2[i].1 == groups2[g2].1@[c].name@);
        } else {
            assert(entries2[i] == e);
            assert(groups2[p] == group);
            assert(group.1@[0] == cat);
            assert(entries2[i].0 == groups2[p].0@ && entries2[i].1 == groups2[p].1@[0].name@);
        }
    }
}

/// The plain values of category states.
pub open spec fn state_views(s: Seq<(String, bool)>) -> Seq<(Seq<char>, bool)> {
    s.map_values(|x: (String, bool)| (x.0@, x.1))
}

/// The plain values of index entries.
pub open spec fn entry_views(s: Seq<(String, String, ModInfo)>) -> Seq<EntryView> {
    s.map_values(|x: (String, String, ModInfo)| (x.0@, x.1@, mod_view(x.2)))
}

/// The descriptions of the mods of an index.
pub open spec fn metas(s: Seq<IndexModInfo>) -> Seq<ModMeta> {
    s.map_values(|m: IndexModInfo| m@)
}

/// Takes the categories apart into their mods and their states, in order.
fn flatten_categories(cats: Vec<ModManagerCategory>) -> (r: (Vec<ModInfo>, Vec<(String, bool)>))
    ensures
        r.0@ == category_mods(cats@),
        state_views(r.1@) == category_states(cats@),
{
    let ghost cs = cats@;
    let n = cats.len();
    let mut rest = cats;
    let mut mods: Vec<ModInfo> = Vec::new();
    let mut states: Vec<(String, bool)> = Vec::new();
    let mut k: usize = 0;
    while k < n
        invariant
            n == cs.len(),
            k <= n,
            rest@ == cs.skip(k as int),
            mods@ == category_mods(cs.take(k as int)),
            state_views(states@) == category_states(cs.take(k as int)),
        decreases n - k,
    {
        let mut cat = rest.remove(0);
        assert(cat == cs[k as int]);
        assert(rest@ =~= cs.skip(k + 1));
        assert(cs.take(k + 1).drop_last() =~= cs.take(k as int));
        let ghost before = states@;
        states.push((cat.name, cat.enabled));
        assert(state_views(states@) =~= state_views(before).push((cs[k as int].name@, cs[k as int].enabled)));
        mods.append(&mut cat.mods);
        k = k + 1;
    }
    assert(cs.take(n as int) =~= cs);
    (mods, states)
}

/// Takes the groups apart into their mods and their category states, in
/// order.
fn flatten_groups(groups: Vec<(String, Vec<ModManagerCategory>)>) -> (r: (Vec<ModInfo>, Vec<(String, bool)>))
    ensures
        r.0@ == all_mods(groups@),
        state_views(r.1@) == all_category_states(groups@),
{
    let ghost gs = groups@;
    let n = groups.len();
    let mut rest = groups;
    let mut mods: Vec<ModInfo> = Vec::new();
    let mut states: Vec<(String, bool)> = Vec::new();
    let mut k: usize = 0;
    while k < n
        invariant
            n == gs.len(),
            k <= n,
            rest@ == gs.skip(k as int),
            mods@ == all_mods(gs.take(k as int)),
            state_views(states@) == all_category_states(gs.take(k as int)),
        decreases n - k,
    {
        let group = rest.remove(0);
        assert(group == gs[k as int]);
        assert(rest@ =~= gs.skip(k + 1));
        assert(gs.take(k + 1).drop_last() =~= gs.take(k as int));
        let (_name, cats) = group;
        let (mut more_mods, more_states) = flatten_categories(cats);
        mods.append(&mut more_mods);
        let ghost before = states@;
        let mut j: usize = 0;
        while j < more_states.len()
            invariant
                j <= more_states@.len(),
                state_views(states@) == state_views(before) + state_views(more_states@.take(j as int)),
            decreases more_states@.len() - j,
        {
            let (name, enabled) = &more_states[j];
            let ghost mid = states@;
            states.push((name.clone(), *enabled));
            assert(state_views(states@) =~= state_views(mid).push((name@, *enabled)));
            assert(state_views(more_states@.take(j + 1)) =~= state_views(more_states@.take(j as int)).push(
                (more_states@[j as int].0@, more_states@[j as int].1),
            ));
            j = j + 1;
        }
        assert(more_states@.take(more_states@.len() as int) =~= more_states@);
        k = k + 1;
    }
    assert(gs.take(n as int) =~= gs);
    (mods, states)
}

proof fn lemma_last_with_id_at(ms: Seq<ModInfo>, uid: Seq<char>, j: int)
    requires
        0 <= j < ms.len(),
        ms[j].meta@.unique_id == uid,
        forall|k: int| j < k < ms.len() ==> (#[trigger] ms[k]).meta@.unique_id != uid,
    ensures
        last_with_id(ms, uid) == Some(ms[j]),
    decreases ms.len(),
{
    if j < ms.len() - 1 {
        assert(ms.last() == ms[ms.len() - 1]);
        let rest = ms.drop_last();
        assert forall|k: int| j < k < rest.len() implies (#[trigger] rest[k]).meta@.unique_id != uid by {
            assert(rest[k] == ms[k]);
        }
        lemma_last_with_id_at(rest, uid, j);
    }
}

proof fn lemma_last_with_id_none(ms: Seq<ModInfo>, uid: Seq<char>)
    requires
        forall|k: int| 0 <= k < ms.len() ==> (#[trigger] ms[k]).meta@.unique_id != uid,
    ensures
        last_with_id(ms, uid) is None,
    decreases ms.len(),
{
    if ms.len() > 0 {
        assert(ms.last() == ms[ms.len() - 1]);
        let rest = ms.drop_last();
        assert forall|k: int| 0 <= k < rest.len() implies (#[trigger] rest[k]).meta@.unique_id != uid by {
            assert(rest[k] == ms[k]);
        }
        lemma_last_with_id_none(rest, uid);
    }
}

/// Where in `ms` the last mod with this unique id is.
fn last_position_of_id(ms: &Vec<ModInfo>, uid: &str) -> (r: Option<usize>)
    ensures
        match r {
            Some(j) => j < ms@.len() && ms@[j as int].meta@.unique_id == uid@ && forall|k: int|
                j < k < ms@.len() ==> (#[trigger] ms@[k]).meta@.unique_id != uid@,
            None => forall|k: int| 0 <= k < ms@.len() ==> (#[trigger] ms@[k]).meta@.unique_id != uid@,
        },
{
    let mut i: usize = ms.len();
    while i > 0
        invariant
            i <= ms@.len(),
            forall|k: int| i <= k < ms@.len() ==> (#[trigger] ms@[k]).meta@.unique_id != uid@,
        decreases i,
    {
        if same_text(ms[i - 1].meta.unique_id(), uid) {
            return Some(i - 1);
        }
        i = i - 1;
    }
    None
}

fn contains_text(v: &Vec<String>, s: &str) -> (r: bool)
    ensures
        r == texts(v@).contains(s@),
{
    let mut i: usize = 0;
    while i < v.len()
        invariant
            i <= v@.len(),
            forall|k: int| 0 <= k < i ==> (#[trigger] v@[k])@ != s@,
        decreases v@.len() - i,
    {
        if same_text(v[i].as_str(), s) {
            assert(texts(v@)[i as int] == s@);
            return true;
        }
        i = i + 1;
    }
    false
}

/// Pairs every mod of the index that has a group and a category with the
/// state it takes over from the previous mods, in index order.
fn index_entries_from(old_mods: Vec<ModInfo>, mods: Vec<IndexModInfo>) -> (r: Vec<(String, String, ModInfo)>)
    ensures
        entry_views(r@) == index_entries(old_mods@, metas(mods@), mods@.len() as int),
{
    let ghost old = old_mods@;
    let ghost all = mods@;
    let ghost new = metas(mods@);
    let n = mods.len();
    let mut cur = old_mods;
    let mut rest = mods;
    let mut claimed: Vec<String> = Vec::new();
    let mut out: Vec<(String, String, ModInfo)> = Vec::new();
    let mut k: usize = 0;
    while k < n
        invariant
            n == all.len(),
            new == metas(all),
            k <= n,
            rest@ == all.skip(k as int),
            entry_views(out@) == index_entries(old, new, k as int),
            cur@.len() == old.len(),
            forall|j: int| 0 <= j < old.len() ==> (#[trigger] cur@[j]).meta@ == old[j].meta@,
            forall|j: int|
                0 <= j < old.len() && !texts(claimed@).contains(old[j].meta@.unique_id) ==> mod_view(
                    #[trigger] cur@[j],
                ) == mod_view(old[j]),
            forall|u: Seq<char>|
                #[trigger] texts(claimed@).contains(u) <==> exists|jj: int|
                    0 <= jj < k && keyed(new[jj]) && #[trigger] new[jj].unique_id == u,
        decreases n - k,
    {
        let m = rest.remove(0);
        assert(m == all[k as int]);
        assert(m@ == new[k as int]);
        assert(rest@ =~= all.skip(k + 1));
        let cat = chars_of(m.category());
        let parts = split_chars(&cat, '/');
        if parts.len() >= 2 {
            let g = string_of(&parts[0]);
            let c = string_of(&parts[1]);
            let seen = contains_text(&claimed, m.unique_id());
            proof {
                assert(first_of_id(new, k as int) == !seen) by {
                    if seen {
                        let jj = choose|jj: int| 0 <= jj < k && keyed(new[jj]) && #[trigger] new[jj].unique_id == m@.unique_id;
                        assert(!first_of_id(new, k as int));
                    } else {
                        assert forall|j: int| 0 <= j < k && keyed(new[j]) implies new[j].unique_id != new[k as int].unique_id by {
                            if new[j].unique_id == new[k as int].unique_id {
                                assert(texts(claimed@).contains(new[j].unique_id));
                            }
                        }
                    }
                }
            }
            let mut enabled = false;
            let mut paths: Vec<String> = Vec::new();
            if !seen {
                match last_position_of_id(&cur, m.unique_id()) {
                    Some(j) => {
                        proof {
                            assert forall|t: int| j < t < old.len() implies (#[trigger] old[t]).meta@.unique_id != m@.unique_id by {
                                assert(cur@[t].meta@ == old[t].meta@);
                            }
                            assert(cur@[j as int].meta@ == old[j as int].meta@);
                            lemma_last_with_id_at(old, m@.unique_id, j as int);
                            assert(mod_view(cur@[j as int]) == mod_view(old[j as int]));
                        }
                        let mut item = cur.remove(j);
                        enabled = item.enabled;
                        std::mem::swap(&mut paths, &mut item.mod_paths);
                        cur.insert(j, item);
                    },
                    None => {
                        proof {
                            assert forall|t: int| 0 <= t < old.len() implies (#[trigger] old[t]).meta@.unique_id != m@.unique_id by {
                                assert(cur@[t].meta@ == old[t].meta@);
                            }
                            lemma_last_with_id_none(old, m@.unique_id);
                        }
                    },
                }
            }
            assert(enabled == carried(old, new, k as int).0);
            assert(texts(paths@) == carried(old, new, k as int).1);
            let ghost claimed_before = claimed@;
            claimed.push(m.unique_id.clone());
            proof {
                assert(texts(claimed@) =~= texts(claimed_before).push(m@.unique_id));
                assert forall|u: Seq<char>| #[trigger] texts(claimed@).contains(u) <==> exists|jj: int|
                    0 <= jj < k + 1 && keyed(new[jj]) && #[trigger] new[jj].unique_id == u by {
                    if texts(claimed@).contains(u) && u != m@.unique_id {
                        assert(texts(claimed_before).contains(u));
                    }
                    if u == m@.unique_id {
                        assert(keyed(new[k as int]) && new[k as int].unique_id == u);
                    }
                    if exists|jj: int| 0 <= jj < k + 1 && keyed(new[jj]) && #[trigger] new[jj].unique_id == u {
                        let jj = choose|jj: int| 0 <= jj < k + 1 && keyed(new[jj]) && #[trigger] new[jj].unique_id == u;
                        if jj < k {
                            assert(texts(claimed_before).contains(u));
                            let w = choose|w: int| 0 <= w < texts(claimed_before).len() && texts(claimed_before)[w] == u;
                            assert(texts(claimed@)[w] == u);
                        } else {
                            assert(texts(claimed@)[texts(claimed@).len() - 1] == u);
                        }
                    }
                }
            }
            let ghost out_before = out@;
            out.push((g, c, ModInfo { enabled, mod_paths: paths, meta: m }));
            proof {
                assert(category_key(new[k as int].category) == Some((g@, c@)));
                assert(entry_views(out@) =~= entry_views(out_before).push((g@, c@, (carried(old, new, k as int).0, carried(old, new, k as int).1, new[k as int]))));
            }
        } else {
            proof {
                assert(category_key(new[k as int].category) is None);
                assert forall|u: Seq<char>| #[trigger] texts(claimed@).contains(u) <==> exists|jj: int|
                    0 <= jj < k + 1 && keyed(new[jj]) && #[trigger] new[jj].unique_id == u by {
                    if exists|jj: int| 0 <= jj < k + 1 && keyed(new[jj]) && #[trigger] new[jj].unique_id == u {
                        let jj = choose|jj: int| 0 <= jj < k + 1 && keyed(new[jj]) && #[trigger] new[jj].unique_id == u;
                        assert(jj < k);
                    }
                }
            }
        }
        k = k + 1;
    }
    out
}

proof fn lemma_last_state_at(states: Seq<(Seq<char>, bool)>, name: Seq<char>, j: int)
    requires
        0 <= j < states.len(),
        states[j].0 == name,
        forall|k: int| j < k < states.len() ==> (#[trigger] states[k]).0 != name,
    ensures
        last_state(states, name) == Some(states[j].1),
    decreases states.len(),
{
    if j < states.len() - 1 {
        assert(states.last() == states[states.len() - 1]);
        let rest = states.drop_last();
        assert forall|k: int| j < k < rest.len() implies (#[trigger] rest[k]).0 != name by {
            assert(rest[k] == states[k]);
        }
        lemma_last_state_at(rest, name, j);
    }
}

proof fn lemma_last_state_none(states: Seq<(Seq<char>, bool)>, name: Seq<char>)
    requires
        forall|k: int| 0 <= k < states.len() ==> (#[trigger] states[k]).0 != name,
    ensures
        last_state(states, name) is None,
    decreases states.len(),
{
    if states.len() > 0 {
        assert(states.last() == states[states.len() - 1]);
        let rest = states.drop_last();
        assert forall|k: int| 0 <= k < rest.len() implies (#[trigger] rest[k]).0 != name by {
            assert(rest[k] == states[k]);
        }
        lemma_last_state_none(rest, name);
    }
}

/// The enabled flag of the last category state named `name`; enabled when
/// there is none.
fn state_of_category(states: &Vec<(String, bool)>, name: &str) -> (r: bool)
    ensures
        r == match last_state(state_views(states@), name@) {
            Some(b) => b,
            None => true,
        },
{
    let ghost sv = state_views(states@);
    let mut i: usize = states.len();
    while i > 0
        invariant
            i <= states@.len(),
            sv == state_views(states@),
            forall|k: int| i <= k < sv.len() ==> (#[trigger] sv[k]).0 != name@,
        decreases i,
    {
        if same_text(states[i - 1].0.as_str(), name) {
            proof {
                lemma_last_state_at(sv, name@, i - 1);
            }
            return states[i - 1].1;
        }
        i = i - 1;
    }
    proof {
        lemma_last_state_none(sv, name@);
    }
    true
}

/// Places every entry in its group and category.
fn group_entries(entries: Vec<(String, String, ModInfo)>, states: &Vec<(String, bool)>) -> (r: Vec<
    (String, Vec<ModManagerCategory>),
>)
    ensures
        built_from(r@, entry_views(entries@), state_views(states@)),
{
    let ghost es = entry_views(entries@);
    let ghost sv = state_views(states@);
    let n = entries.len();
    let mut rest = entries;
    let mut groups: Vec<(String, Vec<ModManagerCategory>)> = Vec::new();
    let mut i: usize = 0;
    assert(es.take(0) =~= Seq::<EntryView>::empty());
    assert(built_from(groups@, es.take(0), sv));
    while i < n
        invariant
            n == es.len(),
            i <= n,
            sv == state_views(states@),
            rest@.len() == n - i,
            entry_views(rest@) == es.skip(i as int),
            built_from(groups@, es.take(i as int), sv),
        decreases n - i,
    {
        let ghost rest_before = rest@;
        assert(entry_views(rest_before)[0] == es[i as int]);
        let (g, c, m) = rest.remove(0);
        let ghost e = es[i as int];
        let ghost before = groups@;
        let ghost prefix = es.take(i as int);
        proof {
            assert(rest@ =~= rest_before.drop_first());
            assert forall|k: int| 0 <= k < rest@.len() implies #[trigger] entry_views(rest@)[k] == es.skip(i + 1)[k] by {
                assert(rest@[k] == rest_before[k + 1]);
                assert(entry_views(rest_before)[k + 1] == es.skip(i as int)[k + 1]);
            }
            assert(entry_views(rest@) =~= es.skip(i + 1));
            assert(e == (g@, c@, mod_view(m)));
            assert(es.take(i + 1) =~= prefix.push(e));
        }
        let (p, found) = group_position(&groups, g.as_str());
        if found {
            let (gname, mut cats) = groups.remove(p);
            let ghost old_cats = cats@;
            let (q, cfound) = category_position(&cats, c.as_str());
            if cfound {
                let mut cat = cats.remove(q);
                let ghost old_cat = cat;
                cat.mods.push(m);
                cats.insert(q, cat);
                groups.insert(p, (gname, cats));
                proof {
                    assert(groups@ =~= before.update(p as int, groups@[p as int]));
                    assert(cats@ =~= old_cats.update(q as int, cat));
                    lemma_place_in_category(before, groups@, prefix, sv, e, p as int, q as int, m);
                }
            } else {
                let enabled = state_of_category(states, m.meta.category());
                let mut ms: Vec<ModInfo> = Vec::new();
                ms.push(m);
                let cat = ModManagerCategory { name: c, enabled, mods: ms };
                cats.insert(q, cat);
                groups.insert(p, (gname, cats));
                proof {
                    assert(groups@ =~= before.update(p as int, groups@[p as int]));
                    lemma_place_new_category(before, groups@, prefix, sv, e, p as int, q as int, cat, m);
                }
            }
        } else {
            let enabled = state_of_category(states, m.meta.category());
            let mut ms: Vec<ModInfo> = Vec::new();
            ms.push(m);
            let cat = ModManagerCategory { name: c, enabled, mods: ms };
            let mut cats: Vec<ModManagerCategory> = Vec::new();
            cats.push(cat);
            let group = (g, cats);
            groups.insert(p, group);
            proof {
                lemma_place_new_group(before, groups@, prefix, sv, e, p as int, group, cat, m);
            }
        }
        i = i + 1;
    }
    assert(es.take(n as int) =~= es);
    groups
}

proof fn lemma_category_mods_prefix(cs: Seq<ModManagerCategory>, a: int, b: int)
    requires
        0 <= a <= b <= cs.len(),
    ensures
        category_mods(cs.take(a)).len() <= category_mods(cs.take(b)).len(),
        forall|i: int|
            0 <= i < category_mods(cs.take(a)).len() ==> #[trigger] category_mods(cs.take(a))[i] == category_mods(
                cs.take(b),
            )[i],
    decreases b - a,
{
    if a < b {
        lemma_category_mods_prefix(cs, a, b - 1);
        assert(cs.take(b).drop_last() =~= cs.take(b - 1));
    }
}

proof fn lemma_all_mods_prefix(gs: Seq<(String, Vec<ModManagerCategory>)>, a: int, b: int)
    requires
        0 <= a <= b <= gs.len(),
    ensures
        all_mods(gs.take(a)).len() <= all_mods(gs.take(b)).len(),
        forall|i: int|
            0 <= i < all_mods(gs.take(a)).len() ==> #[trigger] all_mods(gs.take(a))[i] == all_mods(gs.take(b))[i],
    decreases b - a,
{
    if a < b {
        lemma_all_mods_prefix(gs, a, b - 1);
        assert(gs.take(b).drop_last() =~= gs.take(b - 1));
    }
}

/// The mod state of the mod manager: the hash of the index it was built
/// from, the mods grouped into categories, and the filter text of the mod
/// list.
pub struct ModManagerInfo {
    index_hash: String,
    categories: Vec<(String, Vec<ModManagerCategory>)>,
    filter_text: String,
}

impl ModManagerInfo {
    pub closed spec fn spec_index_hash(&self) -> Seq<char> {
        self.index_hash@
    }

    pub closed spec fn spec_categories(&self) -> Seq<(String, Vec<ModManagerCategory>)> {
        self.categories@
    }

    pub closed spec fn spec_filter_text(&self) -> Seq<char> {
        self.filter_text@
    }

    /// No index yet.
    pub fn new() -> (r: ModManagerInfo)
        ensures
            r.spec_index_hash().len() == 0,
            r.spec_categories().len() == 0,
            r.spec_filter_text().len() == 0,
    {
        ModManagerInfo { index_hash: String::new(), categories: Vec::new(), filter_text: String::new() }
    }

    pub fn index_hash(&self) -> (r: &str)
        ensures
            r@ == self.spec_index_hash(),
    {
        self.index_hash.as_str()
    }

    pub fn categories(&self) -> (r: &Vec<(String, Vec<ModManagerCategory>)>)
        ensures
            r@ == self.spec_categories(),
    {
        &self.categories
    }

    /// The categories, for the mod list to switch mods and categories on
    /// and off and to record installed files; the index hash and the filter
    /// stay as they are.
    pub fn categories_mut(&mut self) -> (r: &mut Vec<(String, Vec<ModManagerCategory>)>)
        ensures
            r@ == old(self).spec_categories(),
            final(self).spec_categories() == final(r)@,
            final(self).spec_index_hash() == old(self).spec_index_hash(),
            final(self).spec_filter_text() == old(self).spec_filter_text(),
    {
        &mut self.categories
    }

    pub fn filter_text(&self) -> (r: &str)
        ensures
            r@ == self.spec_filter_text(),
    {
        self.filter_text.as_str()
    }

    pub fn set_filter_text(&mut self, text: String)
        ensures
            final(self).spec_filter_text() == text@,
            final(self).spec_index_hash() == old(self).spec_index_hash(),
            final(self).spec_categories() == old(self).spec_categories(),
    {
        self.filter_text = text;
    }

    /// Regroups the mods of a new index. Groups and categories come out
    /// sorted by name; every mod of the index whose category text names a
    /// group and a category is placed there, in index order; the first mod
    /// with a unique id takes over the enabled flag and the installed files
    /// of the last previous mod with that id; a new category is enabled as
    /// the last previous category named like its first mod's category text
    /// was, and enabled when there is none.
    pub fn update_categories(&mut self, mods: Vec<IndexModInfo>)
        ensures
            final(self).spec_index_hash() == old(self).spec_index_hash(),
            final(self).spec_filter_text() == old(self).spec_filter_text(),
            built_from(
                final(self).spec_categories(),
                index_entries(all_mods(old(self).spec_categories()), metas(mods@), mods@.len() as int),
                all_category_states(old(self).spec_categories()),
            ),
    {
        let mut previous: Vec<(String, Vec<ModManagerCategory>)> = Vec::new();
        std::mem::swap(&mut previous, &mut self.categories);
        let (old_mods, states) = flatten_groups(previous);
        let entries = index_entries_from(old_mods, mods);
        self.categories = group_entries(entries, &states);
    }

    /// Takes a new index and its hash.
    pub fn update_index(&mut self, index_hash: String, index: ModManagerIndex)
        ensures
            final(self).spec_index_hash() == index_hash@,
            final(self).spec_filter_text() == old(self).spec_filter_text(),
            built_from(
                final(self).spec_categories(),
                index_entries(all_mods(old(self).spec_categories()), metas(index.mods@), index.mods@.len() as int),
                all_category_states(old(self).spec_categories()),
            ),
    {
        self.index_hash = index_hash;
        self.update_categories(index.mods);
    }

    /// The first mod, in group, category and list order, with this unique id.
    pub fn mod_by_id(&self, id: &str) -> (r: Option<&ModInfo>)
        ensures
            match r {
                Some(m) => exists|k: int|
                    0 <= k < all_mods(self.spec_categories()).len() && all_mods(self.spec_categories())[k] == *m
                        && m.meta@.unique_id == id@ && forall|j: int|
                        0 <= j < k ==> (#[trigger] all_mods(self.spec_categories())[j]).meta@.unique_id != id@,
                None => forall|j: int|
                    0 <= j < all_mods(self.spec_categories()).len() ==> (#[trigger] all_mods(
                        self.spec_categories(),
                    )[j]).meta@.unique_id != id@,
            },
    {
        let ghost gs = self.categories@;
        let ghost all = all_mods(gs);
        proof {
            assert(gs.take(gs.len() as int) =~= gs);
        }
        let mut g: usize = 0;
        while g < self.categories.len()
            invariant
                gs == self.categories@,
                all == all_mods(gs),
                all == all_mods(gs.take(gs.len() as int)),
                g <= gs.len(),
                forall|j: int| 0 <= j < all_mods(gs.take(g as int)).len() ==> (#[trigger] all_mods(gs.take(g as int))[j]).meta@.unique_id != id@,
            decreases gs.len() - g,
        {
            let cats = &self.categories[g].1;
            let ghost cs = cats@;
            let ghost base = all_mods(gs.take(g as int));
            proof {
                assert(gs.take(g + 1).drop_last() =~= gs.take(g as int));
                assert(cs.take(cs.len() as int) =~= cs);
                lemma_all_mods_prefix(gs, g + 1, gs.len() as int);
            }
            let mut c: usize = 0;
            while c < cats.len()
                invariant
                    gs == self.categories@,
                    all == all_mods(gs),
                    all == all_mods(gs.take(gs.len() as int)),
                    g < gs.len(),
                    cs == gs[g as int].1@,
                    cs == cats@,
                    base == all_mods(gs.take(g as int)),
                    all_mods(gs.take(g + 1)) == base + category_mods(cs),
                    cs.take(cs.len() as int) == cs,
                    all_mods(gs.take(g + 1)).len() <= all.len(),
                    forall|i: int| 0 <= i < all_mods(gs.take(g + 1)).len() ==> #[trigger] all_mods(gs.take(g + 1))[i] == all[i],
                    c <= cs.len(),
                    forall|j: int| 0 <= j < base.len() ==> (#[trigger] base[j]).meta@.unique_id != id@,
                    forall|j: int| 0 <= j < category_mods(cs.take(c as int)).len() ==> (#[trigger] category_mods(cs.take(c as int))[j]).meta@.unique_id != id@,
                decreases cs.len() - c,
            {
                let ms = &cats[c].mods;
                let ghost inner = category_mods(cs.take(c as int));
                proof {
                    assert(cs.take(c + 1).drop_last() =~= cs.take(c as int));
                    lemma_category_mods_prefix(cs, c + 1, cs.len() as int);
                }
                let mut t: usize = 0;
                while t < ms.len()
                    invariant
                        ms@ == cs[c as int].mods@,
                        c < cs.len(),
                        t <= ms@.len(),
                        inner == category_mods(cs.take(c as int)),
                        category_mods(cs.take(c + 1)) == inner + ms@,
                        forall|j: int| 0 <= j < t ==> (#[trigger] ms@[j]).meta@.unique_id != id@,
                        cs.take(cs.len() as int) == cs,
                        gs == self.categories@,
                        all == all_mods(gs),
                        category_mods(cs.take(c + 1)).len() <= category_mods(cs).len(),
                        forall|i: int| 0 <= i < category_mods(cs.take(c + 1)).len() ==> #[trigger] category_mods(cs.take(c + 1))[i] == category_mods(cs)[i],
                        all_mods(gs.take(g + 1)) == base + category_mods(cs),
                        all_mods(gs.take(g + 1)).len() <= all.len(),
                        forall|i: int| 0 <= i < all_mods(gs.take(g + 1)).len() ==> #[trigger] all_mods(gs.take(g + 1))[i] == all[i],
                        forall|j: int| 0 <= j < base.len() ==> (#[trigger] base[j]).meta@.unique_id != id@,
                        forall|j: int| 0 <= j < inner.len() ==> (#[trigger] inner[j]).meta@.unique_id != id@,
                    decreases ms@.len() - t,
                {
                    if same_text(ms[t].meta.unique_id(), id) {
                        proof {
                            let k = base.len() + inner.len() + t;
                            assert(category_mods(cs.take(c + 1))[inner.len() + t] == ms@[t as int]);
                            assert(category_mods(cs.take(c + 1))[inner.len() + t] == category_mods(cs)[inner.len() + t]);
                            assert(all_mods(gs.take(g + 1))[k] == category_mods(cs)[inner.len() + t]);
                            assert(all[k] == ms@[t as int]);
                            assert forall|j: int| 0 <= j < k implies (#[trigger] all[j]).meta@.unique_id != id@ by {
                                assert(all[j] == all_mods(gs.take(g + 1))[j]);
                                if j < base.len() {
                                    assert(all_mods(gs.take(g + 1))[j] == base[j]);
                                } else if j < base.len() + inner.len() {
                                    let jj = j - base.len();
                                    assert(all_mods(gs.take(g + 1))[j] == category_mods(cs)[jj]);
                                    assert(category_mods(cs.take(c as int))[jj] == category_mods(cs.take(c + 1))[jj]);
                                    assert(category_mods(cs.take(c + 1))[jj] == category_mods(cs)[jj]);
                                } else {
                                    let jj = j - base.len();
                                    assert(all_mods(gs.take(g + 1))[j] == category_mods(cs)[jj]);
                                    assert(category_mods(cs.take(c + 1))[jj] == category_mods(cs)[jj]);
                                    assert(category_mods(cs.take(c + 1))[jj] == ms@[jj - inner.len()]);
                                }
                            }
                        }
                        return Some(&ms[t]);
                    }
                    t = t + 1;
                }
                proof {
                    assert forall|j: int| 0 <= j < category_mods(cs.take(c + 1)).len() implies (#[trigger] category_mods(cs.take(c + 1))[j]).meta@.unique_id != id@ by {
                        if j >= inner.len() {
                            assert(category_mods(cs.take(c + 1))[j] == ms@[j - inner.len()]);
                        } else {
                            assert(category_mods(cs.take(c + 1))[j] == inner[j]);
                        }
                    }
                }
                c = c + 1;
            }
            proof {
                assert forall|j: int| 0 <= j < all_mods(gs.take(g + 1)).len() implies (#[trigger] all_mods(gs.take(g + 1))[j]).meta@.unique_id != id@ by {
                    if j >= base.len() {
                        assert(all_mods(gs.take(g + 1))[j] == category_mods(cs)[j - base.len()]);
                    } else {
                        assert(all_mods(gs.take(g + 1))[j] == base[j]);
                    }
                }
            }
            g = g + 1;
        }
        None
    }
}

/// Every member of a category is the mod of one of the entries.
proof fn lemma_member_from_entry(entries: Seq<EntryView>, g: Seq<char>, c: Seq<char>, k: int)
    requires
        0 <= k < members(entries, g, c).len(),
    ensures
        exists|i: int| 0 <= i < entries.len() && #[trigger] entries[i].2 == members(entries, g, c)[k],
    decreases entries.len(),
{
    let rest = members(entries.drop_last(), g, c);
    if k < rest.len() {
        lemma_member_from_entry(entries.drop_last(), g, c, k);
        let i = choose|i: int| 0 <= i < entries.drop_last().len() && #[trigger] entries.drop_last()[i].2 == rest[k];
        assert(entries[i] == entries.drop_last()[i]);
    } else {
        assert(entries[entries.len() - 1] == entries.last());
    }
}

/// A text that splits into at least two pieces holds the separator.
proof fn lemma_pieces_separator(s: Seq<char>, sep: char)
    requires
        pieces(s, sep).len() >= 2,
    ensures
        s.contains(sep),
    decreases s.len(),
{
    if s.len() > 0 {
        if s.last() == sep {
            assert(s[s.len() - 1] == sep);
        } else {
            crate::text::lemma_pieces_nonempty(s.drop_last(), sep);
            assert(pieces(s, sep).len() == pieces(s.drop_last(), sep).len());
            lemma_pieces_separator(s.drop_last(), sep);
            let i = choose|i: int| 0 <= i < s.drop_last().len() && s.drop_last()[i] == sep;
            assert(s[i] == sep);
        }
    }
}

proof fn lemma_last_state_absent(states: Seq<(Seq<char>, bool)>, name: Seq<char>)
    requires
        forall|k: int| 0 <= k < states.len() ==> (#[trigger] states[k]).0 != name,
    ensures
        last_state(states, name) is None,
    decreases states.len(),
{
    if states.len() > 0 {
        assert(states[states.len() - 1] == states.last());
        let rest = states.drop_last();
        assert forall|k: int| 0 <= k < rest.len() implies (#[trigger] rest[k]).0 != name by {
            assert(rest[k] == states[k]);
        }
        lemma_last_state_absent(rest, name);
    }
}

/// When no earlier category name holds a '/' (the categories built here
/// never do: their names are pieces of a text split at '/'), every category
/// built from the index starts enabled: the category text of its first mod
/// holds a '/' and so names no earlier category.
pub proof fn law_categories_start_enabled(
    groups: Seq<(String, Vec<ModManagerCategory>)>,
    entries: Seq<EntryView>,
    states: Seq<(Seq<char>, bool)>,
)
    requires
        built_from(groups, entries, states),
        forall|i: int| 0 <= i < entries.len() ==> category_key((#[trigger] entries[i]).2.2.category) is Some,
        forall|k: int| 0 <= k < states.len() ==> !(#[trigger] states[k]).0.contains('/'),
    ensures
        forall|g: int, c: int| 0 <= g < groups.len() && 0 <= c < groups[g].1@.len() ==> (#[trigger] groups[g].1@[c]).enabled,
{
    assert forall|g: int, c: int| 0 <= g < groups.len() && 0 <= c < groups[g].1@.len() implies (#[trigger] groups[g].1@[c]).enabled by {
        let cat = groups[g].1@[c];
        let ms = members(entries, groups[g].0@, cat.name@);
        assert(ms.len() > 0);
        lemma_member_from_entry(entries, groups[g].0@, cat.name@, 0);
        let i = choose|i: int| 0 <= i < entries.len() && #[trigger] entries[i].2 == ms[0];
        let text = ms[0].2.category;
        assert(category_key(entries[i].2.2.category) is Some);
        lemma_pieces_separator(text, '/');
        assert forall|k: int| 0 <= k < states.len() implies (#[trigger] states[k]).0 != text by {
            if states[k].0 == text {
                assert(!states[k].0.contains('/'));
            }
        }
        lemma_last_state_absent(states, text);
    }
}

/// A category as plain values: name, whether enabled, and its mods.
pub open spec fn category_view(c: ModManagerCategory) -> (Seq<char>, bool, Seq<(bool, Seq<Seq<char>>, ModMeta)>) {
    (c.name@, c.enabled, c.mods@.map_values(|m: ModInfo| mod_view(m)))
}

/// The groups of categories as plain values.
pub open spec fn groups_view(groups: Seq<(String, Vec<ModManagerCategory>)>) -> Seq<
    (Seq<char>, Seq<(Seq<char>, bool, Seq<(bool, Seq<Seq<char>>, ModMeta)>)>),
> {
    groups.map_values(
        |g: (String, Vec<ModManagerCategory>)| (g.0@, g.1@.map_values(|c: ModManagerCategory| category_view(c))),
    )
}

/// Two name lists in strictly ascending order that hold the same names are
/// the same list.
proof fn lemma_ascending_same_names(a: Seq<Seq<char>>, b: Seq<Seq<char>>)
    requires
        ascending_names(a),
        ascending_names(b),
        forall|x: Seq<char>| a.contains(x) <==> b.contains(x),
    ensures
        a == b,
    decreases a.len() + b.len(),
{
    if a.len() == 0 {
        if b.len() > 0 {
            assert(b.contains(b[0]));
        }
        assert(b =~= a);
    } else if b.len() == 0 {
        assert(a.contains(a[0]));
    } else {
        assert(a.contains(a[0]));
        assert(b.contains(b[0]));
        let i = choose|i: int| 0 <= i < a.len() && a[i] == b[0];
        let j = choose|j: int| 0 <= j < b.len() && b[j] == a[0];
        lemma_lex_equal(a[0], b[0]);
        lemma_lex_antisymmetric(a[0], b[0]);
        if i > 0 {
            assert(lex_compare(a[0], a[i]) < 0);
        }
        if j > 0 {
            assert(lex_compare(b[0], b[j]) < 0);
        }
        lemma_lex_equal(a[0], a[0]);
        assert(a[0] == b[0]);
        let a1 = a.drop_first();
        let b1 = b.drop_first();
        assert forall|x: int, y: int| 0 <= x < y < a1.len() implies lex_compare(#[trigger] a1[x], #[trigger] a1[y]) < 0 by {
            assert(lex_compare(a[x + 1], a[y + 1]) < 0);
        }
        assert forall|x: int, y: int| 0 <= x < y < b1.len() implies lex_compare(#[trigger] b1[x], #[trigger] b1[y]) < 0 by {
            assert(lex_compare(b[x + 1], b[y + 1]) < 0);
        }
        assert forall|x: Seq<char>| a1.contains(x) <==> b1.contains(x) by {
            if a1.contains(x) {
                let k = choose|k: int| 0 <= k < a1.len() && a1[k] == x;
                lemma_ascending_distinct(a, 0, k + 1);
                assert(a.contains(x));
                let m = choose|m: int| 0 <= m < b.len() && b[m] == x;
                assert(m != 0);
                assert(b1[m - 1] == x);
            }
            if b1.contains(x) {
                let k = choose|k: int| 0 <= k < b1.len() && b1[k] == x;
                lemma_ascending_distinct(b, 0, k + 1);
                assert(b.contains(x));
                let m = choose|m: int| 0 <= m < a.len() && a[m] == x;
                assert(m != 0);
                assert(a1[m - 1] == x);
            }
        }
        lemma_ascending_same_names(a1, b1);
        assert(a =~= seq![a[0]] + a1);
        assert(b =~= seq![b[0]] + b1);
    }
}

/// In groups built from the entries, a group name is one an entry carries,
/// and a category name in a group is one an entry of that group carries.
proof fn lemma_built_names(
    groups: Seq<(String, Vec<ModManagerCategory>)>,
    entries: Seq<EntryView>,
    states: Seq<(Seq<char>, bool)>,
)
    requires
        built_from(groups, entries, states),
    ensures
        forall|x: Seq<char>|
            #[trigger] group_names(groups).contains(x) <==> exists|i: int| 0 <= i < entries.len() && #[trigger] entries[i].0 == x,
        forall|g: int, x: Seq<char>|
            0 <= g < groups.len() ==> (#[trigger] category_names(groups[g].1@).contains(x) <==> exists|i: int|
                0 <= i < entries.len() && #[trigger] entries[i].0 == groups[g].0@ && entries[i].1 == x),
{
    assert forall|x: Seq<char>| #[trigger] group_names(groups).contains(x) implies exists|i: int|
        0 <= i < entries.len() && #[trigger] entries[i].0 == x by {
        let g = choose|g: int| 0 <= g < group_names(groups).len() && group_names(groups)[g] == x;
        assert(groups[g].1@.len() > 0);
        let cat = groups[g].1@[0];
        assert(members(entries, groups[g].0@, cat.name@).len() > 0);
        if !exists|i: int| 0 <= i < entries.len() && #[trigger] entries[i].0 == groups[g].0@ && entries[i].1 == cat.name@ {
            lemma_members_absent(entries, groups[g].0@, cat.name@);
        }
    }
    assert forall|x: Seq<char>| (exists|i: int| 0 <= i < entries.len() && #[trigger] entries[i].0 == x) implies #[trigger] group_names(
        groups,
    ).contains(x) by {
        let i = choose|i: int| 0 <= i < entries.len() && #[trigger] entries[i].0 == x;
        let (g, c) = choose|g: int, c: int|
            0 <= g < groups.len() && 0 <= c < groups[g].1@.len() && #[trigger] entries[i].0 == groups[g].0@
                && entries[i].1 == #[trigger] groups[g].1@[c].name@;
        assert(group_names(groups)[g] == x);
    }
    assert forall|g: int, x: Seq<char>| 0 <= g < groups.len() implies (#[trigger] category_names(groups[g].1@).contains(x)
        <==> exists|i: int| 0 <= i < entries.len() && #[trigger] entries[i].0 == groups[g].0@ && entries[i].1 == x) by {
        if category_names(groups[g].1@).contains(x) {
            let c = choose|c: int| 0 <= c < category_names(groups[g].1@).len() && category_names(groups[g].1@)[c] == x;
            let cat = groups[g].1@[c];
            assert(members(entries, groups[g].0@, cat.name@).len() > 0);
            if !exists|i: int| 0 <= i < entries.len() && #[trigger] entries[i].0 == groups[g].0@ && entries[i].1 == x {
                lemma_members_absent(entries, groups[g].0@, x);
            }
        }
        if exists|i: int| 0 <= i < entries.len() && #[trigger] entries[i].0 == groups[g].0@ && entries[i].1 == x {
            let i = choose|i: int| 0 <= i < entries.len() && #[trigger] entries[i].0 == groups[g].0@ && entries[i].1 == x;
            let (g2, c) = choose|g2: int, c: int|
                0 <= g2 < groups.len() && 0 <= c < groups[g2].1@.len() && #[trigger] entries[i].0 == groups[g2].0@
                    && entries[i].1 == #[trigger] groups[g2].1@[c].name@;
            if g2 != g {
                lemma_ascending_distinct(group_names(groups), g, g2);
                assert(group_names(groups)[g] == groups[g].0@);
                assert(group_names(groups)[g2] == groups[g2].0@);
            }
            assert(category_names(groups[g].1@)[c] == x);
        }
    }
}

/// The categories built from a list of entries are determined by it: any
/// two groupings that both meet `built_from` for the same entries and
/// earlier category states are the same, group by group and category by
/// category. So taking a new index gives the categories a rebuild from that
/// index gives.
pub proof fn law_built_from_unique(
    groups1: Seq<(String, Vec<ModManagerCategory>)>,
    groups2: Seq<(String, Vec<ModManagerCategory>)>,
    entries: Seq<EntryView>,
    states: Seq<(Seq<char>, bool)>,
)
    requires
        built_from(groups1, entries, states),
        built_from(groups2, entries, states),
    ensures
        groups_view(groups1) == groups_view(groups2),
{
    lemma_built_names(groups1, entries, states);
    lemma_built_names(groups2, entries, states);
    assert forall|x: Seq<char>| group_names(groups1).contains(x) <==> group_names(groups2).contains(x) by {
        if group_names(groups1).contains(x) {
            let i = choose|i: int| 0 <= i < entries.len() && #[trigger] entries[i].0 == x;
        }
        if group_names(groups2).contains(x) {
            let i = choose|i: int| 0 <= i < entries.len() && #[trigger] entries[i].0 == x;
        }
    }
    lemma_ascending_same_names(group_names(groups1), group_names(groups2));
    assert(groups1.len() == groups2.len());
    assert forall|g: int| 0 <= g < groups1.len() implies (#[trigger] groups_view(groups1)[g]) == groups_view(groups2)[g] by {
        assert(group_names(groups1)[g] == group_names(groups2)[g]);
        let name = groups1[g].0@;
        assert(groups2[g].0@ == name);
        let c1 = groups1[g].1@;
        let c2 = groups2[g].1@;
        assert forall|x: Seq<char>| category_names(c1).contains(x) <==> category_names(c2).contains(x) by {
            if category_names(c1).contains(x) {
                let i = choose|i: int| 0 <= i < entries.len() && #[trigger] entries[i].0 == name && entries[i].1 == x;
            }
            if category_names(c2).contains(x) {
                let i = choose|i: int| 0 <= i < entries.len() && #[trigger] entries[i].0 == name && entries[i].1 == x;
            }
        }
        assert(ascending_names(category_names(c1)));
        assert(ascending_names(category_names(c2)));
        lemma_ascending_same_names(category_names(c1), category_names(c2));
        assert(c1.len() == c2.len());
        assert forall|c: int| 0 <= c < c1.len() implies #[trigger] category_view(c1[c]) == category_view(c2[c]) by {
            assert(category_names(c1)[c] == category_names(c2)[c]);
            let k1 = groups1[g].1@[c];
            let k2 = groups2[g].1@[c];
            assert(k1.name@ == k2.name@);
        }
        assert(c1.map_values(|c: ModManagerCategory| category_view(c)) =~= c2.map_values(
            |c: ModManagerCategory| category_view(c),
        ));
    }
    assert(groups_view(groups1) =~= groups_view(groups2));
}

} // verus!
