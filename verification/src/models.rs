//! Per-player statistics of a parsed battle and the small computations that
//! derive them from the raw battle results.

use vstd::prelude::*;

use crate::outside::{to_uppercase, uppercase};
use crate::stable_sort::{is_sorted, sort_stable, stable_reordering, Ranked};
use crate::text::{concat_text, same_text};

verus! {

/// Damage breakdown by type.
#[derive(Clone, Copy, Debug, PartialEq, Eq, Structural)]
pub struct Damage {
    pub ap: Option<u64>,
    pub sap: Option<u64>,
    pub he: Option<u64>,
    pub he_secondaries: Option<u64>,
    pub sap_secondaries: Option<u64>,
    pub torps: Option<u64>,
    pub deep_water_torps: Option<u64>,
    pub fire: Option<u64>,
    pub flooding: Option<u64>,
}

/// Hit counts by weapon type.
#[derive(Clone, Copy, Debug, PartialEq, Eq, Structural)]
pub struct Hits {
    pub ap: Option<u64>,
    pub sap: Option<u64>,
    pub he: Option<u64>,
    pub he_secondaries: Option<u64>,
    pub sap_secondaries: Option<u64>,
    pub torps: Option<u64>,
}

/// Potential damage breakdown by source type.
#[derive(Clone, Copy, Debug, PartialEq, Eq, Structural)]
pub struct PotentialDamage {
    pub artillery: u64,
    pub torpedoes: u64,
    pub planes: u64,
}

/// A translated consumable ability.
#[derive(Clone, Debug)]
pub struct TranslatedAbility {
    pub name: Option<String>,
    pub game_params_name: String,
}

/// A translated ship module (upgrade).
#[derive(Clone, Debug)]
pub struct TranslatedModule {
    pub name: Option<String>,
    pub description: Option<String>,
    pub game_params_name: String,
}

/// A translated crew skill.
#[derive(Clone, Debug)]
pub struct TranslatedCrewSkill {
    pub tier: usize,
    pub name: Option<String>,
    pub description: Option<String>,
    pub internal_name: String,
}

/// A player's complete translated build including modules, abilities, and skills.
#[derive(Clone, Debug)]
pub struct TranslatedBuild {
    pub modules: Vec<TranslatedModule>,
    pub abilities: Vec<TranslatedAbility>,
    pub captain_skills: Option<Vec<TranslatedCrewSkill>>,
}

/// The numbers and texts the report keeps for one player of a battle.
/// Floating-point columns (distance travelled, personal rating) are held by
/// integers that order as the values do.
pub struct PlayerStats {
    pub db_id: i64,
    pub team_id: i64,
    /// 0 for the recording player, 1 for allies, 2 and above for enemies.
    pub relation: u32,
    pub name: String,
    pub clan: String,
    pub ship_name: String,
    /// The position of the ship's species in the game's species enumeration.
    pub species: u32,
    pub division_label: Option<String>,
    pub base_xp: Option<i64>,
    pub raw_xp: Option<i64>,
    pub observed_damage: u64,
    pub observed_damage_text: String,
    pub actual_damage: Option<u64>,
    pub actual_damage_report: Option<Damage>,
    pub actual_damage_text: Option<String>,
    pub actual_damage_hover_text: Option<String>,
    pub hits: Option<u64>,
    pub hits_report: Option<Hits>,
    pub spotting_damage: Option<u64>,
    pub potential_damage: Option<u64>,
    pub potential_damage_text: Option<String>,
    pub potential_damage_hover_text: Option<String>,
    pub potential_damage_report: Option<PotentialDamage>,
    pub time_lived_secs: Option<u64>,
    pub time_lived_text: Option<String>,
    pub received_damage: Option<u64>,
    pub received_damage_text: Option<String>,
    pub received_damage_hover_text: Option<String>,
    pub received_damage_report: Option<Damage>,
    pub fires: Option<u64>,
    pub floods: Option<u64>,
    pub citadels: Option<u64>,
    pub crits: Option<u64>,
    pub distance_traveled: Option<i64>,
    pub is_test_ship: bool,
    pub manual_stat_hide_toggle: bool,
    pub kills: Option<i64>,
    pub observed_kills: i64,
    pub personal_rating: Option<i64>,
}

impl PlayerStats {
    /// Whether this player is the one who recorded the battle.
    pub open spec fn spec_is_self(&self) -> bool {
        self.relation == 0
    }

    /// Statistics are hidden when the user asked for it, or for another
    /// player's test ship.
    pub open spec fn spec_should_hide_stats(&self) -> bool {
        self.manual_stat_hide_toggle || (!self.spec_is_self() && self.is_test_ship)
    }

    pub fn is_self(&self) -> (r: bool)
        ensures
            r == self.spec_is_self(),
    {
        self.relation == 0
    }

    pub fn is_enemy(&self) -> (r: bool)
        ensures
            r == (self.relation > 1),
    {
        self.relation > 1
    }

    pub fn should_hide_stats(&self) -> (r: bool)
        ensures
            r == self.spec_should_hide_stats(),
    {
        self.manual_stat_hide_toggle || (!self.is_self() && self.is_test_ship)
    }

    /// Blanks out the damage-related statistics of a ship under
    /// non-disclosure: the counters become zero and their texts read "NDA".
    pub fn remove_nda_info(&mut self)
        ensures
            final(self).observed_damage == 0,
            final(self).observed_damage_text@ == "NDA"@,
            final(self).actual_damage == Some(0u64),
            final(self).actual_damage_text matches Some(t) && t@ == "NDA"@,
            final(self).actual_damage_hover_text is None,
            final(self).potential_damage == Some(0u64),
            final(self).potential_damage_text matches Some(t) && t@ == "NDA"@,
            final(self).potential_damage_hover_text is None,
            final(self).received_damage == Some(0u64),
            final(self).received_damage_text matches Some(t) && t@ == "NDA"@,
            final(self).received_damage_hover_text is None,
            final(self).fires == Some(0u64),
            final(self).floods == Some(0u64),
            final(self).citadels == Some(0u64),
            final(self).crits == Some(0u64),
            final(self).db_id == old(self).db_id,
            final(self).name == old(self).name,
            final(self).hits == old(self).hits,
            final(self).spotting_damage == old(self).spotting_damage,
            final(self).kills == old(self).kills,
    {
        proof {
            reveal_strlit("NDA");
        }
        self.observed_damage = 0;
        self.observed_damage_text = "NDA".to_owned();
        self.actual_damage = Some(0);
        self.actual_damage_text = Some("NDA".to_owned());
        self.actual_damage_hover_text = None;
        self.potential_damage = Some(0);
        self.potential_damage_text = Some("NDA".to_owned());
        self.potential_damage_hover_text = None;
        self.received_damage = Some(0);
        self.received_damage_text = Some("NDA".to_owned());
        self.received_damage_hover_text = None;
        self.fires = Some(0);
        self.floods = Some(0);
        self.citadels = Some(0);
        self.crits = Some(0);
    }
}


/// The key of a game text: a prefix and the upper-cased name of a game
/// parameter.
pub open spec fn text_id(prefix: Seq<char>, name: Seq<char>) -> Seq<char> {
    prefix + uppercase(name)
}

/// Builds the key of a game text.
fn make_text_id(prefix: &str, name: &str) -> (r: String)
    ensures
        r@ == text_id(prefix@, name@),
{
    let upper = to_uppercase(name);
    concat_text(prefix, upper.as_str())
}

/// The key of a ship module's title.
pub fn module_title_id(game_params_name: &str) -> (r: String)
    ensures
        r@ == text_id("IDS_TITLE_"@, game_params_name@),
{
    make_text_id("IDS_TITLE_", game_params_name)
}

/// The key of a ship module's description.
pub fn module_description_id(game_params_name: &str) -> (r: String)
    ensures
        r@ == text_id("IDS_DESC_"@, game_params_name@),
{
    make_text_id("IDS_DESC_", game_params_name)
}

/// The key of a consumable's title.
pub fn ability_title_id(game_params_name: &str) -> (r: String)
    ensures
        r@ == text_id("IDS_DOCK_CONSUME_TITLE_"@, game_params_name@),
{
    make_text_id("IDS_DOCK_CONSUME_TITLE_", game_params_name)
}

/// A description worth showing: not empty and not a single space.
pub open spec fn shown_description(d: Option<String>) -> Option<Seq<char>> {
    match d {
        Some(t) => if t@.len() == 0 || t@ == " "@ {
            None
        } else {
            Some(t@)
        },
        None => None,
    }
}

impl TranslatedModule {
    /// A module with its translated title and description; a blank
    /// description is dropped.
    pub fn new(game_params_name: String, name: Option<String>, description: Option<String>) -> (r: TranslatedModule)
        ensures
            r.game_params_name@ == game_params_name@,
            r.name == name,
            match r.description {
                Some(t) => shown_description(description) == Some(t@),
                None => shown_description(description) is None,
            },
    {
        let description = match description {
            Some(t) => if t.as_str().is_empty() || same_text(t.as_str(), " ") {
                None
            } else {
                Some(t)
            },
            None => None,
        };
        TranslatedModule { name, description, game_params_name }
    }
}

impl Ranked for TranslatedCrewSkill {
    /// Lower tiers first.
    open spec fn precedes_or_ties(self, other: Self) -> bool {
        self.tier <= other.tier
    }

    proof fn lemma_total(a: Self, b: Self) {
    }

    proof fn lemma_transitive(a: Self, b: Self, c: Self) {
    }

    fn ranks_before_or_with(&self, other: &Self) -> (r: bool) {
        self.tier <= other.tier
    }
}

/// Orders a captain's skills by tier, keeping the order of skills of the
/// same tier.
pub fn sort_crew_skills(skills: Vec<TranslatedCrewSkill>) -> (r: Vec<TranslatedCrewSkill>)
    ensures
        is_sorted(r@),
        stable_reordering(skills@, r@),
{
    sort_stable(skills)
}

} // verus!
