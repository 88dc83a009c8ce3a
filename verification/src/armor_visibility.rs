//! Which armor of the armor viewer is shown: each part of a zone (a zone
//! and a material name) can be switched off, and each plate of a part (a
//! part and a thickness in tenths of a millimetre) can be switched off on
//! its own. Anything never switched is shown.

use vstd::prelude::*;

use crate::text::same_text;

verus! {

/// The switch last set for `k` among the entries, if any: a later entry for
/// a key overrides an earlier one.
pub open spec fn switch_of<K>(s: Seq<(K, bool)>, k: K) -> Option<bool>
    decreases s.len(),
{
    if s.len() == 0 {
        None
    } else if s.last().0 == k {
        Some(s.last().1)
    } else {
        switch_of(s.drop_last(), k)
    }
}

/// A switch shows what it guards unless it was set to off.
pub open spec fn shown(o: Option<bool>) -> bool {
    match o {
        Some(b) => b,
        None => true,
    }
}

pub open spec fn part_entries(v: Seq<(String, String, bool)>) -> Seq<((Seq<char>, Seq<char>), bool)> {
    v.map_values(|e: (String, String, bool)| ((e.0@, e.1@), e.2))
}

pub open spec fn plate_entries(v: Seq<(String, String, i32, bool)>) -> Seq<((Seq<char>, Seq<char>, i32), bool)> {
    v.map_values(|e: (String, String, i32, bool)| ((e.0@, e.1@, e.2), e.3))
}

/// The visibility switches of the armor parts and plates.
#[derive(Debug, Clone)]
pub struct ArmorVisibility {
    parts: Vec<(String, String, bool)>,
    plates: Vec<(String, String, i32, bool)>,
}

proof fn lemma_switch_push<K>(s: Seq<(K, bool)>, e: (K, bool), k: K)
    ensures
        switch_of(s.push(e), k) == if e.0 == k {
            Some(e.1)
        } else {
            switch_of(s, k)
        },
{
    assert(s.push(e).drop_last() =~= s);
}

proof fn lemma_switch_take<K>(s: Seq<(K, bool)>, i: int, k: K)
    requires
        0 <= i < s.len(),
    ensures
        switch_of(s.take(i + 1), k) == if s[i].0 == k {
            Some(s[i].1)
        } else {
            switch_of(s.take(i), k)
        },
{
    assert(s.take(i + 1).drop_last() =~= s.take(i));
}

impl ArmorVisibility {
    /// The switch of the part `zone`/`part`.
    pub closed spec fn spec_part(&self, zone: Seq<char>, part: Seq<char>) -> Option<bool> {
        switch_of(part_entries(self.parts@), (zone, part))
    }

    /// The switch of the plate of `zone`/`part` that is `thickness` tenths of
    /// a millimetre thick.
    pub closed spec fn spec_plate(&self, zone: Seq<char>, part: Seq<char>, thickness: i32) -> Option<bool> {
        switch_of(plate_entries(self.plates@), (zone, part, thickness))
    }

    /// Nothing switched: everything shown.
    pub fn new() -> (r: ArmorVisibility)
        ensures
            forall|z: Seq<char>, p: Seq<char>| #[trigger] r.spec_part(z, p) is None,
            forall|z: Seq<char>, p: Seq<char>, t: i32| #[trigger] r.spec_plate(z, p, t) is None,
    {
        let r = ArmorVisibility { parts: Vec::new(), plates: Vec::new() };
        assert(part_entries(r.parts@) =~= Seq::empty());
        assert(plate_entries(r.plates@) =~= Seq::empty());
        r
    }

    fn part_switch(&self, zone: &str, part: &str) -> (r: Option<bool>)
        ensures
            r == self.spec_part(zone@, part@),
    {
        let ghost s = part_entries(self.parts@);
        let ghost k = (zone@, part@);
        let mut i = self.parts.len();
        assert(s.take(i as int) =~= s);
        while i > 0
            invariant
                i <= self.parts@.len(),
                s == part_entries(self.parts@),
                k == (zone@, part@),
                switch_of(s, k) == switch_of(s.take(i as int), k),
            decreases i,
        {
            proof {
                lemma_switch_take(s, i - 1, k);
            }
            let e = &self.parts[i - 1];
            assert(s[i - 1] == ((e.0@, e.1@), e.2));
            if same_text(e.0.as_str(), zone) && same_text(e.1.as_str(), part) {
                return Some(e.2);
            }
            i = i - 1;
        }
        assert(s.take(0).len() == 0);
        None
    }

    fn plate_switch(&self, zone: &str, part: &str, thickness: i32) -> (r: Option<bool>)
        ensures
            r == self.spec_plate(zone@, part@, thickness),
    {
        let ghost s = plate_entries(self.plates@);
        let ghost k = (zone@, part@, thickness);
        let mut i = self.plates.len();
        assert(s.take(i as int) =~= s);
        while i > 0
            invariant
                i <= self.plates@.len(),
                s == plate_entries(self.plates@),
                k == (zone@, part@, thickness),
                switch_of(s, k) == switch_of(s.take(i as int), k),
            decreases i,
        {
            proof {
                lemma_switch_take(s, i - 1, k);
            }
            let e = &self.plates[i - 1];
            assert(s[i - 1] == ((e.0@, e.1@, e.2), e.3));
            if same_text(e.0.as_str(), zone) && same_text(e.1.as_str(), part) && e.2 == thickness {
                return Some(e.3);
            }
            i = i - 1;
        }
        assert(s.take(0).len() == 0);
        None
    }

    /// Whether the part is shown.
    pub fn part_visible(&self, zone: &str, part: &str) -> (r: bool)
        ensures
            r == shown(self.spec_part(zone@, part@)),
    {
        match self.part_switch(zone, part) {
            Some(b) => b,
            None => true,
        }
    }

    /// Whether the plate is shown.
    pub fn plate_visible(&self, zone: &str, part: &str, thickness: i32) -> (r: bool)
        ensures
            r == shown(self.spec_plate(zone@, part@, thickness)),
    {
        match self.plate_switch(zone, part, thickness) {
            Some(b) => b,
            None => true,
        }
    }

    /// Drops every switch of the plate `zone`/`part`/`thickness`.
    fn forget_plate(&mut self, zone: &str, part: &str, thickness: i32)
        ensures
            final(self).parts@ == old(self).parts@,
            forall|z: Seq<char>, p: Seq<char>, t: i32|
                #[trigger] final(self).spec_plate(z, p, t) == if z == zone@ && p == part@ && t == thickness {
                    None
                } else {
                    old(self).spec_plate(z, p, t)
                },
    {
        let ghost s = plate_entries(self.plates@);
        let ghost key = (zone@, part@, thickness);
        let mut kept: Vec<(String, String, i32, bool)> = Vec::new();
        let mut i: usize = 0;
        while i < self.plates.len()
            invariant
                i <= self.plates@.len(),
                s == plate_entries(self.plates@),
                key == (zone@, part@, thickness),
                forall|k: (Seq<char>, Seq<char>, i32)|
                    #[trigger] switch_of(plate_entries(kept@), k) == if k == key {
                        None
                    } else {
                        switch_of(s.take(i as int), k)
                    },
            decreases self.plates@.len() - i,
        {
            let e = &self.plates[i];
            assert(s[i as int] == ((e.0@, e.1@, e.2), e.3));
            let same = same_text(e.0.as_str(), zone) && same_text(e.1.as_str(), part) && e.2 == thickness;
            let ghost before = kept@;
            if !same {
                kept.push((e.0.clone(), e.1.clone(), e.2, e.3));
                assert(plate_entries(kept@) =~= plate_entries(before).push(s[i as int]));
            }
            assert forall|k: (Seq<char>, Seq<char>, i32)|
                #[trigger] switch_of(plate_entries(kept@), k) == if k == key {
                    None
                } else {
                    switch_of(s.take(i + 1), k)
                } by {
                lemma_switch_take(s, i as int, k);
                if !same {
                    lemma_switch_push(plate_entries(before), s[i as int], k);
                }
            }
            i = i + 1;
        }
        assert(s.take(s.len() as int) =~= s);
        self.plates = kept;
    }

    /// Sets the switch of the part `zone`/`part`.
    fn set_part_switch(&mut self, zone: &str, part: &str, visible: bool)
        ensures
            final(self).plates@ == old(self).plates@,
            forall|z: Seq<char>, p: Seq<char>|
                #[trigger] final(self).spec_part(z, p) == if z == zone@ && p == part@ {
                    Some(visible)
                } else {
                    old(self).spec_part(z, p)
                },
    {
        let ghost before = part_entries(self.parts@);
        self.parts.push((zone.to_string(), part.to_string(), visible));
        assert(part_entries(self.parts@) =~= before.push(((zone@, part@), visible)));
        assert forall|z: Seq<char>, p: Seq<char>| #[trigger] self.spec_part(z, p) == if z == zone@ && p == part@ {
            Some(visible)
        } else {
            old(self).spec_part(z, p)
        } by {
            lemma_switch_push(before, ((zone@, part@), visible), (z, p));
        }
    }

    /// Switches the part on or off, and drops the switches of its plates of
    /// the given thicknesses.
    pub fn set_part_visible(&mut self, zone: &str, part: &str, visible: bool, thicknesses: &Vec<i32>)
        ensures
            forall|z: Seq<char>, p: Seq<char>|
                #[trigger] final(self).spec_part(z, p) == if z == zone@ && p == part@ {
                    Some(visible)
                } else {
                    old(self).spec_part(z, p)
                },
            forall|z: Seq<char>, p: Seq<char>, t: i32|
                #[trigger] final(self).spec_plate(z, p, t) == if z == zone@ && p == part@ && thicknesses@.contains(t) {
                    None
                } else {
                    old(self).spec_plate(z, p, t)
                },
    {
        self.set_part_switch(zone, part, visible);
        let ghost mid = *self;
        let mut i: usize = 0;
        while i < thicknesses.len()
            invariant
                i <= thicknesses@.len(),
                forall|z: Seq<char>, p: Seq<char>| #[trigger] self.spec_part(z, p) == mid.spec_part(z, p),
                forall|z: Seq<char>, p: Seq<char>, t: i32|
                    #[trigger] self.spec_plate(z, p, t) == if z == zone@ && p == part@ && thicknesses@.take(
                        i as int,
                    ).contains(t) {
                        None
                    } else {
                        mid.spec_plate(z, p, t)
                    },
            decreases thicknesses@.len() - i,
        {
            let ghost prev = *self;
            self.forget_plate(zone, part, thicknesses[i]);
            proof {
                broadcast use vstd::seq_lib::group_seq_properties;
                assert(thicknesses@.take(i + 1) =~= thicknesses@.take(i as int).push(thicknesses@[i as int]));
                assert forall|z: Seq<char>, p: Seq<char>| #[trigger] self.spec_part(z, p) == mid.spec_part(z, p) by {
                    assert(self.spec_part(z, p) == prev.spec_part(z, p));
                }
                assert forall|z: Seq<char>, p: Seq<char>, t: i32|
                    #[trigger] self.spec_plate(z, p, t) == if z == zone@ && p == part@ && thicknesses@.take(
                        i + 1,
                    ).contains(t) {
                        None
                    } else {
                        mid.spec_plate(z, p, t)
                    } by {
                    assert(self.spec_plate(z, p, t) == if z == zone@ && p == part@ && t == thicknesses@[i as int] {
                        None
                    } else {
                        prev.spec_plate(z, p, t)
                    });
                    assert(thicknesses@.take(i + 1).contains(t) == (thicknesses@.take(i as int).contains(t) || t
                        == thicknesses@[i as int]));
                }
            }
            i = i + 1;
        }
        assert(thicknesses@.take(thicknesses@.len() as int) =~= thicknesses@);
    }

    /// Switches each of the listed parts (zone, part) on or off.
    pub fn set_parts_visible(&mut self, parts: &Vec<(String, String)>, visible: bool)
        ensures
            forall|z: Seq<char>, p: Seq<char>|
                #[trigger] final(self).spec_part(z, p) == if parts@.map_values(|k: (String, String)| (k.0@, k.1@)).contains(
                    (z, p),
                ) {
                    Some(visible)
                } else {
                    old(self).spec_part(z, p)
                },
            forall|z: Seq<char>, p: Seq<char>, t: i32| #[trigger] final(self).spec_plate(z, p, t) == old(self).spec_plate(z, p, t),
    {
        let ghost start = *self;
        let ghost keys = parts@.map_values(|k: (String, String)| (k.0@, k.1@));
        let mut i: usize = 0;
        while i < parts.len()
            invariant
                i <= parts@.len(),
                keys == parts@.map_values(|k: (String, String)| (k.0@, k.1@)),
                forall|z: Seq<char>, p: Seq<char>|
                    #[trigger] self.spec_part(z, p) == if keys.take(i as int).contains((z, p)) {
                        Some(visible)
                    } else {
                        start.spec_part(z, p)
                    },
                forall|z: Seq<char>, p: Seq<char>, t: i32| #[trigger] self.spec_plate(z, p, t) == start.spec_plate(z, p, t),
            decreases parts@.len() - i,
        {
            let ghost prev = *self;
            assert(keys[i as int] == (parts@[i as int].0@, parts@[i as int].1@));
            self.set_part_switch(parts[i].0.as_str(), parts[i].1.as_str(), visible);
            proof {
                broadcast use vstd::seq_lib::group_seq_properties;
                assert(keys.take(i + 1) =~= keys.take(i as int).push(keys[i as int]));
                assert forall|z: Seq<char>, p: Seq<char>| #[trigger] self.spec_part(z, p) == if keys.take(i + 1).contains((z, p)) {
                    Some(visible)
                } else {
                    start.spec_part(z, p)
                } by {
                    assert(self.spec_part(z, p) == prev.spec_part(z, p) || (z, p) == keys[i as int]);
                    assert(keys.take(i + 1).contains((z, p)) == (keys.take(i as int).contains((z, p)) || (z, p)
                        == keys[i as int]));
                }
                assert forall|z: Seq<char>, p: Seq<char>, t: i32| #[trigger] self.spec_plate(z, p, t) == start.spec_plate(z, p, t) by {
                    assert(self.plates@ == prev.plates@);
                    assert(prev.spec_plate(z, p, t) == start.spec_plate(z, p, t));
                }
            }
            i = i + 1;
        }
        assert(keys.take(keys.len() as int) =~= keys);
    }

    /// Flips the plate: a shown plate is hidden, a hidden one shown.
    pub fn toggle_plate(&mut self, zone: &str, part: &str, thickness: i32)
        ensures
            forall|z: Seq<char>, p: Seq<char>| #[trigger] final(self).spec_part(z, p) == old(self).spec_part(z, p),
            forall|z: Seq<char>, p: Seq<char>, t: i32|
                #[trigger] final(self).spec_plate(z, p, t) == if z == zone@ && p == part@ && t == thickness {
                    Some(!shown(old(self).spec_plate(zone@, part@, thickness)))
                } else {
                    old(self).spec_plate(z, p, t)
                },
    {
        let visible = self.plate_visible(zone, part, thickness);
        let ghost before = plate_entries(self.plates@);
        self.plates.push((zone.to_string(), part.to_string(), thickness, !visible));
        assert(plate_entries(self.plates@) =~= before.push(((zone@, part@, thickness), !visible)));
        assert forall|z: Seq<char>, p: Seq<char>, t: i32| #[trigger] self.spec_plate(z, p, t) == if z == zone@ && p
            == part@ && t == thickness {
            Some(!shown(old(self).spec_plate(zone@, part@, thickness)))
        } else {
            old(self).spec_plate(z, p, t)
        } by {
            lemma_switch_push(before, ((zone@, part@, thickness), !visible), (z, p, t));
        }
        assert forall|z: Seq<char>, p: Seq<char>| #[trigger] self.spec_part(z, p) == old(self).spec_part(z, p) by {
            assert(self.parts@ == old(self).parts@);
        }
    }

    /// Drops every plate switch: all plates of shown parts are shown again.
    pub fn clear_plates(&mut self)
        ensures
            forall|z: Seq<char>, p: Seq<char>| #[trigger] final(self).spec_part(z, p) == old(self).spec_part(z, p),
            forall|z: Seq<char>, p: Seq<char>, t: i32| #[trigger] final(self).spec_plate(z, p, t) is None,
    {
        self.plates = Vec::new();
        assert(plate_entries(self.plates@) =~= Seq::empty());
    }

    /// The check box of a part in the armor list: ticked when the part is
    /// shown and none of its listed plates (the plates of no thickness only
    /// when those are shown) is switched off; half-ticked when the part is
    /// shown but such a plate is switched off.
    pub fn part_check_box(&self, zone: &str, part: &str, thicknesses: &Vec<i32>, show_zero_mm: bool) -> (r: (
        bool,
        bool,
    ))
        ensures
            ({
                let on = shown(self.spec_part(zone@, part@));
                let any_hidden = exists|k: int|
                    0 <= k < thicknesses@.len() && (show_zero_mm || thicknesses@[k] != 0) && #[trigger] self.spec_plate(
                        zone@,
                        part@,
                        thicknesses@[k],
                    ) == Some(false);
                r == (on && !any_hidden, on && any_hidden)
            }),
    {
        let on = self.part_visible(zone, part);
        let mut any_hidden = false;
        let mut i: usize = 0;
        while i < thicknesses.len()
            invariant
                i <= thicknesses@.len(),
                any_hidden == exists|k: int|
                    0 <= k < i && (show_zero_mm || thicknesses@[k] != 0) && #[trigger] self.spec_plate(
                        zone@,
                        part@,
                        thicknesses@[k],
                    ) == Some(false),
            decreases thicknesses@.len() - i,
        {
            let t = thicknesses[i];
            if show_zero_mm || t != 0 {
                if let Some(false) = self.plate_switch(zone, part, t) {
                    any_hidden = true;
                }
            }
            i = i + 1;
        }
        (on && !any_hidden, on && any_hidden)
    }

    /// Whether a triangle of armor is drawn: plates of no thickness only when
    /// those are shown, only plates the game hides when just those are
    /// shown, and only when its part and its plate are shown.
    pub fn triangle_shown(
        &self,
        show_zero_mm: bool,
        zero_thickness: bool,
        show_hidden_only: bool,
        hidden: bool,
        zone: &str,
        part: &str,
        thickness: i32,
    ) -> (r: bool)
        ensures
            r == ((show_zero_mm || !zero_thickness) && (!show_hidden_only || hidden) && shown(self.spec_part(zone@, part@))
                && shown(self.spec_plate(zone@, part@, thickness))),
    {
        if !show_zero_mm && zero_thickness {
            return false;
        }
        if show_hidden_only && !hidden {
            return false;
        }
        self.part_visible(zone, part) && self.plate_visible(zone, part, thickness)
    }
}

} // verus!
