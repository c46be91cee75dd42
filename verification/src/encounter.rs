//! Encounters as **parametric deck-recipes**. A location's threat is a single [`EncounterCard`],
//! evaluated at the attempted level: a **roster** of creatures (each count a level-formula) plus
//! **thematic stat-scaling** (which stats grow with level signals the counter to bring). The level is
//! one dial scaling reward *and* threat together.
//!
//! `scaling_at(level)` is a [`StatCard`] — the scaling coefficients × level — grafted onto each foe's
//! Form as an attachment.

use vstd::prelude::*;
use crate::currency::{Currency, currency_label};
use crate::form::StatCard;
use crate::text::{decimal, push_num};

verus! {

/// One creature line in a roster recipe. Its **count at a level** is
/// `base + growth × (level − from_level)` once `level ≥ from_level`, else 0.
#[derive(Clone, Debug)]
pub struct RosterEntry {
    pub creature: String,
    pub from_level: u32,
    pub base: u32,
    pub growth: u32,
}

/// The count of a roster line at `level`.
pub open spec fn count_at(e: RosterEntry, level: u32) -> int {
    if level < e.from_level {
        0
    } else {
        e.base + e.growth * (level - e.from_level)
    }
}

impl RosterEntry {
    /// How many of this creature appear at `level`.
    pub fn count(&self, level: u32) -> (n: u32)
        requires
            count_at(*self, level) <= u32::MAX,
        ensures
            n == count_at(*self, level),
    {
        if level < self.from_level {
            0
        } else {
            let d = level - self.from_level;
            assert(self.growth * d <= u32::MAX) by (nonlinear_arith)
                requires
                    self.base + self.growth * d <= u32::MAX,
                    self.base >= 0,
            ;
            self.base + self.growth * d
        }
    }
}

/// An encounter card: a parametric recipe for a location's foes.
#[derive(Clone, Debug)]
pub struct EncounterCard {
    pub name: String,
    /// Which threat deck this belongs to — must match the location's currency.
    pub currency: Currency,
    /// The instinct / behavior keyword the whole roster fights with (e.g. "brute").
    pub strategy: String,
    pub foes: Vec<RosterEntry>,
    /// Thematic per-level stat coefficients: each foe's Form gains `scaling × level`.
    pub scaling: StatCard,
}

/// The roster at `level` of the lines `es`: `(creature name, count)` for each line with a positive
/// count, in order.
pub open spec fn roster_of(es: Seq<RosterEntry>, level: u32) -> Seq<(Seq<char>, int)>
    decreases es.len(),
{
    if es.len() == 0 {
        seq![]
    } else {
        let rest = roster_of(es.drop_last(), level);
        let e = es.last();
        if count_at(e, level) > 0 {
            rest.push((e.creature@, count_at(e, level)))
        } else {
            rest
        }
    }
}

/// The numbers of a roster evaluated at `level` all fit.
pub open spec fn counts_fit(es: Seq<RosterEntry>, level: u32) -> bool {
    forall|k: int| 0 <= k < es.len() ==> count_at(#[trigger] es[k], level) <= u32::MAX
}

/// The name of a scaled stat card.
pub open spec fn scaled_name(name: Seq<char>, level: u32) -> Seq<char> {
    name + " +L"@ + decimal(level as nat)
}

impl EncounterCard {
    /// The foe roster at `level`: `(creature name, count)` pairs, zero-count lines dropped.
    pub fn roster(&self, level: u32) -> (r: Vec<(String, u32)>)
        requires
            counts_fit(self.foes@, level),
        ensures
            r@.len() == roster_of(self.foes@, level).len(),
            forall|k: int|
                0 <= k < r@.len() ==> (#[trigger] r@[k]).0@ == roster_of(self.foes@, level)[k].0 && r@[k].1
                    == roster_of(self.foes@, level)[k].1,
    {
        let mut r: Vec<(String, u32)> = Vec::new();
        let mut i: usize = 0;
        assert(self.foes@.take(0) =~= Seq::<RosterEntry>::empty());
        while i < self.foes.len()
            invariant
                i <= self.foes@.len(),
                counts_fit(self.foes@, level),
                r@.len() == roster_of(self.foes@.take(i as int), level).len(),
                forall|k: int|
                    0 <= k < r@.len() ==> (#[trigger] r@[k]).0@ == roster_of(self.foes@.take(i as int), level)[k].0
                        && r@[k].1 == roster_of(self.foes@.take(i as int), level)[k].1,
            decreases self.foes.len() - i,
        {
            assert(self.foes@.take(i + 1).drop_last() =~= self.foes@.take(i as int));
            let e = &self.foes[i];
            assert(count_at(self.foes@[i as int], level) <= u32::MAX);
            let n = e.count(level);
            if n > 0 {
                r.push((e.creature.clone(), n));
            }
            i = i + 1;
        }
        assert(self.foes@.take(i as int) =~= self.foes@);
        r
    }

    /// The stat scaling to attach to **each** foe's Form at `level`: the coefficients × level, named
    /// after the card and the level.
    pub fn scaling_at(&self, level: u32) -> (c: StatCard)
        requires
            self.scaling.might * level <= u32::MAX,
            self.scaling.vitality * level <= u32::MAX,
            self.scaling.toughness * level <= u32::MAX,
            self.scaling.cadence * level <= u32::MAX,
            self.scaling.finesse * level <= u32::MAX,
        ensures
            c.name@ == scaled_name(self.name@, level),
            c.might == self.scaling.might * level,
            c.vitality == self.scaling.vitality * level,
            c.toughness == self.scaling.toughness * level,
            c.cadence == self.scaling.cadence * level,
            c.finesse == self.scaling.finesse * level,
    {
        let s = &self.scaling;
        let mut name = self.name.clone();
        name.append(" +L");
        push_num(&mut name, level as u64);
        StatCard {
            name,
            might: s.might * level,
            vitality: s.vitality * level,
            toughness: s.toughness * level,
            cadence: s.cadence * level,
            finesse: s.finesse * level,
        }
    }
}

/// A roster line's creature name, start level, base count and growth.
pub open spec fn entry_view(e: RosterEntry) -> (Seq<char>, u32, u32, u32) {
    (e.creature@, e.from_level, e.base, e.growth)
}

/// The roster of a track's grind encounter: a per-track swarm of Husks, with a lone prize or threat
/// where the track's lesson needs one.
pub open spec fn grind_roster(suit: Currency) -> Seq<(Seq<char>, u32, u32, u32)> {
    match suit {
        Currency::Iron => seq![("Husk"@, 1u32, 1u32, 1u32)],
        Currency::Silver => seq![("Seer"@, 1u32, 1u32, 0u32), ("Husk"@, 1u32, 0u32, 1u32)],
        Currency::Brass => seq![("Husk"@, 1u32, 2u32, 1u32)],
        Currency::Bone => seq![("Raider"@, 1u32, 1u32, 0u32), ("Husk"@, 1u32, 0u32, 1u32)],
        Currency::Salt => seq![("Seer"@, 1u32, 1u32, 0u32), ("Husk"@, 1u32, 1u32, 1u32)],
        Currency::Gold => seq![("Husk"@, 1u32, 1u32, 1u32)],
    }
}

fn husks(base: u32, growth: u32) -> (e: RosterEntry)
    ensures
        entry_view(e) == ("Husk"@, 1u32, base, growth),
{
    RosterEntry { creature: String::from_str("Husk"), from_level: 1, base, growth }
}

fn solo(creature: &str) -> (e: RosterEntry)
    ensures
        entry_view(e) == (creature@, 1u32, 1u32, 0u32),
{
    RosterEntry { creature: String::from_str(creature), from_level: 1, base: 1, growth: 0 }
}

/// The **grind encounter** of a track at `level`: an "aggressor" roster that teaches the track's
/// role — Iron a charge to hold, Silver a Seer prize behind guard Husks, Brass a wide front for area
/// fire, Bone a fast raider, Salt an attrition fight — named by the track and level, with no scaling.
pub fn grind_encounter(suit: Currency, level: u32) -> (c: EncounterCard)
    ensures
        c.name@ == currency_label(suit) + " L"@ + decimal(level as nat),
        c.currency == suit,
        c.strategy@ == "aggressor"@,
        c.foes@.len() == grind_roster(suit).len(),
        forall|i: int| 0 <= i < c.foes@.len() ==> entry_view(#[trigger] c.foes@[i]) == grind_roster(suit)[i],
        c.scaling.name@ == Seq::<char>::empty(),
        c.scaling.might == 0 && c.scaling.vitality == 0 && c.scaling.toughness == 0,
        c.scaling.cadence == 0 && c.scaling.finesse == 0,
{
    let mut foes: Vec<RosterEntry> = Vec::new();
    match suit {
        Currency::Iron => {
            foes.push(husks(1, 1));
        },
        Currency::Silver => {
            foes.push(solo("Seer"));
            foes.push(husks(0, 1));
        },
        Currency::Brass => {
            foes.push(husks(2, 1));
        },
        Currency::Bone => {
            foes.push(solo("Raider"));
            foes.push(husks(0, 1));
        },
        Currency::Salt => {
            foes.push(solo("Seer"));
            foes.push(husks(1, 1));
        },
        Currency::Gold => {
            foes.push(husks(1, 1));
        },
    }
    let mut name = String::from_str(suit.label());
    name.append(" L");
    push_num(&mut name, level as u64);
    EncounterCard {
        name,
        currency: suit,
        strategy: String::from_str("aggressor"),
        foes,
        scaling: StatCard { name: String::new(), might: 0, vitality: 0, toughness: 0, cadence: 0, finesse: 0 },
    }
}

} // verus!
