//! The single source of truth for card **content** — the five stats, the abilities, the starter
//! roster, the creatures and the encounters. Everything that mints a stat card, an ability card, or a
//! starter kit reads its name, description, and values from here, so each concept is authored once.

use vstd::prelude::*;
use crate::text::str_eq;

verus! {

// ---------------------------------------------------------------------------------------------
// Named tables.
// ---------------------------------------------------------------------------------------------

/// The views of a table of `(name, description)` pairs.
pub open spec fn pair_views(t: Seq<(&'static str, &'static str)>) -> Seq<(Seq<char>, Seq<char>)> {
    Seq::new(t.len(), |k: int| (t[k].0@, t[k].1@))
}

/// The description of the first entry of `table` named `name` at or after `k`, or empty.
pub open spec fn lookup_from(table: Seq<(Seq<char>, Seq<char>)>, name: Seq<char>, k: int) -> Seq<char>
    decreases table.len() - k,
{
    if k < 0 || k >= table.len() {
        Seq::empty()
    } else if table[k].0 == name {
        table[k].1
    } else {
        lookup_from(table, name, k + 1)
    }
}

/// The description of the first entry of `table` named `name`, or empty.
pub open spec fn lookup(table: Seq<(Seq<char>, Seq<char>)>, name: Seq<char>) -> Seq<char> {
    lookup_from(table, name, 0)
}

proof fn lemma_lookup_at(table: Seq<(Seq<char>, Seq<char>)>, name: Seq<char>, k: int)
    requires
        0 <= k < table.len(),
        table[k].0 == name,
        forall|q: int| 0 <= q < k ==> table[q].0 != name,
    ensures
        lookup(table, name) == table[k].1,
{
    lemma_lookup_skip(table, name, 0, k);
}

proof fn lemma_lookup_skip(table: Seq<(Seq<char>, Seq<char>)>, name: Seq<char>, j: int, k: int)
    requires
        0 <= j <= k <= table.len(),
        forall|q: int| j <= q < k ==> table[q].0 != name,
    ensures
        lookup_from(table, name, j) == lookup_from(table, name, k),
    decreases k - j,
{
    if j < k {
        lemma_lookup_skip(table, name, j + 1, k);
    }
}

proof fn lemma_lookup_none(table: Seq<(Seq<char>, Seq<char>)>, name: Seq<char>)
    requires
        forall|q: int| 0 <= q < table.len() ==> table[q].0 != name,
    ensures
        lookup(table, name) == Seq::<char>::empty(),
{
    lemma_lookup_skip(table, name, 0, table.len() as int);
}

pub open spec fn stats_spec() -> Seq<(Seq<char>, Seq<char>)> {
    seq![
        ("Might"@, "The force behind a strike; sets how much damage each blow deals."@),
        ("Vitality"@, "Your life. With Toughness it sets your Health - how much you endure before you fall."@),
        ("Toughness"@, "The bar your damage-pile must clear: within a sub-phase, damage piles up and each time it reaches your Toughness one Health card flips - leftover is wiped, not carried."@),
        ("Cadence"@, "Your pace - how many actions you get each round."@),
        ("Finesse"@, "Your skill - the grade of each action; how cheaply you win a contest."@),
    ]
}

pub open spec fn abilities_spec() -> Seq<(Seq<char>, Seq<char>)> {
    seq![
        ("Jab"@, "Melee | single target - a close blow to one foe."@),
        ("Shot"@, "Ranged | single target - a shot at one foe from the back."@),
        ("Sweep"@, "Melee | area - a close arc across a whole rank or group."@),
        ("Salvo"@, "Ranged | area - fire across a whole rank or group."@),
    ]
}

pub open spec fn creature_abilities_spec() -> Seq<(Seq<char>, Seq<char>)> {
    seq![
        ("Immovable"@, "Toughness above all but the heaviest blow - sub-bar hits are wiped, so only one overwhelming strike cracks it."@),
        ("Overrun"@, "A hoard of one-Health bodies. Single strikes kill one at a time and drown; an area attack clears the pack at once."@),
        ("Riposte"@, "Strikes back at every melee blow it can reach, twice a round - answer it from range, where it can't reach."@),
        ("Feint"@, "Never quite where it seems; low-Finesse blows whiff. Only a faster hand out-paces the feint and lands."@),
    ]
}

/// The five stats, each `(name, description)`, in the canonical order `[Might, Vitality, Toughness,
/// Cadence, Finesse]`.
pub fn stats() -> (t: [(&'static str, &'static str); 5])
    ensures
        pair_views(t@) == stats_spec(),
{
    let t = [
        ("Might", "The force behind a strike; sets how much damage each blow deals."),
        ("Vitality", "Your life. With Toughness it sets your Health - how much you endure before you fall."),
        ("Toughness", "The bar your damage-pile must clear: within a sub-phase, damage piles up and each time it reaches your Toughness one Health card flips - leftover is wiped, not carried."),
        ("Cadence", "Your pace - how many actions you get each round."),
        ("Finesse", "Your skill - the grade of each action; how cheaply you win a contest."),
    ];
    assert(pair_views(t@) =~= stats_spec());
    t
}

/// The four **generic attack** cards, one per `(reach × spread)` combination, each
/// `(name, description)`. A kit's identity lives in its stats; the attack card only sets **how** it
/// strikes.
pub fn abilities() -> (t: [(&'static str, &'static str); 4])
    ensures
        pair_views(t@) == abilities_spec(),
{
    let t = [
        ("Jab", "Melee | single target - a close blow to one foe."),
        ("Shot", "Ranged | single target - a shot at one foe from the back."),
        ("Sweep", "Melee | area - a close arc across a whole rank or group."),
        ("Salvo", "Ranged | area - fire across a whole rank or group."),
    ];
    assert(pair_views(t@) =~= abilities_spec());
    t
}

/// The creatures' abilities, each `(name, description)` — the mechanic that makes the creature a lock.
pub fn creature_abilities() -> (t: [(&'static str, &'static str); 4])
    ensures
        pair_views(t@) == creature_abilities_spec(),
{
    let t = [
        ("Immovable", "Toughness above all but the heaviest blow - sub-bar hits are wiped, so only one overwhelming strike cracks it."),
        ("Overrun", "A hoard of one-Health bodies. Single strikes kill one at a time and drown; an area attack clears the pack at once."),
        ("Riposte", "Strikes back at every melee blow it can reach, twice a round - answer it from range, where it can't reach."),
        ("Feint", "Never quite where it seems; low-Finesse blows whiff. Only a faster hand out-paces the feint and lands."),
    ];
    assert(pair_views(t@) =~= creature_abilities_spec());
    t
}

/// The description for a stat by name, or `""` if unknown.
pub fn stat_description(name: &str) -> (d: &'static str)
    ensures
        d@ == lookup(stats_spec(), name@),
{
    let t = stats();
    let mut k: usize = 0;
    while k < 5
        invariant
            k <= 5,
            pair_views(t@) == stats_spec(),
            forall|q: int| 0 <= q < k ==> stats_spec()[q].0 != name@,
        decreases 5 - k,
    {
        let (n, desc) = t[k];
        if str_eq(n, name) {
            proof {
                lemma_lookup_at(stats_spec(), name@, k as int);
            }
            return desc;
        }
        k = k + 1;
    }
    proof {
        lemma_lookup_none(stats_spec(), name@);
        reveal_strlit("");
    }
    ""
}

/// The description for an ability by name, or `""` if unknown.
pub fn ability_description(name: &str) -> (d: &'static str)
    ensures
        d@ == lookup(abilities_spec(), name@),
{
    let t = abilities();
    let mut k: usize = 0;
    while k < 4
        invariant
            k <= 4,
            pair_views(t@) == abilities_spec(),
            forall|q: int| 0 <= q < k ==> abilities_spec()[q].0 != name@,
        decreases 4 - k,
    {
        let (n, desc) = t[k];
        if str_eq(n, name) {
            proof {
                lemma_lookup_at(abilities_spec(), name@, k as int);
            }
            return desc;
        }
        k = k + 1;
    }
    proof {
        lemma_lookup_none(abilities_spec(), name@);
        reveal_strlit("");
    }
    ""
}

/// The description for a creature ability by name, or `""` if unknown.
pub fn creature_ability_description(name: &str) -> (d: &'static str)
    ensures
        d@ == lookup(creature_abilities_spec(), name@),
{
    let t = creature_abilities();
    let mut k: usize = 0;
    while k < 4
        invariant
            k <= 4,
            pair_views(t@) == creature_abilities_spec(),
            forall|q: int| 0 <= q < k ==> creature_abilities_spec()[q].0 != name@,
        decreases 4 - k,
    {
        let (n, desc) = t[k];
        if str_eq(n, name) {
            proof {
                lemma_lookup_at(creature_abilities_spec(), name@, k as int);
            }
            return desc;
        }
        k = k + 1;
    }
    proof {
        lemma_lookup_none(creature_abilities_spec(), name@);
        reveal_strlit("");
    }
    ""
}

/// The five stat **names** in canonical order.
pub fn stat_names() -> (n: [&'static str; 5])
    ensures
        forall|k: int| 0 <= k < 5 ==> (#[trigger] n@[k])@ == stats_spec()[k].0,
{
    let t = stats();
    let n = [t[0].0, t[1].0, t[2].0, t[3].0, t[4].0];
    assert forall|k: int| 0 <= k < 5 implies (#[trigger] n@[k])@ == stats_spec()[k].0 by {
        assert(pair_views(t@)[k] == (t@[k].0@, t@[k].1@));
    }
    n
}

/// The starter roster spec: `(name, [Might, Vitality, Toughness, Cadence, Finesse], ability)`.
pub open spec fn roster_spec() -> Seq<(Seq<char>, Seq<u8>, Seq<char>)> {
    seq![
        ("Executioner"@, seq![6, 3, 1, 1, 1], "Jab"@),
        ("Broadsider"@, seq![2, 3, 3, 1, 1], "Sweep"@),
        ("Marksman"@, seq![4, 4, 1, 2, 2], "Shot"@),
        ("Phantom"@, seq![4, 3, 1, 2, 3], "Jab"@),
    ]
}

/// The starter roster — the four kits, each `(name, stats, ability)` where `stats` is
/// `[Might, Vitality, Toughness, Cadence, Finesse]` and `ability` names an entry of [`abilities`]. Each
/// kit is the sole answer to one creature lock.
pub fn roster() -> (t: [(&'static str, [u8; 5], &'static str); 4])
    ensures
        forall|k: int|
            0 <= k < 4 ==> ((#[trigger] t@[k]).0@, t@[k].1@, t@[k].2@) == roster_spec()[k],
{
    let t = [
        ("Executioner", [6, 3, 1, 1, 1], "Jab"),
        ("Broadsider", [2, 3, 3, 1, 1], "Sweep"),
        ("Marksman", [4, 4, 1, 2, 2], "Shot"),
        ("Phantom", [4, 3, 1, 2, 3], "Jab"),
    ];
    assert forall|k: int| 0 <= k < 4 implies ((#[trigger] t@[k]).0@, t@[k].1@, t@[k].2@) == roster_spec()[k] by {
        assert(t@[k].1@ =~= roster_spec()[k].1);
    }
    t
}

// ---------------------------------------------------------------------------------------------
// Abilities.
// ---------------------------------------------------------------------------------------------

/// A kit ability's **reach** as `(melee, ranged)`: `Shot` and `Salvo` are ranged; everything else
/// (including an unknown name) is melee.
pub open spec fn reach_of(name: Seq<char>) -> (bool, bool) {
    if name == "Shot"@ || name == "Salvo"@ {
        (false, true)
    } else {
        (true, false)
    }
}

/// A kit ability's **reach** as `(melee, ranged)` — which attack types the hero carries.
pub fn ability_reach(name: &str) -> (r: (bool, bool))
    ensures
        r == reach_of(name@),
{
    if str_eq(name, "Shot") || str_eq(name, "Salvo") {
        (false, true)
    } else {
        (true, false)
    }
}

/// A generic attack's **strike shape** as `(ranged, aoe)`: ranged as [`ability_reach`] says, area for
/// `Sweep` and `Salvo`.
pub fn ability_shape(name: &str) -> (r: (bool, bool))
    ensures
        r == (reach_of(name@).1, name@ == "Sweep"@ || name@ == "Salvo"@),
{
    let (_melee, ranged) = ability_reach(name);
    let aoe = str_eq(name, "Sweep") || str_eq(name, "Salvo");
    (ranged, aoe)
}

// ---------------------------------------------------------------------------------------------
// Creatures.
// ---------------------------------------------------------------------------------------------

/// A **creature** — a foe stationed at an encounter. `stats` is `[Might, Vitality, Toughness, Cadence,
/// Finesse]`; `melee`/`ranged`/`aoe` are its strike shape; `hoard` marks a card that fields
/// Vitality-many one-Health bodies in one pack; `pos` is an authored stance override.
#[derive(Clone, Copy, Debug)]
pub struct Creature {
    pub name: &'static str,
    pub ability: &'static str,
    pub stats: [u8; 5],
    pub melee: bool,
    pub ranged: bool,
    pub aoe: bool,
    pub hoard: bool,
    pub pos: Option<&'static str>,
}

/// What a creature holds, as plain values.
pub struct CreatureView {
    pub name: Seq<char>,
    pub ability: Seq<char>,
    pub stats: Seq<u8>,
    pub melee: bool,
    pub ranged: bool,
    pub aoe: bool,
    pub hoard: bool,
    pub pos: Option<Seq<char>>,
}

pub open spec fn creature_view(c: Creature) -> CreatureView {
    CreatureView {
        name: c.name@,
        ability: c.ability@,
        stats: c.stats@,
        melee: c.melee,
        ranged: c.ranged,
        aoe: c.aoe,
        hoard: c.hoard,
        pos: match c.pos {
            Some(p) => Some(p@),
            None => None,
        },
    }
}

/// The four creatures; each is beaten by exactly one kit.
pub open spec fn creatures_spec() -> Seq<CreatureView> {
    seq![
        CreatureView { name: "The Anvil"@, ability: "Immovable"@, stats: seq![1, 2, 5, 1, 1], melee: true, ranged: false, aoe: false, hoard: false, pos: None },
        CreatureView { name: "The Swarm"@, ability: "Overrun"@, stats: seq![1, 45, 1, 1, 1], melee: true, ranged: false, aoe: false, hoard: true, pos: None },
        CreatureView { name: "The Coil"@, ability: "Riposte"@, stats: seq![6, 4, 2, 2, 1], melee: true, ranged: false, aoe: false, hoard: false, pos: Some("Vanguard"@) },
        CreatureView { name: "The Mirage"@, ability: "Feint"@, stats: seq![6, 5, 2, 1, 2], melee: true, ranged: false, aoe: false, hoard: false, pos: None },
    ]
}

/// The four creatures (the Anvil, the Swarm, the Coil, the Mirage).
pub fn creatures() -> (t: [Creature; 4])
    ensures
        forall|k: int| 0 <= k < 4 ==> creature_view(#[trigger] t@[k]) == creatures_spec()[k],
{
    let t = [
        Creature {
            name: "The Anvil",
            ability: "Immovable",
            stats: [1, 2, 5, 1, 1],
            melee: true,
            ranged: false,
            aoe: false,
            hoard: false,
            pos: None,
        },
        Creature {
            name: "The Swarm",
            ability: "Overrun",
            stats: [1, 45, 1, 1, 1],
            melee: true,
            ranged: false,
            aoe: false,
            hoard: true,
            pos: None,
        },
        Creature {
            name: "The Coil",
            ability: "Riposte",
            stats: [6, 4, 2, 2, 1],
            melee: true,
            ranged: false,
            aoe: false,
            hoard: false,
            pos: Some("Vanguard"),
        },
        Creature {
            name: "The Mirage",
            ability: "Feint",
            stats: [6, 5, 2, 1, 2],
            melee: true,
            ranged: false,
            aoe: false,
            hoard: false,
            pos: None,
        },
    ];
    assert forall|k: int| 0 <= k < 4 implies creature_view(#[trigger] t@[k]) == creatures_spec()[k] by {
        assert(t@[k].stats@ =~= creatures_spec()[k].stats);
    }
    t
}

/// The index of the first creature named `name`, if any.
pub open spec fn creature_at(name: Seq<char>) -> Option<int> {
    if exists|k: int| 0 <= k < 4 && creatures_spec()[k].name == name {
        Some(choose|k: int| 0 <= k < 4 && creatures_spec()[k].name == name)
    } else {
        None
    }
}

proof fn lemma_creature_names_distinct(i: int, j: int)
    requires
        0 <= i < 4,
        0 <= j < 4,
        creatures_spec()[i].name == creatures_spec()[j].name,
    ensures
        i == j,
{
    reveal_strlit("The Anvil");
    reveal_strlit("The Swarm");
    reveal_strlit("The Coil");
    reveal_strlit("The Mirage");
    assert("The Anvil"@[4] != "The Swarm"@[4]);
    assert("The Anvil"@[4] != "The Coil"@[4]);
    assert("The Anvil"@[4] != "The Mirage"@[4]);
    assert("The Swarm"@[4] != "The Coil"@[4]);
    assert("The Swarm"@[4] != "The Mirage"@[4]);
    assert("The Coil"@[4] != "The Mirage"@[4]);
}

/// The creature named `name`, or `None`.
pub fn creature(name: &str) -> (r: Option<Creature>)
    ensures
        match creature_at(name@) {
            Some(k) => r matches Some(c) && creature_view(c) == creatures_spec()[k],
            None => r is None,
        },
{
    let t = creatures();
    let mut k: usize = 0;
    while k < 4
        invariant
            k <= 4,
            forall|q: int| 0 <= q < 4 ==> creature_view(#[trigger] t@[q]) == creatures_spec()[q],
            forall|q: int| 0 <= q < k ==> creatures_spec()[q].name != name@,
        decreases 4 - k,
    {
        assert(creature_view(t@[k as int]) == creatures_spec()[k as int]);
        if str_eq(t[k].name, name) {
            assert(creatures_spec()[k as int].name == name@);
            let ghost w = choose|w: int| 0 <= w < 4 && creatures_spec()[w].name == name@;
            proof {
                lemma_creature_names_distinct(w, k as int);
            }
            return Some(t[k]);
        }
        k = k + 1;
    }
    None
}

/// A creature's intention: an authored stance wins; otherwise a ranged creature holds the Rearguard, a
/// creature whose Might meets its Toughness flanks as an Outrider, and the rest brace as a Vanguard.
pub open spec fn intention_of(v: CreatureView) -> Seq<char> {
    match v.pos {
        Some(p) => p,
        None => if v.ranged {
            "Rearguard"@
        } else if v.stats[0] >= v.stats[2] {
            "Outrider"@
        } else {
            "Vanguard"@
        },
    }
}

/// A creature's battle **intention** — Vanguard / Outrider / Rearguard — derived from its fields.
pub fn creature_intention(c: &Creature) -> (s: &'static str)
    ensures
        s@ == intention_of(creature_view(*c)),
{
    if let Some(pos) = c.pos {
        pos
    } else if c.ranged {
        "Rearguard"
    } else if c.stats[0] >= c.stats[2] {
        "Outrider"
    } else {
        "Vanguard"
    }
}

/// A creature ability's posture word.
pub open spec fn posture_of(ability: Seq<char>) -> Seq<char> {
    if ability == "Immovable"@ {
        "armored"@
    } else if ability == "Overrun"@ {
        "hoard"@
    } else if ability == "Riposte"@ {
        "ripostes"@
    } else if ability == "Feint"@ {
        "evasive"@
    } else {
        ""@
    }
}

/// A creature's **posture** — the one-word tell of *why* it is hard, read off its ability.
pub fn creature_posture(c: &Creature) -> (s: &'static str)
    ensures
        s@ == posture_of(c.ability@),
{
    if str_eq(c.ability, "Immovable") {
        "armored"
    } else if str_eq(c.ability, "Overrun") {
        "hoard"
    } else if str_eq(c.ability, "Riposte") {
        "ripostes"
    } else if str_eq(c.ability, "Feint") {
        "evasive"
    } else {
        ""
    }
}

/// The kit answering a creature ability's lock.
pub open spec fn counter_of(ability: Seq<char>) -> Seq<char> {
    if ability == "Immovable"@ {
        "Executioner"@
    } else if ability == "Overrun"@ {
        "Broadsider"@
    } else if ability == "Riposte"@ {
        "Marksman"@
    } else if ability == "Feint"@ {
        "Phantom"@
    } else {
        ""@
    }
}

/// The roster kit that cleanly answers a creature's lock.
pub fn creature_counter(c: &Creature) -> (s: &'static str)
    ensures
        s@ == counter_of(c.ability@),
{
    if str_eq(c.ability, "Immovable") {
        "Executioner"
    } else if str_eq(c.ability, "Overrun") {
        "Broadsider"
    } else if str_eq(c.ability, "Riposte") {
        "Marksman"
    } else if str_eq(c.ability, "Feint") {
        "Phantom"
    } else {
        ""
    }
}

// ---------------------------------------------------------------------------------------------
// Encounters.
// ---------------------------------------------------------------------------------------------

/// A location **encounter** — the foes stationed at a place on the map. A **solo** encounter fields its
/// single keystone creature; a **party** encounter fields all four creatures with the keystone doubled.
#[derive(Clone, Copy, Debug)]
pub struct Encounter {
    pub location: &'static str,
    pub title: &'static str,
    pub flavor: &'static str,
    /// The creature this encounter is built around.
    pub keystone: &'static str,
    pub party: bool,
}

/// What an encounter holds, as plain values.
pub struct EncounterView {
    pub location: Seq<char>,
    pub title: Seq<char>,
    pub flavor: Seq<char>,
    pub keystone: Seq<char>,
    pub party: bool,
}

pub open spec fn encounter_view(e: Encounter) -> EncounterView {
    EncounterView {
        location: e.location@,
        title: e.title@,
        flavor: e.flavor@,
        keystone: e.keystone@,
        party: e.party,
    }
}

/// Every non-inn location's encounter: four solos ringing the inn, four party fights in the corners.
pub open spec fn encounters_spec() -> Seq<EncounterView> {
    seq![
        EncounterView { location: "Cinderwatch Keep"@, title: "The Coiled Sentry"@, flavor: "A watch-drake coiled in the ruined keep, lashing at anything within reach."@, keystone: "The Coil"@, party: false },
        EncounterView { location: "The Sundered Vault"@, title: "The Vault Anvil"@, flavor: "An armored warden set to guard the sundered vault, unmoved by lesser blows."@, keystone: "The Anvil"@, party: false },
        EncounterView { location: "Thornmarch Gate"@, title: "The Thorn Swarm"@, flavor: "A boiling mass of bramble-imps swarming the entrance."@, keystone: "The Swarm"@, party: false },
        EncounterView { location: "The Salt Barrows"@, title: "The Barrow Mirage"@, flavor: "A grave-wraith drifting the salt barrows, never quite where it seems."@, keystone: "The Mirage"@, party: false },
        EncounterView { location: "The Hollow Rampart"@, title: "Breach of the Rampart"@, flavor: "The rampart is breached and everything pours through at once."@, keystone: "The Swarm"@, party: true },
        EncounterView { location: "Greywater Ford"@, title: "Ambush at the Ford"@, flavor: "An ambush dug in at the crossing, ready to lash back at anything that wades in."@, keystone: "The Coil"@, party: true },
        EncounterView { location: "Emberfall Hollow"@, title: "The Emberfall Beast"@, flavor: "A burning hollow guarded by something that will not fall to a single hand."@, keystone: "The Anvil"@, party: true },
        EncounterView { location: "Ninefold Deep"@, title: "Horror of the Ninefold Deep"@, flavor: "The deep shifts and feints; nothing down here holds still."@, keystone: "The Mirage"@, party: true },
    ]
}

/// Every non-inn location's encounter.
pub fn encounters() -> (t: [Encounter; 8])
    ensures
        forall|k: int| 0 <= k < 8 ==> encounter_view(#[trigger] t@[k]) == encounters_spec()[k],
{
    [
        Encounter {
            location: "Cinderwatch Keep",
            title: "The Coiled Sentry",
            flavor: "A watch-drake coiled in the ruined keep, lashing at anything within reach.",
            keystone: "The Coil",
            party: false,
        },
        Encounter {
            location: "The Sundered Vault",
            title: "The Vault Anvil",
            flavor: "An armored warden set to guard the sundered vault, unmoved by lesser blows.",
            keystone: "The Anvil",
            party: false,
        },
        Encounter {
            location: "Thornmarch Gate",
            title: "The Thorn Swarm",
            flavor: "A boiling mass of bramble-imps swarming the entrance.",
            keystone: "The Swarm",
            party: false,
        },
        Encounter {
            location: "The Salt Barrows",
            title: "The Barrow Mirage",
            flavor: "A grave-wraith drifting the salt barrows, never quite where it seems.",
            keystone: "The Mirage",
            party: false,
        },
        Encounter {
            location: "The Hollow Rampart",
            title: "Breach of the Rampart",
            flavor: "The rampart is breached and everything pours through at once.",
            keystone: "The Swarm",
            party: true,
        },
        Encounter {
            location: "Greywater Ford",
            title: "Ambush at the Ford",
            flavor: "An ambush dug in at the crossing, ready to lash back at anything that wades in.",
            keystone: "The Coil",
            party: true,
        },
        Encounter {
            location: "Emberfall Hollow",
            title: "The Emberfall Beast",
            flavor: "A burning hollow guarded by something that will not fall to a single hand.",
            keystone: "The Anvil",
            party: true,
        },
        Encounter {
            location: "Ninefold Deep",
            title: "Horror of the Ninefold Deep",
            flavor: "The deep shifts and feints; nothing down here holds still.",
            keystone: "The Mirage",
            party: true,
        },
    ]
}

/// The index of the first encounter at `location`, if any.
pub open spec fn encounter_at(location: Seq<char>) -> Option<int> {
    if exists|k: int| 0 <= k < 8 && encounters_spec()[k].location == location {
        Some(
            choose|k: int|
                0 <= k < 8 && encounters_spec()[k].location == location && forall|q: int|
                    0 <= q < k ==> encounters_spec()[q].location != location,
        )
    } else {
        None
    }
}

/// The encounter stationed at `location`, or `None` (the inn has none).
pub fn encounter_for(location: &str) -> (r: Option<Encounter>)
    ensures
        match encounter_at(location@) {
            Some(k) => r matches Some(e) && encounter_view(e) == encounters_spec()[k],
            None => r is None,
        },
{
    let t = encounters();
    let mut k: usize = 0;
    while k < 8
        invariant
            k <= 8,
            forall|q: int| 0 <= q < 8 ==> encounter_view(#[trigger] t@[q]) == encounters_spec()[q],
            forall|q: int| 0 <= q < k ==> encounters_spec()[q].location != location@,
        decreases 8 - k,
    {
        assert(encounter_view(t@[k as int]) == encounters_spec()[k as int]);
        if str_eq(t[k].location, location) {
            let ghost w = choose|w: int|
                0 <= w < 8 && encounters_spec()[w].location == location@ && forall|q: int|
                    0 <= q < w ==> encounters_spec()[q].location != location@;
            assert(w == k as int) by {
                if w < k {
                } else if w > k {
                    assert(encounters_spec()[k as int].location == location@);
                }
            }
            return Some(t[k]);
        }
        k = k + 1;
    }
    None
}

/// The foes an encounter fields, as `(creature, quantity)`: a party fields every creature (the
/// keystone twice); a solo fields its keystone once (nothing if the keystone names no creature).
pub open spec fn foes_of(ev: EncounterView) -> Seq<(CreatureView, int)> {
    if ev.party {
        Seq::new(
            4,
            |k: int| (creatures_spec()[k], if creatures_spec()[k].name == ev.keystone { 2int } else { 1int }),
        )
    } else {
        match creature_at(ev.keystone) {
            Some(k) => seq![(creatures_spec()[k], 1int)],
            None => seq![],
        }
    }
}

/// The foes an encounter fields, as `(creature, quantity)`, in creature order.
pub fn encounter_foes(e: &Encounter) -> (r: Vec<(Creature, u32)>)
    ensures
        r@.len() == foes_of(encounter_view(*e)).len(),
        forall|k: int|
            0 <= k < r@.len() ==> (creature_view((#[trigger] r@[k]).0), r@[k].1 as int) == foes_of(
                encounter_view(*e),
            )[k],
{
    let mut r: Vec<(Creature, u32)> = Vec::new();
    if e.party {
        let t = creatures();
        let mut k: usize = 0;
        while k < 4
            invariant
                k <= 4,
                e.party,
                forall|q: int| 0 <= q < 4 ==> creature_view(#[trigger] t@[q]) == creatures_spec()[q],
                r@.len() == k,
                forall|q: int|
                    0 <= q < k ==> (creature_view((#[trigger] r@[q]).0), r@[q].1 as int) == foes_of(
                        encounter_view(*e),
                    )[q],
            decreases 4 - k,
        {
            assert(creature_view(t@[k as int]) == creatures_spec()[k as int]);
            let q: u32 = if str_eq(t[k].name, e.keystone) {
                2
            } else {
                1
            };
            r.push((t[k], q));
            k = k + 1;
        }
    } else {
        match creature(e.keystone) {
            Some(c) => {
                r.push((c, 1));
            },
            None => {},
        }
    }
    r
}

/// An encounter's foe **roster** as `(creature name, quantity)` pairs — empty for a location with no
/// encounter (the inn).
pub fn encounter_roster(place_label: &str) -> (r: Vec<(&'static str, u32)>)
    ensures
        match encounter_at(place_label@) {
            Some(k) => {
                &&& r@.len() == foes_of(encounters_spec()[k]).len()
                &&& forall|q: int|
                    0 <= q < r@.len() ==> ((#[trigger] r@[q]).0@, r@[q].1 as int) == (
                        foes_of(encounters_spec()[k])[q].0.name,
                        foes_of(encounters_spec()[k])[q].1,
                    )
            },
            None => r@.len() == 0,
        },
{
    let mut r: Vec<(&'static str, u32)> = Vec::new();
    match encounter_for(place_label) {
        Some(e) => {
            let foes = encounter_foes(&e);
            let mut k: usize = 0;
            while k < foes.len()
                invariant
                    k <= foes@.len(),
                    r@.len() == k,
                    forall|q: int|
                        0 <= q < foes@.len() ==> (creature_view((#[trigger] foes@[q]).0), foes@[q].1 as int)
                            == foes_of(encounter_view(e))[q],
                    forall|q: int|
                        0 <= q < k ==> ((#[trigger] r@[q]).0@, r@[q].1 as int) == (
                            foes_of(encounter_view(e))[q].0.name,
                            foes_of(encounter_view(e))[q].1,
                        ),
                decreases foes.len() - k,
            {
                assert((creature_view(foes@[k as int].0), foes@[k as int].1 as int) == foes_of(encounter_view(e))[k as int]);
                r.push((foes[k].0.name, foes[k].1));
                k = k + 1;
            }
        },
        None => {},
    }
    r
}

} // verus!
