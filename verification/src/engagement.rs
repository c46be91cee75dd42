//! A **balance front-end** over the engagement-schedule combat: a "class" is an attack (range ×
//! shape) plus a five-stat allocation, the role *emerges* from range and stats ([`intention_for`]),
//! and the hold / break / deal triangle, the single-vs-area trade and the counterability of extreme
//! formations are probed without the full game loop.
//!
//! It runs on the real resolver: [`battle`], [`survivors_after`] and [`battle_traced`] build real
//! [`Actor`]s from the [`Unit`] specs and drive [`resolve_round`]. The only thing this layer owns is
//! the default policy stand-in — which intention a body declares.

use vstd::prelude::*;
use vstd::string::*;
use crate::actor::{Actor, Attack, Driver, Intention, Tally, Token, actor_down, strip, token_total, tokens_fit, lemma_strip_tallies};
use crate::cards::{Card, Cast, Effect, Resolve, RoleKind, ZoneBehavior, first_damage};
use crate::combat::{all_sane, board_ok, log_extends, pool_cap, pool_kept, resolve_round, round_kept, runs, sane, started, stat_cap, weapon_power};
use crate::form::Form;
use crate::game::battle_state_with;
use crate::ruleset::Ruleset;
use crate::state::State;
use crate::stats::{Defense, Offense};
use crate::text::{decimal, pad_left, pad_right, push_num, push_padded, push_right, str_eq};
use crate::balance::{compositions_k, label_part};

verus! {

/// How a unit answers incoming blows: `Evade` spends Tempo to dodge a blow that would flip a card
/// when affordable; `Endure` never spends Tempo on defense.
#[derive(Clone, Copy, PartialEq, Eq, Debug, Structural)]
pub enum HitMode {
    Evade,
    Endure,
}

/// A lean combatant for the sim: the stat block, an attack range, a side, an intention, the hit
/// policy, whether its strike is area, its group tag, and the round Tempo pool.
#[derive(Clone, Debug)]
pub struct Unit {
    pub name: String,
    pub side: u8,
    pub intent: Intention,
    pub offense: Offense,
    pub defense: Defense,
    pub attack: Attack,
    /// How this unit reacts to incoming blows — set by its strategy (informational: the resolver
    /// derives endure/evade from the role).
    pub hits: HitMode,
    /// An **area** strike hits every member of the target's group at full Might, unevadably.
    pub aoe: bool,
    /// Group binding: `None` is a lone unit; units sharing a tag form one group, front to back.
    pub group: Option<u32>,
    /// Round-scoped Tempo pool (= Cadence).
    pub tempo: i32,
}

/// `(Might, Vitality, Toughness, Cadence, Finesse)`.
pub type Stat5 = (u32, u32, u32, u32, u32);

/// The intention a unit emerges into from its range and stats: ranged deals from the Rearguard; an
/// aggressive melee body (Might ≥ Toughness) breaks the line as an Outrider; a durable one holds as a
/// Vanguard.
pub open spec fn intention_of(ranged: bool, s: Stat5) -> Intention {
    if ranged {
        Intention::Rearguard
    } else if s.0 >= s.2 {
        Intention::Outrider
    } else {
        Intention::Vanguard
    }
}

/// The default intention of a class: the Mage is the one ranged class.
pub fn default_intention(class: &str, s: Stat5) -> (r: Intention)
    ensures
        r == intention_of(class@ == "Mage"@, s),
{
    intention_for(str_eq(class, "Mage"), s)
}

/// The intention a unit emerges into, from its explicit range and stat line.
pub fn intention_for(ranged: bool, s: Stat5) -> (r: Intention)
    ensures
        r == intention_of(ranged, s),
{
    let (might, _, toughness, _, _) = s;
    if ranged {
        Intention::Rearguard
    } else if might >= toughness {
        Intention::Outrider
    } else {
        Intention::Vanguard
    }
}

/// A **generic class**: an attack (range × shape) plus a five-stat allocation.
#[derive(Debug)]
pub struct ClassDef {
    pub name: String,
    pub ranged: bool,
    pub aoe: bool,
    pub stats: Stat5,
}

/// The hit policy a role defaults to: a Vanguard endures, the others evade.
pub open spec fn hits_of(intent: Intention) -> HitMode {
    match intent {
        Intention::Vanguard => HitMode::Endure,
        _ => HitMode::Evade,
    }
}

/// The thematic default hit policy by role: a **Vanguard endures** — it holds the line and takes the
/// blows — while the Outrider and Rearguard evade.
pub fn default_hits(intent: Intention) -> (h: HitMode)
    ensures
        h == hits_of(intent),
{
    match intent {
        Intention::Vanguard => HitMode::Endure,
        Intention::Outrider | Intention::Rearguard => HitMode::Evade,
    }
}

/// **Roles emerge from range and build**: a ranged unit is a Rearguard; a melee unit is an Outrider
/// exactly when its Might is at least its Toughness, and a Vanguard exactly when it is less; only a
/// Vanguard endures its hits by default.
pub proof fn law_roles_emerge(ranged: bool, s: Stat5)
    ensures
        ranged ==> intention_of(ranged, s) == Intention::Rearguard,
        !ranged ==> (intention_of(ranged, s) == Intention::Outrider <==> s.0 >= s.2),
        !ranged ==> (intention_of(ranged, s) == Intention::Vanguard <==> s.0 < s.2),
        forall|r: Intention| (#[trigger] hits_of(r) == HitMode::Endure) <==> r == Intention::Vanguard,
{
}

/// `u` is the sim unit for a class named `name` with stats `s`, range `ranged`, area `aoe`, on
/// `side`: its intention emerges from range and stats, its hit policy follows that role, it is
/// ungrouped and its Tempo is its Cadence.
pub open spec fn unit_built(u: Unit, name: Seq<char>, ranged: bool, aoe: bool, s: Stat5, side: u8) -> bool {
    &&& u.name@ == name
    &&& u.side == side
    &&& u.intent == intention_of(ranged, s)
    &&& u.offense == (Offense { might: s.0, cadence: s.3, finesse: s.4 })
    &&& u.defense.health@ == crate::stats::fresh_deck(s.1 as nat, crate::stats::floor1(s.2))
    &&& u.defense.health_pile == 0
    &&& u.attack == (if ranged { Attack::Ranged } else { Attack::Melee })
    &&& u.hits == hits_of(u.intent)
    &&& u.aoe == aoe
    &&& u.group is None
    &&& u.tempo == s.3 as i32
}

/// Build a sim unit from a class: ranged iff the class is, area as the class says, the role from
/// range and stats, the hit policy from the role.
pub fn unit_from_class(c: &ClassDef, side: u8) -> (u: Unit)
    ensures
        unit_built(u, c.name@, c.ranged, c.aoe, c.stats, side),
{
    let (m, v, t, ca, f) = c.stats;
    let intent = intention_for(c.ranged, c.stats);
    Unit {
        name: c.name.clone(),
        side,
        intent,
        offense: Offense { might: m, cadence: ca, finesse: f },
        defense: Defense::new(v, t),
        attack: if c.ranged {
            Attack::Ranged
        } else {
            Attack::Melee
        },
        hits: default_hits(intent),
        aoe: c.aoe,
        group: None,
        tempo: #[verifier::truncate] (ca as i32),
    }
}

/// Build a sim unit from a class name and stat tuple: the Mage is ranged, the others melee; single
/// target.
pub fn make_unit(class: &str, s: Stat5, side: u8) -> (u: Unit)
    ensures
        unit_built(u, class@, class@ == "Mage"@, false, s, side),
{
    let (m, v, t, c, f) = s;
    let ranged = str_eq(class, "Mage");
    let attack = if ranged {
        Attack::Ranged
    } else {
        Attack::Melee
    };
    let intent = default_intention(class, s);
    Unit {
        name: String::from_str(class),
        side,
        intent,
        offense: Offense { might: m, cadence: c, finesse: f },
        defense: Defense::new(v, t),
        attack,
        hits: default_hits(intent),
        aoe: false,
        group: None,
        tempo: #[verifier::truncate] (c as i32),
    }
}

// ---------------------------------------------------------------------------------------------
// Running the real resolver.
// ---------------------------------------------------------------------------------------------

/// The fixed seed of the headless battles (combat without the Clash module draws no chance).
pub const SIM_SEED: u64 = 1;

/// The name of the generic strike card for a range and shape.
pub open spec fn strike_name(ranged: bool, aoe: bool) -> Seq<char> {
    if !ranged && !aoe {
        "Jab"@
    } else if ranged && !aoe {
        "Shot"@
    } else if !ranged && aoe {
        "Sweep"@
    } else {
        "Salvo"@
    }
}

/// The generic strike card: its reach sets the range (melee `[1,1]`, ranged `[2,2]`), its target
/// count the shape (single `1`, area `2`), and it deals power 0, so a strike's force is exactly Might.
pub open spec fn is_strike_card(c: Card, ranged: bool, aoe: bool) -> bool {
    &&& c.name@ == strike_name(ranged, aoe)
    &&& c.reach == (if ranged { [2u32, 2u32] } else { [1u32, 1u32] })
    &&& c.targets == (if aoe { 2u32 } else { 1u32 })
    &&& c.effects@ == seq![Effect::Damage { power: 0 }]
}

fn strike_card(ranged: bool, aoe: bool) -> (c: Card)
    ensures
        is_strike_card(c, ranged, aoe),
{
    let name = if !ranged && !aoe {
        "Jab"
    } else if ranged && !aoe {
        "Shot"
    } else if !ranged && aoe {
        "Sweep"
    } else {
        "Salvo"
    };
    let mut effects: Vec<Effect> = Vec::new();
    effects.push(Effect::Damage { power: 0 });
    Card {
        name: String::from_str(name),
        text: String::new(),
        flavor: String::new(),
        targets: if aoe {
            2
        } else {
            1
        },
        reach: if ranged {
            [2, 2]
        } else {
            [1, 1]
        },
        zone: ZoneBehavior::Return,
        tags: Vec::new(),
        passive: false,
        effects,
        cast: Cast::Strike,
        resolve: Resolve::OnCast,
        one_shot: false,
        role: None,
        kind: RoleKind::Base,
        positional: false,
        modifies: None,
    }
}

/// `a` is the body the sim fields for unit `u`: a bare body carrying `u`'s name and stats and the
/// strike card of its range and shape, freshly refreshed (no tokens, Tempo = Cadence, no pile).
pub open spec fn body_of(u: Unit, a: Actor) -> bool {
    let ranged = u.attack == Attack::Ranged;
    &&& a.name@ == u.name@
    &&& a.offense == u.offense
    &&& a.defense.health@ == u.defense.health@
    &&& a.defense.health_pile == 0
    &&& is_strike_card(a.weapon, ranged, u.aoe)
    &&& a.attack == (if ranged { Attack::Ranged } else { Attack::Melee })
    &&& a.aoe == u.aoe
    &&& a.tokens@.len() == 0
    &&& a.tempo == u.offense.cadence as i32
    &&& a.might_bonus == 0
    &&& !a.fallen
    &&& !a.cannot_fall
}

proof fn lemma_no_tokens(s: Seq<Token>)
    requires
        s.len() == 0,
    ensures
        forall|k: Tally| token_total(s, k) == 0,
        tokens_fit(s),
{
    assert forall|k: Tally| token_total(s, k) == 0 by {
        reveal_with_fuel(token_total, 1);
    }
}

/// Build the real body for a sim unit.
fn unit_to_actor(u: &Unit) -> (a: Actor)
    ensures
        body_of(*u, a),
{
    let ranged = match u.attack {
        Attack::Ranged => true,
        _ => false,
    };
    let weapon = strike_card(ranged, u.aoe);
    let cards = u.defense.health.cards.clone();
    proof {
        assert(cards@ =~= u.defense.health.cards@);
    }
    let mut a = Actor {
        name: u.name.clone(),
        role: String::new(),
        offense: u.offense,
        defense: Defense { health: crate::stats::Health { cards }, health_pile: 0 },
        form: Form { cards: Vec::new() },
        weapon,
        actions: Vec::new(),
        driver: Driver::Human,
        attack: if ranged {
            Attack::Ranged
        } else {
            Attack::Melee
        },
        aoe: u.aoe,
        tokens: Vec::new(),
        tempo: 0,
        cannot_fall: false,
        stunned: false,
        shoved: false,
        disarmed: false,
        routed: false,
        might_bonus: 0,
        free_slip_used: false,
        fallen: false,
        spent_one_shots: Vec::new(),
    };
    proof {
        lemma_no_tokens(a.tokens@);
    }
    a.refresh_round();
    proof {
        assert(strip(Seq::<Token>::empty(), true) =~= Seq::<Token>::empty());
    }
    a
}


/// The index of the first unit tagged `g` (the length when none is).
pub open spec fn first_tag(units: Seq<Unit>, g: u32) -> int
    decreases units.len(),
{
    if units.len() == 0 {
        0
    } else if units[0].group == Some(g) {
        0
    } else {
        1 + first_tag(units.drop_first(), g)
    }
}

/// The resolver's group id of unit `i`: its own index when untagged, else the first index carrying
/// its tag (so units sharing a tag share an id).
pub open spec fn group_id_of(units: Seq<Unit>, i: int) -> usize {
    match units[i].group {
        None => i as usize,
        Some(g) => first_tag(units, g) as usize,
    }
}

proof fn lemma_first_tag(units: Seq<Unit>, g: u32, j: int)
    requires
        0 <= j < units.len(),
        units[j].group == Some(g),
        forall|q: int| 0 <= q < j ==> units[q].group != Some(g),
    ensures
        first_tag(units, g) == j,
    decreases j,
{
    if j > 0 {
        let rest = units.drop_first();
        assert forall|q: int| 0 <= q < j - 1 implies rest[q].group != Some(g) by {
            assert(rest[q] == units[q + 1]);
        }
        lemma_first_tag(rest, g, j - 1);
        assert(units[0].group != Some(g));
    }
}

fn tagged(u: &Unit, g: u32) -> (b: bool)
    ensures
        b == (u.group == Some(g)),
{
    match u.group {
        Some(h) => h == g,
        None => false,
    }
}

/// Map the sim's group tags to the resolver's per-unit group ids ([`group_id_of`]).
fn group_ids(units: &[Unit]) -> (v: Vec<usize>)
    ensures
        v@.len() == units@.len(),
        forall|i: int| 0 <= i < units@.len() ==> (#[trigger] v@[i]) == group_id_of(units@, i),
{
    let mut v: Vec<usize> = Vec::new();
    let mut i: usize = 0;
    while i < units.len()
        invariant
            i <= units@.len(),
            v@.len() == i,
            forall|q: int| 0 <= q < i ==> (#[trigger] v@[q]) == group_id_of(units@, q),
        decreases units.len() - i,
    {
        match units[i].group {
            None => {
                v.push(i);
            },
            Some(g) => {
                let mut j: usize = 0;
                while !tagged(&units[j], g)
                    invariant
                        j <= i,
                        i < units@.len(),
                        units@[i as int].group == Some(g),
                        forall|q: int| 0 <= q < j ==> units@[q].group != Some(g),
                    decreases i - j,
                {
                    j = j + 1;
                }
                proof {
                    lemma_first_tag(units@, g, j as int);
                }
                v.push(j);
            },
        }
        i = i + 1;
    }
    v
}

/// The real bodies of a side.
fn actors_of(units: &[Unit]) -> (v: Vec<Actor>)
    ensures
        v@.len() == units@.len(),
        forall|i: int| 0 <= i < units@.len() ==> body_of(units@[i], #[trigger] v@[i]),
{
    let mut v: Vec<Actor> = Vec::new();
    let mut i: usize = 0;
    while i < units.len()
        invariant
            i <= units@.len(),
            v@.len() == i,
            forall|q: int| 0 <= q < i ==> body_of(units@[q], #[trigger] v@[q]),
        decreases units.len() - i,
    {
        v.push(unit_to_actor(&units[i]));
        i = i + 1;
    }
    v
}

/// The declared intentions of a side.
fn intents_of(units: &[Unit]) -> (v: Vec<Intention>)
    ensures
        v@ == Seq::new(units@.len(), |i: int| units@[i].intent),
{
    let mut v: Vec<Intention> = Vec::new();
    let mut i: usize = 0;
    while i < units.len()
        invariant
            i <= units@.len(),
            v@ == Seq::new(i as nat, |q: int| units@[q].intent),
        decreases units.len() - i,
    {
        v.push(units[i].intent);
        i = i + 1;
        assert(v@ =~= Seq::new(i as nat, |q: int| units@[q].intent));
    }
    v
}

/// The board a sim battle starts on: each side's bodies, declared intentions and group ids.
pub open spec fn sim_board(s: State, side0: Seq<Unit>, side1: Seq<Unit>) -> bool {
    &&& s.heroes@.len() == side0.len()
    &&& s.creatures@.len() == side1.len()
    &&& forall|i: int| 0 <= i < side0.len() ==> body_of(side0[i], #[trigger] s.heroes@[i])
    &&& forall|i: int| 0 <= i < side1.len() ==> body_of(side1[i], #[trigger] s.creatures@[i])
    &&& s.plan.hero_intent@ == Seq::new(side0.len(), |i: int| side0[i].intent)
    &&& s.plan.foe_intent@ == Seq::new(side1.len(), |i: int| side1[i].intent)
    &&& s.plan.hero_group@ == Seq::new(side0.len(), |i: int| group_id_of(side0, i))
    &&& s.plan.foe_group@ == Seq::new(side1.len(), |i: int| group_id_of(side1, i))
    &&& s.resolution is None
    &&& s.round == 1
    &&& s.seed == SIM_SEED
    &&& s.ruleset == (Ruleset { max_rounds: 5, max_unique_per_side: 5, rules: u16::MAX })
}

proof fn lemma_bodies_fit(units: Seq<Unit>, bodies: Seq<Actor>)
    requires
        bodies.len() == units.len(),
        forall|i: int| 0 <= i < units.len() ==> body_of(units[i], #[trigger] bodies[i]),
    ensures
        crate::game::pool_tokens_fit(bodies),
{
    assert forall|i: int| 0 <= i < bodies.len() implies tokens_fit((#[trigger] bodies[i]).tokens@) by {
        assert(body_of(units[i], bodies[i]));
        lemma_no_tokens(bodies[i].tokens@);
    }
}

/// Assemble the battle board from the two sides' unit specs: real bodies, the declared intentions
/// and the group layout, under the analysis ruleset.
fn battle_state_from(side0: &[Unit], side1: &[Unit]) -> (s: State)
    ensures
        sim_board(s, side0@, side1@),
{
    let heroes = actors_of(side0);
    let foes = actors_of(side1);
    proof {
        lemma_bodies_fit(side0@, heroes@);
        lemma_bodies_fit(side1@, foes@);
    }
    let mut state = battle_state_with(heroes, foes, false, SIM_SEED, Ruleset::analysis());
    state.plan.hero_intent = intents_of(side0);
    state.plan.foe_intent = intents_of(side1);
    let hg = group_ids(side0);
    let fg = group_ids(side1);
    proof {
        assert(hg@ =~= Seq::new(side0@.len(), |i: int| group_id_of(side0@, i)));
        assert(fg@ =~= Seq::new(side1@.len(), |i: int| group_id_of(side1@, i)));
    }
    state.plan.hero_group = hg;
    state.plan.foe_group = fg;
    state
}

/// A unit whose numbers sit within the resolver's caps.
pub open spec fn unit_fits(u: Unit) -> bool {
    &&& u.offense.might <= stat_cap()
    &&& u.offense.cadence <= stat_cap()
    &&& u.offense.finesse <= stat_cap()
    &&& forall|i: int| 0 <= i < u.defense.health@.len() ==> (#[trigger] u.defense.health@[i]).toughness <= stat_cap()
}

/// Two sides the sim can run: each at most the resolver's pool size, every unit within the caps.
pub open spec fn sides_fit(side0: Seq<Unit>, side1: Seq<Unit>) -> bool {
    &&& side0.len() <= pool_cap()
    &&& side1.len() <= pool_cap()
    &&& forall|i: int| 0 <= i < side0.len() ==> unit_fits(#[trigger] side0[i])
    &&& forall|i: int| 0 <= i < side1.len() ==> unit_fits(#[trigger] side1[i])
}

/// Every body's Cadence sits within the caps (so a refreshed Tempo does too).
pub open spec fn cadence_fits(p: Seq<Actor>) -> bool {
    forall|i: int| 0 <= i < p.len() ==> (#[trigger] p[i]).offense.cadence <= stat_cap()
}

proof fn lemma_body_sane(u: Unit, a: Actor)
    requires
        unit_fits(u),
        body_of(u, a),
    ensures
        sane(a),
{
    lemma_no_tokens(a.tokens@);
    let e = a.weapon.effects@;
    assert(e[0] == Effect::Damage { power: 0 });
    assert(first_damage(e) == Some(0u32));
    assert(weapon_power(a) == 0);
    assert forall|i: int| 0 <= i < a.defense.health@.len() implies (#[trigger] a.defense.health@[i]).toughness
        <= stat_cap() by {
        assert(a.defense.health@[i] == u.defense.health@[i]);
    }
}

proof fn lemma_sim_board_ok(s: State, side0: Seq<Unit>, side1: Seq<Unit>)
    requires
        sides_fit(side0, side1),
        sim_board(s, side0, side1),
    ensures
        board_ok(s),
        cadence_fits(s.heroes@),
        cadence_fits(s.creatures@),
{
    assert forall|i: int| 0 <= i < s.heroes@.len() implies sane(#[trigger] s.heroes@[i]) by {
        assert(unit_fits(side0[i]));
        assert(body_of(side0[i], s.heroes@[i]));
        lemma_body_sane(side0[i], s.heroes@[i]);
    }
    assert forall|i: int| 0 <= i < s.creatures@.len() implies sane(#[trigger] s.creatures@[i]) by {
        assert(unit_fits(side1[i]));
        assert(body_of(side1[i], s.creatures@[i]));
        lemma_body_sane(side1[i], s.creatures@[i]);
    }
    assert forall|i: int| 0 <= i < s.heroes@.len() implies (#[trigger] s.heroes@[i]).offense.cadence <= stat_cap() by {
        assert(unit_fits(side0[i]));
        assert(body_of(side0[i], s.heroes@[i]));
    }
    assert forall|i: int| 0 <= i < s.creatures@.len() implies (#[trigger] s.creatures@[i]).offense.cadence
        <= stat_cap() by {
        assert(unit_fits(side1[i]));
        assert(body_of(side1[i], s.creatures@[i]));
    }
}

/// Outcome of a battle from side 0's perspective.
#[derive(Clone, Copy, PartialEq, Eq, Debug, Structural)]
pub enum Outcome {
    Win,
    Loss,
    Draw,
}

/// Some body of the pool still stands.
pub open spec fn any_standing(p: Seq<Actor>) -> bool {
    exists|i: int| 0 <= i < p.len() && !actor_down(#[trigger] p[i])
}

/// The side-0 outcome of a resolved board, or `None` while both sides still stand: a side standing
/// alone wins; a mutual wipe is a draw.
pub open spec fn decided(s: State) -> Option<Outcome> {
    let a = any_standing(s.heroes@);
    let b = any_standing(s.creatures@);
    if a && !b {
        Some(Outcome::Win)
    } else if !a && b {
        Some(Outcome::Loss)
    } else if !a && !b {
        Some(Outcome::Draw)
    } else {
        None
    }
}

fn any_up(p: &[Actor]) -> (b: bool)
    ensures
        b == any_standing(p@),
{
    let mut i: usize = 0;
    while i < p.len()
        invariant
            i <= p@.len(),
            forall|q: int| 0 <= q < i ==> actor_down(#[trigger] p@[q]),
        decreases p.len() - i,
    {
        if !p[i].is_down() {
            return true;
        }
        i = i + 1;
    }
    false
}

/// Read the side-0 outcome from a resolved board.
fn decide(state: &State) -> (o: Option<Outcome>)
    ensures
        o == decided(*state),
{
    let a = any_up(state.heroes.as_slice());
    let b = any_up(state.creatures.as_slice());
    if a && !b {
        Some(Outcome::Win)
    } else if !a && b {
        Some(Outcome::Loss)
    } else if !a && !b {
        Some(Outcome::Draw)
    } else {
        None
    }
}

/// `b` is `a` at the start of a new round: a standing body refreshes (Tempo back to its effective
/// Cadence, round-scoped statuses and Guard tokens cleared, pile wiped); a downed one is untouched.
pub open spec fn refreshed(a: Actor, b: Actor) -> bool {
    if actor_down(a) {
        b == a
    } else {
        &&& b.tokens@ == strip(a.tokens@, true)
        &&& b.tempo == crate::actor::eff_cadence_of(a) as i32
        &&& !b.cannot_fall
        &&& !b.stunned
        &&& !b.shoved
        &&& !b.disarmed
        &&& !b.routed
        &&& !b.free_slip_used
        &&& b.might_bonus == 0
        &&& b.defense.health_pile == 0
        &&& b.defense.health@ == a.defense.health@
        &&& b.offense == a.offense
        &&& b.fallen == a.fallen
        &&& b.name == a.name
        &&& b.attack == a.attack
        &&& b.aoe == a.aoe
        &&& b.weapon == a.weapon
        &&& b.actions == a.actions
    }
}

proof fn lemma_refreshed_sane(a: Actor, b: Actor)
    requires
        sane(a),
        a.offense.cadence <= stat_cap(),
        refreshed(a, b),
    ensures
        sane(b),
        b.offense.cadence <= stat_cap(),
{
    if !actor_down(a) {
        lemma_strip_tallies(a.tokens@, true);
        assert forall|i: int| 0 <= i < b.defense.health@.len() implies (#[trigger] b.defense.health@[i]).toughness
            <= stat_cap() by {
            assert(b.defense.health@[i] == a.defense.health@[i]);
        }
        assert(weapon_power(b) == weapon_power(a));
    }
}

/// Refresh every standing body of a pool for the next round.
fn refresh_pool(pool: &mut [Actor])
    requires
        all_sane(old(pool)@),
        cadence_fits(old(pool)@),
    ensures
        final(pool)@.len() == old(pool)@.len(),
        forall|i: int| 0 <= i < old(pool)@.len() ==> refreshed(old(pool)@[i], #[trigger] final(pool)@[i]),
        all_sane(final(pool)@),
        cadence_fits(final(pool)@),
{
    let ghost p0 = pool@;
    let mut i: usize = 0;
    while i < pool.len()
        invariant
            i <= pool@.len() == p0.len(),
            all_sane(p0),
            cadence_fits(p0),
            forall|q: int| 0 <= q < i ==> refreshed(p0[q], #[trigger] pool@[q]),
            forall|q: int| i <= q < p0.len() ==> #[trigger] pool@[q] == p0[q],
        decreases pool.len() - i,
    {
        if !pool[i].is_down() {
            proof {
                assert(sane(p0[i as int]));
                crate::combat::lemma_sane_fits(p0[i as int]);
            }
            pool[i].refresh_round();
        }
        i = i + 1;
    }
    proof {
        assert forall|q: int| 0 <= q < p0.len() implies sane(#[trigger] pool@[q]) && pool@[q].offense.cadence
            <= stat_cap() by {
            assert(sane(p0[q]));
            lemma_refreshed_sane(p0[q], pool@[q]);
        }
    }
}

/// Refresh every standing body of both sides between rounds.
fn refresh(state: &mut State)
    requires
        board_ok(*old(state)),
        cadence_fits(old(state).heroes@),
        cadence_fits(old(state).creatures@),
    ensures
        board_ok(*final(state)),
        cadence_fits(final(state).heroes@),
        cadence_fits(final(state).creatures@),
        *final(state) == (State { heroes: final(state).heroes, creatures: final(state).creatures, ..*old(state) }),
        final(state).heroes@.len() == old(state).heroes@.len(),
        final(state).creatures@.len() == old(state).creatures@.len(),
        forall|i: int|
            0 <= i < old(state).heroes@.len() ==> refreshed(old(state).heroes@[i], #[trigger] final(state).heroes@[i]),
        forall|i: int|
            0 <= i < old(state).creatures@.len() ==> refreshed(
                old(state).creatures@[i],
                #[trigger] final(state).creatures@[i],
            ),
{
    refresh_pool(state.heroes.as_mut_slice());
    refresh_pool(state.creatures.as_mut_slice());
}

proof fn lemma_kept_cadence(p0: Seq<Actor>, p1: Seq<Actor>)
    requires
        cadence_fits(p0),
        pool_kept(p0, p1),
    ensures
        cadence_fits(p1),
{
    assert forall|i: int| 0 <= i < p1.len() implies (#[trigger] p1[i]).offense.cadence <= stat_cap() by {
        assert(round_kept(p0[i], p1[i]));
    }
}

/// The board a battle runs on between rounds: within the caps, and its pools the sizes of the sides.
pub open spec fn running(s: State, n0: nat, n1: nat) -> bool {
    &&& board_ok(s)
    &&& cadence_fits(s.heroes@)
    &&& cadence_fits(s.creatures@)
    &&& s.heroes@.len() == n0
    &&& s.creatures@.len() == n1
}

/// `s1` is board `s0` refreshed between rounds: every standing body refreshed, nothing else moved.
pub open spec fn refreshed_board(s0: State, s1: State) -> bool {
    &&& s1 == State { heroes: s1.heroes, creatures: s1.creatures, ..s0 }
    &&& s1.heroes@.len() == s0.heroes@.len()
    &&& s1.creatures@.len() == s0.creatures@.len()
    &&& forall|i: int| 0 <= i < s0.heroes@.len() ==> refreshed(s0.heroes@[i], #[trigger] s1.heroes@[i])
    &&& forall|i: int| 0 <= i < s0.creatures@.len() ==> refreshed(s0.creatures@[i], #[trigger] s1.creatures@[i])
}

/// One round from `s0`: the resolution runs to its end at `s1` ([`runs`]), `o` is its decision, and
/// an undecided board is refreshed into `s2`.
pub open spec fn round_played(s0: State, s1: State, o: Option<Outcome>, s2: State) -> bool {
    &&& exists|n: nat| #[trigger] runs(started(s0), s1, n)
    &&& log_extends(s0.log@, s1.log@)
    &&& o == decided(s1)
    &&& o is None ==> refreshed_board(s1, s2)
}

/// `o` is the outcome of a battle from board `s` at round `r` of at most `max`: a round is played; a
/// decided board ends the battle with its decision, an undecided one goes on, refreshed; past the cap
/// the battle is a Draw.
pub open spec fn fought(s: State, r: nat, max: nat, o: Outcome) -> bool
    decreases max - r,
{
    if r >= max {
        o == Outcome::Draw
    } else {
        exists|s1: State, s2: State|
            #[trigger] round_played(s, s1, decided(s1), s2) && match decided(s1) {
                Some(x) => o == x,
                None => fought(s2, r + 1, max, o),
            }
    }
}

/// **A win needs survivors**: a battle board is decided exactly when at least one side has no
/// standing body; side 0 wins only with a body standing against none, loses only with none against a
/// standing one, and a mutual wipe is a draw.
pub proof fn law_a_win_needs_survivors(s: State)
    ensures
        (decided(s) is None) <==> (any_standing(s.heroes@) && any_standing(s.creatures@)),
        decided(s) == Some(Outcome::Win) <==> (any_standing(s.heroes@) && !any_standing(s.creatures@)),
        decided(s) == Some(Outcome::Loss) <==> (!any_standing(s.heroes@) && any_standing(s.creatures@)),
        decided(s) == Some(Outcome::Draw) <==> (!any_standing(s.heroes@) && !any_standing(s.creatures@)),
{
}

/// Resolve one round, then refresh.
fn next_round(state: &mut State) -> (o: Option<Outcome>)
    requires
        running(*old(state), old(state).heroes@.len(), old(state).creatures@.len()),
    ensures
        running(*final(state), old(state).heroes@.len(), old(state).creatures@.len()),
        o is Some ==> (o->0 == Outcome::Win ==> old(state).heroes@.len() > 0) && (o->0 == Outcome::Loss
            ==> old(state).creatures@.len() > 0),
        exists|s1: State| #[trigger] round_played(*old(state), s1, o, *final(state)) && (o is Some ==> *final(state) == s1),
{
    let ghost s0 = *state;
    resolve_round(state);
    proof {
        lemma_kept_cadence(s0.heroes@, state.heroes@);
        lemma_kept_cadence(s0.creatures@, state.creatures@);
    }
    let ghost s1 = *state;
    let o = decide(state);
    if o.is_none() {
        refresh(state);
    }
    proof {
        assert(round_played(s0, s1, o, *state));
    }
    o
}

/// Run a battle to a decision or the round cap. Win = the enemy is wiped and side 0 has survivors;
/// a mutual wipe or a timeout is a Draw.
pub fn battle(side0: Vec<Unit>, side1: Vec<Unit>, max_rounds: u32) -> (o: Outcome)
    requires
        sides_fit(side0@, side1@),
    ensures
        max_rounds == 0 ==> o == Outcome::Draw,
        o == Outcome::Win ==> side0@.len() > 0,
        o == Outcome::Loss ==> side1@.len() > 0,
        exists|s: State| #[trigger] sim_board(s, side0@, side1@) && fought(s, 0, max_rounds as nat, o),
{
    let mut state = battle_state_from(side0.as_slice(), side1.as_slice());
    let ghost s_init = state;
    proof {
        lemma_sim_board_ok(state, side0@, side1@);
    }
    let mut r: u32 = 0;
    while r < max_rounds
        invariant
            running(state, side0@.len(), side1@.len()),
            sim_board(s_init, side0@, side1@),
            r <= max_rounds,
            forall|x: Outcome| #[trigger] fought(state, r as nat, max_rounds as nat, x) ==> fought(s_init, 0, max_rounds as nat, x),
        decreases max_rounds - r,
    {
        let ghost before = state;
        let step = next_round(&mut state);
        match step {
            Some(o) => {
                proof {
                    let s1 = choose|s1: State| #[trigger] round_played(before, s1, step, state) && (step is Some ==> state == s1);
                    assert(round_played(before, s1, decided(s1), state));
                    assert(fought(before, r as nat, max_rounds as nat, o));
                }
                return o;
            },
            None => {},
        }
        let ghost r0 = r;
        r = r + 1;
        proof {
            let s1 = choose|s1: State| #[trigger] round_played(before, s1, step, state) && (step is Some ==> state == s1);
            assert((r0 + 1) as nat == r as nat);
            assert forall|x: Outcome| #[trigger] fought(state, r as nat, max_rounds as nat, x) implies fought(
                s_init,
                0,
                max_rounds as nat,
                x,
            ) by {
                assert(round_played(before, s1, decided(s1), state));
                assert(fought(before, r0 as nat, max_rounds as nat, x));
            }
        }
    }
    proof {
        assert(fought(state, r as nat, max_rounds as nat, Outcome::Draw));
    }
    Outcome::Draw
}

fn count_up_bodies(p: &[Actor]) -> (n: usize)
    ensures
        n <= p@.len(),
        n == standing_count(p@),
{
    let mut n: usize = 0;
    let mut i: usize = 0;
    while i < p.len()
        invariant
            i <= p@.len(),
            n <= i,
            n == standing_count(p@.take(i as int)),
        decreases p.len() - i,
    {
        proof {
            assert(p@.take(i + 1).drop_last() =~= p@.take(i as int));
        }
        if !p[i].is_down() {
            n = n + 1;
        }
        i = i + 1;
    }
    proof {
        assert(p@.take(i as int) =~= p@);
    }
    n
}

/// Run exactly `rounds` rounds (no early stop) and count each side's survivors.
pub fn survivors_after(side0: Vec<Unit>, side1: Vec<Unit>, rounds: u32) -> (r: (usize, usize))
    requires
        sides_fit(side0@, side1@),
    ensures
        r.0 <= side0@.len(),
        r.1 <= side1@.len(),
        exists|s: State, sf: State|
            #[trigger] sim_board(s, side0@, side1@) && #[trigger] rounds_played(s, rounds as nat, sf) && r.0
                == standing_count(sf.heroes@) && r.1 == standing_count(sf.creatures@),
{
    let mut state = battle_state_from(side0.as_slice(), side1.as_slice());
    let ghost s_init = state;
    proof {
        lemma_sim_board_ok(state, side0@, side1@);
    }
    let mut k: u32 = 0;
    while k < rounds
        invariant
            running(state, side0@.len(), side1@.len()),
            sim_board(s_init, side0@, side1@),
            k <= rounds,
            forall|sf: State| #[trigger] rounds_played(state, (rounds - k) as nat, sf) ==> rounds_played(s_init, rounds as nat, sf),
        decreases rounds - k,
    {
        let ghost s0 = state;
        resolve_round(&mut state);
        let ghost s1 = state;
        proof {
            lemma_kept_cadence(s0.heroes@, state.heroes@);
            lemma_kept_cadence(s0.creatures@, state.creatures@);
        }
        refresh(&mut state);
        let ghost k0 = k;
        k = k + 1;
        proof {
            assert(refreshed_board(s1, state));
            assert((rounds - k0) as nat == ((rounds - k) as nat) + 1);
            assert forall|sf: State| #[trigger] rounds_played(state, (rounds - k) as nat, sf) implies rounds_played(
                s_init,
                rounds as nat,
                sf,
            ) by {
                lemma_rounds_played_prepend(s0, s1, state, (rounds - k) as nat, sf);
            }
        }
    }
    proof {
        assert((rounds - k) as nat == 0nat);
        assert(rounds_played(state, 0, state));
        assert(rounds_played(state, (rounds - k) as nat, state));
        assert(rounds_played(s_init, rounds as nat, state));
    }
    let a = count_up_bodies(state.heroes.as_slice());
    let b = count_up_bodies(state.creatures.as_slice());
    proof {
        assert(sim_board(s_init, side0@, side1@) && rounds_played(s_init, rounds as nat, state) && a == standing_count(state.heroes@) && b == standing_count(state.creatures@));
    }
    (a, b)
}

/// The number of bodies of a pool still standing.
pub open spec fn standing_count(p: Seq<Actor>) -> nat
    decreases p.len(),
{
    if p.len() == 0 {
        0
    } else {
        standing_count(p.drop_last()) + (if actor_down(p.last()) { 0nat } else { 1nat })
    }
}

/// One round resolved then refreshed, from `s` through `s1` to `s2`.
pub open spec fn round_then_refresh(s: State, s1: State, s2: State) -> bool {
    &&& exists|n: nat| #[trigger] runs(started(s), s1, n)
    &&& refreshed_board(s1, s2)
}

/// `sf` is board `s` after `k` rounds, each resolved then refreshed.
pub open spec fn rounds_played(s: State, k: nat, sf: State) -> bool
    decreases k,
{
    if k == 0 {
        sf == s
    } else {
        exists|s1: State, s2: State| #[trigger] round_then_refresh(s, s1, s2) && rounds_played(s2, (k - 1) as nat, sf)
    }
}

proof fn lemma_rounds_played_prepend(s: State, s1: State, s2: State, k: nat, sf: State)
    requires
        exists|n: nat| #[trigger] runs(started(s), s1, n),
        refreshed_board(s1, s2),
        rounds_played(s2, k, sf),
    ensures
        rounds_played(s, k + 1, sf),
{
    assert(round_then_refresh(s, s1, s2));
    assert(((k + 1) - 1) as nat == k);
}

/// The banner a traced battle writes before round `n`.
pub open spec fn round_banner(n: nat) -> Seq<char> {
    "== round "@ + decimal(n) + " =="@
}

fn banner(n: u32) -> (s: String)
    ensures
        s@ == round_banner(n as nat),
{
    let mut s = String::from_str("== round ");
    push_num(&mut s, n as u64);
    s.append(" ==");
    s
}

/// The lines `b` holds past its prefix of the length of `a`.
pub open spec fn new_lines(a: Seq<String>, b: Seq<String>) -> Seq<Seq<char>> {
    Seq::new((b.len() - a.len()) as nat, |j: int| b[a.len() + j]@)
}

/// The text of each line of a log.
pub open spec fn texts(log: Seq<String>) -> Seq<Seq<char>> {
    log.map_values(|x: String| x@)
}

/// `lines` is the trace of the battle from board `s` at round `r` of at most `max`, ending in `o`:
/// each round played writes its banner, then the resolver's narration of that round; a decided
/// round ends the trace, an undecided one goes on from the refreshed board; past the cap the trace
/// ends (a Draw).
pub open spec fn traced(s: State, r: nat, max: nat, o: Outcome, lines: Seq<Seq<char>>) -> bool
    decreases max - r,
{
    if r >= max {
        o == Outcome::Draw && lines.len() == 0
    } else {
        exists|s1: State, s2: State|
            #[trigger] round_played(s, s1, decided(s1), s2) && {
                let round = seq![round_banner(r + 1)] + new_lines(s.log@, s1.log@);
                &&& round.len() <= lines.len()
                &&& lines.take(round.len() as int) == round
                &&& match decided(s1) {
                    Some(x) => o == x && lines.len() == round.len(),
                    None => traced(s2, r + 1, max, o, lines.skip(round.len() as int)),
                }
            }
    }
}

/// Is unit `u` within the resolver's caps ([`unit_fits`])?
pub fn unit_within(u: &Unit) -> (b: bool)
    ensures
        b == unit_fits(*u),
{
    let cap: u32 = 0x10_0000;
    let mut i: usize = 0;
    while i < u.defense.health.cards.len()
        invariant
            i <= u.defense.health@.len(),
            cap == 0x10_0000,
            forall|j: int| 0 <= j < i ==> (#[trigger] u.defense.health@[j]).toughness <= stat_cap(),
        decreases u.defense.health.cards.len() - i,
    {
        if u.defense.health.cards[i].toughness > cap {
            return false;
        }
        i = i + 1;
    }
    u.offense.might <= cap && u.offense.cadence <= cap && u.offense.finesse <= cap
}

/// Can the sim run these two sides ([`sides_fit`])?
pub fn sides_within(side0: &Vec<Unit>, side1: &Vec<Unit>) -> (b: bool)
    ensures
        b == sides_fit(side0@, side1@),
{
    if side0.len() > 256 || side1.len() > 256 {
        return false;
    }
    let mut i: usize = 0;
    while i < side0.len()
        invariant
            i <= side0@.len(),
            forall|j: int| 0 <= j < i ==> unit_fits(#[trigger] side0@[j]),
        decreases side0.len() - i,
    {
        if !unit_within(&side0[i]) {
            return false;
        }
        i = i + 1;
    }
    let mut k: usize = 0;
    while k < side1.len()
        invariant
            k <= side1@.len(),
            side0@.len() <= 256,
            side1@.len() <= 256,
            forall|j: int| 0 <= j < side0@.len() ==> unit_fits(#[trigger] side0@[j]),
            forall|j: int| 0 <= j < k ==> unit_fits(#[trigger] side1@[j]),
        decreases side1.len() - k,
    {
        if !unit_within(&side1[k]) {
            return false;
        }
        k = k + 1;
    }
    true
}

/// [`battle`] on any two sides: sides outside the resolver's bounds ([`sides_fit`]) are reported
/// (`None`); any others fight it out.
pub fn battle_checked(side0: Vec<Unit>, side1: Vec<Unit>, max_rounds: u32) -> (o: Option<Outcome>)
    ensures
        o is None <==> !sides_fit(side0@, side1@),
        o matches Some(x) ==> {
            &&& (max_rounds == 0 ==> x == Outcome::Draw)
            &&& (x == Outcome::Win ==> side0@.len() > 0)
            &&& (x == Outcome::Loss ==> side1@.len() > 0)
            &&& exists|s: State| #[trigger] sim_board(s, side0@, side1@) && fought(s, 0, max_rounds as nat, x)
        },
{
    if !sides_within(&side0, &side1) {
        return None;
    }
    Some(battle(side0, side1, max_rounds))
}

/// Run a battle while collecting the resolver's narration, each round under a banner. Returns the
/// outcome and the trace.
pub fn battle_traced(side0: Vec<Unit>, side1: Vec<Unit>, max_rounds: u32) -> (r: (Outcome, Vec<String>))
    requires
        sides_fit(side0@, side1@),
    ensures
        max_rounds == 0 ==> r.0 == Outcome::Draw && r.1@.len() == 0,
        max_rounds > 0 ==> r.1@.len() >= 1 && r.1@[0]@ == round_banner(1),
        r.0 == Outcome::Win ==> side0@.len() > 0,
        r.0 == Outcome::Loss ==> side1@.len() > 0,
        exists|s: State| #[trigger] sim_board(s, side0@, side1@) && fought(s, 0, max_rounds as nat, r.0),
        exists|s: State| #[trigger] sim_board(s, side0@, side1@) && traced(s, 0, max_rounds as nat, r.0, texts(r.1@)),
{
    let mut state = battle_state_from(side0.as_slice(), side1.as_slice());
    let ghost s_init = state;
    proof {
        lemma_sim_board_ok(state, side0@, side1@);
    }
    let mut seen: usize = state.log.len();
    let mut log: Vec<String> = Vec::new();
    let mut k: u32 = 0;
    proof {
        assert forall|x: Outcome, lf: Seq<Seq<char>>| #[trigger]
            traced(state, 0, max_rounds as nat, x, lf) implies traced(s_init, 0, max_rounds as nat, x, texts(log@) + lf) by {
            assert(texts(log@) + lf =~= lf);
        }
    }
    while k < max_rounds
        invariant
            running(state, side0@.len(), side1@.len()),
            sim_board(s_init, side0@, side1@),
            k <= max_rounds,
            k == 0 ==> log@.len() == 0,
            k > 0 ==> log@.len() >= 1 && log@[0]@ == round_banner(1),
            forall|x: Outcome| #[trigger] fought(state, k as nat, max_rounds as nat, x) ==> fought(s_init, 0, max_rounds as nat, x),
            seen == state.log@.len(),
            forall|x: Outcome, lf: Seq<Seq<char>>| #[trigger]
                traced(state, k as nat, max_rounds as nat, x, lf) ==> traced(s_init, 0, max_rounds as nat, x, texts(log@) + lf),
        decreases max_rounds - k,
    {
        let ghost acc = texts(log@);
        log.push(banner(k + 1));
        let ghost before = state;
        let step = next_round(&mut state);
        let ghost s1 = choose|s1: State| #[trigger] round_played(before, s1, step, state) && (step is Some ==> state == s1);
        let ghost round = seq![round_banner((k + 1) as nat)] + new_lines(before.log@, s1.log@);
        assert(state.log == s1.log);
        let mut i: usize = seen;
        assert(texts(log@) =~= acc + round.take(1));
        while i < state.log.len()
            invariant
                log@.len() >= 1,
                k == 0 ==> log@[0]@ == round_banner(1),
                k > 0 ==> log@[0]@ == round_banner(1),
                seen == before.log@.len(),
                seen <= i <= state.log@.len(),
                state.log == s1.log,
                log_extends(before.log@, s1.log@),
                round == seq![round_banner((k + 1) as nat)] + new_lines(before.log@, s1.log@),
                texts(log@) == acc + round.take(1 + i - seen),
            decreases state.log.len() - i,
        {
            let ghost t0 = texts(log@);
            let x = state.log[i].clone();
            log.push(x);
            proof {
                assert(texts(log@) =~= t0.push(x@));
                assert(round[1 + i - seen] == s1.log@[i as int]@);
                assert(round.take(2 + i - seen) =~= round.take(1 + i - seen).push(round[1 + i - seen]));
            }
            i = i + 1;
        }
        assert(round.take(1 + i - seen) =~= round);
        seen = state.log.len();
        match step {
            Some(o) => {
                proof {
                    assert(round_played(before, s1, decided(s1), state));
                    assert(fought(before, k as nat, max_rounds as nat, o));
                    assert(texts(log@) =~= acc + round);
                    assert(round.take(round.len() as int) =~= round);
                    assert(traced(before, k as nat, max_rounds as nat, o, round));
                    assert(texts(log@) =~= acc + round);
                }
                return (o, log);
            },
            None => {},
        }
        let ghost k0 = k;
        k = k + 1;
        proof {
            assert((k0 + 1) as nat == k as nat);
            assert forall|x: Outcome, lf: Seq<Seq<char>>| #[trigger]
                traced(state, k as nat, max_rounds as nat, x, lf) implies traced(
                s_init,
                0,
                max_rounds as nat,
                x,
                texts(log@) + lf,
            ) by {
                let ll = round + lf;
                assert(ll.take(round.len() as int) =~= round);
                assert(ll.skip(round.len() as int) =~= lf);
                assert(round_played(before, s1, decided(s1), state));
                assert(traced(before, k0 as nat, max_rounds as nat, x, ll));
                assert(acc + ll =~= texts(log@) + lf);
            }
            assert forall|x: Outcome| #[trigger] fought(state, k as nat, max_rounds as nat, x) implies fought(
                s_init,
                0,
                max_rounds as nat,
                x,
            ) by {
                assert(round_played(before, s1, decided(s1), state));
                assert(fought(before, k0 as nat, max_rounds as nat, x));
            }
        }
    }
    proof {
        assert(fought(state, k as nat, max_rounds as nat, Outcome::Draw));
        assert(traced(state, k as nat, max_rounds as nat, Outcome::Draw, seq![]));
        assert(texts(log@) + seq![] =~= texts(log@));
    }
    (Outcome::Draw, log)
}

// ---------------------------------------------------------------------------------------------
// Strategies and counterability.
// ---------------------------------------------------------------------------------------------

/// How a strategy assigns each unit's **intention**.
#[derive(Clone, Copy, Debug, PartialEq, Eq, Structural)]
pub enum IntentPlan {
    AllVanguard,
    AllOutrider,
    AllRearguard,
    /// The balanced default: by stats ([`default_intention`]).
    ByStats,
}

/// A **strategy**: a deterministic, public-information script — where every unit stands. The hit
/// policy follows each unit's role default.
#[derive(Clone, Copy, Debug)]
pub struct Strategy {
    pub name: &'static str,
    pub plan: IntentPlan,
}

/// The intention a plan assigns a class with stats `s`.
pub open spec fn plan_intent(plan: IntentPlan, class: Seq<char>, s: Stat5) -> Intention {
    match plan {
        IntentPlan::AllVanguard => Intention::Vanguard,
        IntentPlan::AllOutrider => Intention::Outrider,
        IntentPlan::AllRearguard => Intention::Rearguard,
        IntentPlan::ByStats => intention_of(class == "Mage"@, s),
    }
}

impl Strategy {
    fn intent_for(&self, class: &str, s: Stat5) -> (r: Intention)
        ensures
            r == plan_intent(self.plan, class@, s),
    {
        match self.plan {
            IntentPlan::AllVanguard => Intention::Vanguard,
            IntentPlan::AllOutrider => Intention::Outrider,
            IntentPlan::AllRearguard => Intention::Rearguard,
            IntentPlan::ByStats => default_intention(class, s),
        }
    }
}

/// A roster entry: a class name and its stat tuple.
pub type Recruit = (&'static str, Stat5);

/// `u` is the unit of class `class` with stats `s` on `side`, standing at `intent` with the hit
/// policy that role defaults to.
pub open spec fn lone_unit(u: Unit, class: Seq<char>, s: Stat5, intent: Intention, side: u8) -> bool {
    &&& unit_built(Unit { intent: intention_of(class == "Mage"@, s), hits: hits_of(intention_of(class == "Mage"@, s)), ..u }, class, class == "Mage"@, false, s, side)
    &&& u.intent == intent
    &&& u.hits == hits_of(intent)
}

/// Build one side from a roster under a strategy: each unit stands where the strategy says, with
/// that role's hit policy.
pub fn build_side(roster: &[Recruit], strat: &Strategy, side: u8) -> (v: Vec<Unit>)
    ensures
        v@.len() == roster@.len(),
        forall|i: int|
            0 <= i < roster@.len() ==> lone_unit(
                #[trigger] v@[i],
                roster@[i].0@,
                roster@[i].1,
                plan_intent(strat.plan, roster@[i].0@, roster@[i].1),
                side,
            ),
{
    let mut v: Vec<Unit> = Vec::new();
    let mut i: usize = 0;
    while i < roster.len()
        invariant
            i <= roster@.len(),
            v@.len() == i,
            forall|q: int|
                0 <= q < i ==> lone_unit(
                    #[trigger] v@[q],
                    roster@[q].0@,
                    roster@[q].1,
                    plan_intent(strat.plan, roster@[q].0@, roster@[q].1),
                    side,
                ),
        decreases roster.len() - i,
    {
        let (class, s) = roster[i];
        let intent = strat.intent_for(class, s);
        let u = lone(class, s, intent, side);
        v.push(u);
        i = i + 1;
    }
    v
}

/// `n` copies of one recruit (an extreme mono-roster).
pub fn n_of(class: &'static str, s: Stat5, n: usize) -> (v: Vec<Recruit>)
    ensures
        v@ == Seq::new(n as nat, |i: int| (class, s)),
{
    let mut v: Vec<Recruit> = Vec::new();
    let mut i: usize = 0;
    while i < n
        invariant
            i <= n,
            v@ == Seq::new(i as nat, |q: int| (class, s)),
        decreases n - i,
    {
        v.push((class, s));
        i = i + 1;
        assert(v@ =~= Seq::new(i as nat, |q: int| (class, s)));
    }
    v
}

/// The hold stats: the Fighter, a Vanguard that endures.
pub open spec fn hold_stats() -> Stat5 {
    (1, 2, 3, 2, 2)
}

/// The break stats: the Assassin, an Outrider.
pub open spec fn break_stats() -> Stat5 {
    (2, 1, 1, 2, 2)
}

/// The deal stats: the Mage, a Rearguard.
pub open spec fn deal_stats() -> Stat5 {
    (3, 1, 2, 1, 1)
}

fn hold() -> (s: Stat5)
    ensures
        s == hold_stats(),
{
    (1, 2, 3, 2, 2)
}

fn brk() -> (s: Stat5)
    ensures
        s == break_stats(),
{
    (2, 1, 1, 2, 2)
}

fn deal() -> (s: Stat5)
    ensures
        s == deal_stats(),
{
    (3, 1, 2, 1, 1)
}

/// The **balanced party** — one of each role, played by stats — the reference a counter must hold
/// against.
pub fn balanced_party() -> (r: (Vec<Recruit>, Strategy))
    ensures
        r.0@.len() == 3,
        r.0@[0].0@ == "Fighter"@ && r.0@[0].1 == hold_stats(),
        r.0@[1].0@ == "Assassin"@ && r.0@[1].1 == break_stats(),
        r.0@[2].0@ == "Mage"@ && r.0@[2].1 == deal_stats(),
        r.1.name@ == "balanced"@,
        r.1.plan == IntentPlan::ByStats,
{
    let mut roster: Vec<Recruit> = Vec::new();
    roster.push(("Fighter", hold()));
    roster.push(("Assassin", brk()));
    roster.push(("Mage", deal()));
    (roster, Strategy { name: "balanced", plan: IntentPlan::ByStats })
}

/// One unit with an explicit intention (and the hit policy that role defaults to).
fn lone(class: &str, s: Stat5, intent: Intention, side: u8) -> (u: Unit)
    ensures
        lone_unit(u, class@, s, intent, side),
{
    let mut u = make_unit(class, s, side);
    u.intent = intent;
    u.hits = default_hits(intent);
    u
}

/// `n` copies of one class at one intention (a mono-formation).
fn mono(class: &str, s: Stat5, intent: Intention, n: usize, side: u8) -> (v: Vec<Unit>)
    ensures
        v@.len() == n,
        forall|i: int| 0 <= i < n ==> lone_unit(#[trigger] v@[i], class@, s, intent, side),
{
    let mut v: Vec<Unit> = Vec::new();
    let mut i: usize = 0;
    while i < n
        invariant
            i <= n,
            v@.len() == i,
            forall|q: int| 0 <= q < i ==> lone_unit(#[trigger] v@[q], class@, s, intent, side),
        decreases n - i,
    {
        v.push(lone(class, s, intent, side));
        i = i + 1;
    }
    v
}

/// `u` is a grouped member: a lone unit bound to group `gid`.
pub open spec fn member_unit(u: Unit, class: Seq<char>, s: Stat5, intent: Intention, gid: u32, side: u8) -> bool {
    &&& lone_unit(Unit { group: None, ..u }, class, s, intent, side)
    &&& u.group == Some(gid)
}

/// A single **group** (one shared tag) from `(class, stats, intention)` members, front to back.
fn grouped(members: &[(&'static str, Stat5, Intention)], gid: u32, side: u8) -> (v: Vec<Unit>)
    ensures
        v@.len() == members@.len(),
        forall|i: int|
            0 <= i < members@.len() ==> member_unit(
                #[trigger] v@[i],
                members@[i].0@,
                members@[i].1,
                members@[i].2,
                gid,
                side,
            ),
{
    let mut v: Vec<Unit> = Vec::new();
    let mut i: usize = 0;
    while i < members.len()
        invariant
            i <= members@.len(),
            v@.len() == i,
            forall|q: int|
                0 <= q < i ==> member_unit(
                    #[trigger] v@[q],
                    members@[q].0@,
                    members@[q].1,
                    members@[q].2,
                    gid,
                    side,
                ),
        decreases members.len() - i,
    {
        let (c, s, it) = members[i];
        let mut u = lone(c, s, it, side);
        u.group = Some(gid);
        v.push(u);
        i = i + 1;
    }
    v
}

/// Three lone units of one class at one intention, on side 1.
pub open spec fn mono3(v: Seq<Unit>, class: Seq<char>, s: Stat5, intent: Intention) -> bool {
    &&& v.len() == 3
    &&& forall|i: int| 0 <= i < 3 ==> lone_unit(#[trigger] v[i], class, s, intent, 1)
}

/// The extreme forces, each pushing one mechanic to a limit (all on the triad's eight-point budget,
/// so an extreme wins by formation, never by size).
pub open spec fn extremes_ok(v: Seq<(&'static str, Vec<Unit>)>) -> bool {
    &&& v.len() == 8
    &&& v[0].0@ == "all-Vanguard wall"@ && mono3(v[0].1@, "Fighter"@, (1, 2, 3, 1, 1), Intention::Vanguard)
    &&& v[1].0@ == "all-Outrider (evasive)"@ && mono3(v[1].1@, "Assassin"@, break_stats(), Intention::Outrider)
    &&& v[2].0@ == "all-Outrider (reckless/Endure)"@ && v[2].1@.len() == 3 && forall|i: int|
        0 <= i < 3 ==> {
            &&& lone_unit(Unit { hits: hits_of(Intention::Outrider), ..#[trigger] v[2].1@[i] }, "Assassin"@, break_stats(), Intention::Outrider, 1)
            &&& v[2].1@[i].hits == HitMode::Endure
        }
    &&& v[3].0@ == "all-Rearguard battery"@ && mono3(v[3].1@, "Mage"@, deal_stats(), Intention::Rearguard)
    &&& v[4].0@ == "glass cannons (max Might 4, 8pt)"@ && mono3(v[4].1@, "Mage"@, (4, 1, 1, 1, 1), Intention::Rearguard)
    &&& v[5].0@ == "fortress (max Toughness 4, 8pt)"@ && mono3(v[5].1@, "Fighter"@, (1, 1, 4, 1, 1), Intention::Vanguard)
    &&& v[6].0@ == "bodyguard group (Fighter front shields 2 Mages)"@ && v[6].1@.len() == 3
    &&& member_unit(v[6].1@[0], "Fighter"@, (1, 2, 3, 1, 1), Intention::Vanguard, 0, 1)
    &&& member_unit(v[6].1@[1], "Mage"@, deal_stats(), Intention::Vanguard, 0, 1)
    &&& member_unit(v[6].1@[2], "Mage"@, deal_stats(), Intention::Vanguard, 0, 1)
    &&& v[7].0@ == "AoE battery (3 area Mages)"@ && v[7].1@.len() == 3 && forall|i: int|
        0 <= i < 3 ==> {
            &&& lone_unit(Unit { aoe: false, ..#[trigger] v[7].1@[i] }, "Mage"@, deal_stats(), Intention::Rearguard, 1)
            &&& v[7].1@[i].aoe
        }
}

/// The **extreme** enemy forces (side 1), each pushing one mechanic to a limit a balanced party
/// should counter.
pub fn extreme_sides() -> (v: Vec<(&'static str, Vec<Unit>)>)
    ensures
        extremes_ok(v@),
{
    let mut reckless = mono("Assassin", brk(), Intention::Outrider, 3, 1);
    let ghost r0 = reckless@;
    let mut k: usize = 0;
    while k < reckless.len()
        invariant
            k <= reckless@.len() == 3,
            forall|i: int| 0 <= i < 3 ==> lone_unit(#[trigger] r0[i], "Assassin"@, break_stats(), Intention::Outrider, 1),
            forall|i: int| 0 <= i < k ==> #[trigger] reckless@[i] == (Unit { hits: HitMode::Endure, ..r0[i] }),
            forall|i: int| k <= i < 3 ==> #[trigger] reckless@[i] == r0[i],
        decreases reckless.len() - k,
    {
        reckless[k].hits = HitMode::Endure;
        k = k + 1;
    }
    let mut battery = mono("Mage", deal(), Intention::Rearguard, 3, 1);
    let ghost b0 = battery@;
    let mut k: usize = 0;
    while k < battery.len()
        invariant
            k <= battery@.len() == 3,
            forall|i: int| 0 <= i < 3 ==> lone_unit(#[trigger] b0[i], "Mage"@, deal_stats(), Intention::Rearguard, 1),
            forall|i: int| 0 <= i < k ==> #[trigger] battery@[i] == (Unit { aoe: true, ..b0[i] }),
            forall|i: int| k <= i < 3 ==> #[trigger] battery@[i] == b0[i],
        decreases battery.len() - k,
    {
        battery[k].aoe = true;
        k = k + 1;
    }
    let mut guard: Vec<(&'static str, Stat5, Intention)> = Vec::new();
    guard.push(("Fighter", (1, 2, 3, 1, 1), Intention::Vanguard));
    guard.push(("Mage", deal(), Intention::Vanguard));
    guard.push(("Mage", deal(), Intention::Vanguard));
    let bodyguard = grouped(guard.as_slice(), 0, 1);
    let mut v: Vec<(&'static str, Vec<Unit>)> = Vec::new();
    v.push(("all-Vanguard wall", mono("Fighter", (1, 2, 3, 1, 1), Intention::Vanguard, 3, 1)));
    v.push(("all-Outrider (evasive)", mono("Assassin", brk(), Intention::Outrider, 3, 1)));
    v.push(("all-Outrider (reckless/Endure)", reckless));
    v.push(("all-Rearguard battery", mono("Mage", deal(), Intention::Rearguard, 3, 1)));
    v.push(("glass cannons (max Might 4, 8pt)", mono("Mage", (4, 1, 1, 1, 1), Intention::Rearguard, 3, 1)));
    v.push(("fortress (max Toughness 4, 8pt)", mono("Fighter", (1, 1, 4, 1, 1), Intention::Vanguard, 3, 1)));
    v.push(("bodyguard group (Fighter front shields 2 Mages)", bodyguard));
    v.push(("AoE battery (3 area Mages)", battery));
    proof {
        assert forall|i: int| 0 <= i < 3 implies {
            &&& lone_unit(Unit { hits: hits_of(Intention::Outrider), ..#[trigger] v@[2].1@[i] }, "Assassin"@, break_stats(), Intention::Outrider, 1)
            &&& v@[2].1@[i].hits == HitMode::Endure
        } by {
            assert(v@[2].1@[i] == (Unit { hits: HitMode::Endure, ..r0[i] }));
            assert(lone_unit(r0[i], "Assassin"@, break_stats(), Intention::Outrider, 1));
        }
        assert forall|i: int| 0 <= i < 3 implies {
            &&& lone_unit(Unit { aoe: false, ..#[trigger] v@[7].1@[i] }, "Mage"@, deal_stats(), Intention::Rearguard, 1)
            &&& v@[7].1@[i].aoe
        } by {
            assert(v@[7].1@[i] == (Unit { aoe: true, ..b0[i] }));
            assert(lone_unit(b0[i], "Mage"@, deal_stats(), Intention::Rearguard, 1));
        }
    }
    v
}


// ---------------------------------------------------------------------------------------------
// Experiment reports.
// ---------------------------------------------------------------------------------------------

/// A tuning triad, in hold / break / deal order.
pub type Triad = [(&'static str, Stat5); 3];

/// Stats the resolver's caps admit.
pub open spec fn stats_fit(s: Stat5) -> bool {
    &&& s.0 <= stat_cap()
    &&& s.2 <= stat_cap()
    &&& s.3 <= stat_cap()
    &&& s.4 <= stat_cap()
}

/// Every stat line of the triad fits the caps.
pub open spec fn triad_fits(t: Triad) -> bool {
    &&& stats_fit(t[0].1)
    &&& stats_fit(t[1].1)
    &&& stats_fit(t[2].1)
}

proof fn lemma_lone_fits(u: Unit, class: Seq<char>, s: Stat5, intent: Intention, side: u8)
    requires
        lone_unit(u, class, s, intent, side),
        stats_fit(s),
    ensures
        unit_fits(u),
{
    assert forall|i: int| 0 <= i < u.defense.health@.len() implies (#[trigger] u.defense.health@[i]).toughness
        <= stat_cap() by {
        assert(u.defense.health@[i].toughness == crate::stats::floor1(s.2));
    }
}

/// Which triad role the `q`-th unit of a party of composition `counts` plays.
pub open spec fn role_at(counts: Seq<u32>, q: int) -> int {
    if q < counts[0] {
        0
    } else if q < counts[0] + counts[1] {
        1
    } else {
        2
    }
}

/// `u` is the unit [`make_unit`] builds for triad role `role` on `side`.
pub open spec fn unit_for(u: Unit, t: Triad, role: int, side: u8) -> bool {
    unit_built(u, t[role].0@, t[role].0@ == "Mage"@, false, t[role].1, side)
}

/// `p` is the party of composition `counts` on `side`: `counts[i]` units of triad role `i`, in role
/// order, each built by [`make_unit`].
pub open spec fn party_of(counts: Seq<u32>, t: Triad, side: u8, p: Seq<Unit>) -> bool {
    &&& p.len() == counts[0] + counts[1] + counts[2]
    &&& forall|q: int|
        0 <= q < p.len() ==> #[trigger] unit_for(p[q], t, role_at(counts, q), side)
}

/// The party of a composition: `counts[i]` units of role `i` of the triad.
fn party(counts: &[u32], triad: &Triad, side: u8) -> (p: Vec<Unit>)
    requires
        counts@.len() == 3,
        triad_fits(*triad),
        counts@[0] + counts@[1] + counts@[2] <= pool_cap(),
    ensures
        p@.len() == counts@[0] + counts@[1] + counts@[2],
        forall|i: int| 0 <= i < p@.len() ==> unit_fits(#[trigger] p@[i]),
        party_of(counts@, *triad, side, p@),
{
    let mut p: Vec<Unit> = Vec::new();
    let mut i: usize = 0;
    while i < 3
        invariant
            i <= 3,
            counts@.len() == 3,
            triad_fits(*triad),
            p@.len() == (if i == 0 { 0 } else if i == 1 { counts@[0] as int } else if i == 2 { counts@[0] + counts@[1] } else { counts@[0] + counts@[1] + counts@[2] }),
            forall|q: int| 0 <= q < p@.len() ==> unit_fits(#[trigger] p@[q]),
            forall|q: int|
                0 <= q < p@.len() ==> #[trigger] unit_for(p@[q], *triad, role_at(counts@, q), side),
        decreases 3 - i,
    {
        let (class, s) = triad[i];
        let mut c: u32 = 0;
        let ghost base = p@.len() as int;
        while c < counts[i]
            invariant
                c <= counts@[i as int],
                i < 3,
                counts@.len() == 3,
                stats_fit(s),
                p@.len() == base + c,
                base == (if i == 0 { 0 } else if i == 1 { counts@[0] as int } else { counts@[0] + counts@[1] }),
                (class, s) == triad[i as int],
                forall|q: int| 0 <= q < p@.len() ==> unit_fits(#[trigger] p@[q]),
                forall|q: int|
                    0 <= q < p@.len() ==> #[trigger] unit_for(p@[q], *triad, role_at(counts@, q), side),
            decreases counts@[i as int] - c,
        {
            let u = make_unit(class, s, side);
            proof {
                lemma_lone_fits(u, class@, s, u.intent, side);
                assert(role_at(counts@, p@.len() as int) == i as int);
            }
            p.push(u);
            c = c + 1;
        }
        i = i + 1;
    }
    p
}

/// The record tag of an outcome.
pub open spec fn tag_of(o: Outcome) -> Seq<char> {
    match o {
        Outcome::Win => "WIN "@,
        Outcome::Loss => "LOSS"@,
        Outcome::Draw => "draw"@,
    }
}

fn tag(o: Outcome) -> (s: &'static str)
    ensures
        s@ == tag_of(o),
{
    match o {
        Outcome::Win => "WIN ",
        Outcome::Loss => "LOSS",
        Outcome::Draw => "draw",
    }
}

/// A triad member's stat line: `  <class, padded to 9> M.. V.. T.. C.. F..`.
pub open spec fn stat_line(c: Seq<char>, s: Stat5) -> Seq<char> {
    "  "@ + pad_right(c, 9) + " M"@ + decimal(s.0 as nat) + " V"@ + decimal(s.1 as nat) + " T"@ + decimal(
        s.2 as nat,
    ) + " C"@ + decimal(s.3 as nat) + " F"@ + decimal(s.4 as nat) + "\n"@
}

fn stat_line_text(c: &str, s: Stat5) -> (t: String)
    ensures
        t@ == stat_line(c@, s),
{
    let (m, v, tt, ca, f) = s;
    let mut t = String::from_str("  ");
    push_padded(&mut t, c, 9);
    t.append(" M");
    push_num(&mut t, m as u64);
    t.append(" V");
    push_num(&mut t, v as u64);
    t.append(" T");
    push_num(&mut t, tt as u64);
    t.append(" C");
    push_num(&mut t, ca as u64);
    t.append(" F");
    push_num(&mut t, f as u64);
    t.append("\n");
    t
}

/// The name of triad role `i`.
pub open spec fn role_name(i: int) -> Seq<char> {
    if i == 0 {
        "Hold"@
    } else if i == 1 {
        "Break"@
    } else {
        "Deal"@
    }
}

fn role_text(i: usize) -> (s: &'static str)
    ensures
        s@ == role_name(i as int),
{
    if i == 0 {
        "Hold"
    } else if i == 1 {
        "Break"
    } else {
        "Deal"
    }
}

/// One 1v1 bout of the triangle report: `<role i>><role j> <tag>  `.
pub open spec fn bout(i: int, j: int, o: Outcome) -> Seq<char> {
    role_name(i) + ">"@ + role_name(j) + " "@ + tag_of(o) + "  "@
}

fn bout_text(i: usize, j: usize, o: Outcome) -> (s: String)
    ensures
        s@ == bout(i as int, j as int, o),
{
    let mut s = String::from_str(role_text(i));
    s.append(">");
    s.append(role_text(j));
    s.append(" ");
    s.append(tag(o));
    s.append("  ");
    s
}

/// The triangle report for bout outcomes `os` (the cycle Hold>Break, Break>Deal, Deal>Hold, then the
/// same pairs reversed).
pub open spec fn rps_text(t: Triad, os: Seq<Outcome>) -> Seq<char> {
    "RPS triangle (1v1, default vs default):\n"@ + stat_line(t[0].0@, t[0].1) + stat_line(t[1].0@, t[1].1)
        + stat_line(t[2].0@, t[2].1) + "  cycle (want WIN): "@ + bout(0, 1, os[0]) + bout(1, 2, os[1]) + bout(
        2,
        0,
        os[2],
    ) + "\n  anti   (want !WIN): "@ + bout(1, 0, os[3]) + bout(2, 1, os[4]) + bout(0, 2, os[5]) + "\n"@
}

/// `o` is the outcome of the eight-round 1v1 battle of triad member `i` (side 0) against member `j`
/// (side 1), each built by [`make_unit`].
#[verifier::opaque]
pub open spec fn bout_result(t: Triad, i: int, j: int, o: Outcome) -> bool {
    exists|u0: Unit, u1: Unit, s: State|
        #![trigger sim_board(s, seq![u0], seq![u1])]
        unit_built(u0, t[i].0@, t[i].0@ == "Mage"@, false, t[i].1, 0) && unit_built(
            u1,
            t[j].0@,
            t[j].0@ == "Mage"@,
            false,
            t[j].1,
            1,
        ) && sim_board(s, seq![u0], seq![u1]) && fought(s, 0, 8, o)
}

/// One 1v1 battle of triad members `i` (side 0) against `j` (side 1), eight rounds.
fn duel_of(triad: &Triad, i: usize, j: usize) -> (o: Outcome)
    requires
        i < 3,
        j < 3,
        triad_fits(*triad),
    ensures
        bout_result(*triad, i as int, j as int, o),
{
    let (ci, si) = triad[i];
    let (cj, sj) = triad[j];
    let a = make_unit(ci, si, 0);
    let b = make_unit(cj, sj, 1);
    proof {
        lemma_lone_fits(a, ci@, si, a.intent, 0);
        lemma_lone_fits(b, cj@, sj, b.intent, 1);
    }
    let ghost ga = a;
    let ghost gb = b;
    let mut side0: Vec<Unit> = Vec::new();
    side0.push(a);
    let mut side1: Vec<Unit> = Vec::new();
    side1.push(b);
    proof {
        assert(side0@ =~= seq![ga]);
        assert(side1@ =~= seq![gb]);
    }
    let o = battle(side0, side1, 8);
    proof {
        reveal(bout_result);
    }
    o
}

/// **The RPS triangle at 1v1**: each role against each other role, the cycle (Hold beats Break,
/// Break beats Deal, Deal beats Hold) and then the reverse pairs.
pub fn rps_report(triad: &Triad) -> (s: String)
    requires
        triad_fits(*triad),
    ensures
        exists|os: Seq<Outcome>|
            #![trigger rps_text(*triad, os)]
            os.len() == 6 && s@ == rps_text(*triad, os) && bout_result(*triad, 0, 1, os[0]) && bout_result(
                *triad,
                1,
                2,
                os[1],
            ) && bout_result(*triad, 2, 0, os[2]) && bout_result(*triad, 1, 0, os[3]) && bout_result(*triad, 2, 1, os[4])
                && bout_result(*triad, 0, 2, os[5]),
{
    let mut out = String::from_str("RPS triangle (1v1, default vs default):\n");
    out.append(stat_line_text(triad[0].0, triad[0].1).as_str());
    out.append(stat_line_text(triad[1].0, triad[1].1).as_str());
    out.append(stat_line_text(triad[2].0, triad[2].1).as_str());
    let o0 = duel_of(triad, 0, 1);
    let o1 = duel_of(triad, 1, 2);
    let o2 = duel_of(triad, 2, 0);
    let o3 = duel_of(triad, 1, 0);
    let o4 = duel_of(triad, 2, 1);
    let o5 = duel_of(triad, 0, 2);
    out.append("  cycle (want WIN): ");
    out.append(bout_text(0, 1, o0).as_str());
    out.append(bout_text(1, 2, o1).as_str());
    out.append(bout_text(2, 0, o2).as_str());
    out.append("\n  anti   (want !WIN): ");
    out.append(bout_text(1, 0, o3).as_str());
    out.append(bout_text(2, 1, o4).as_str());
    out.append(bout_text(0, 2, o5).as_str());
    out.append("\n");
    proof {
        let os = seq![o0, o1, o2, o3, o4, o5];
        assert(os[0] == o0 && os[1] == o1 && os[2] == o2 && os[3] == o3 && os[4] == o4 && os[5] == o5);
        assert(out@ == rps_text(*triad, os));
    }
    out
}

/// The counterability verdict on an outcome of the balanced party against an extreme.
pub open spec fn verdict_of(o: Outcome) -> Seq<char> {
    match o {
        Outcome::Win => "COUNTERED (party wins)"@,
        Outcome::Draw => "held (draw)"@,
        Outcome::Loss => "!! UNCOUNTERED (party loses)"@,
    }
}

fn verdict(o: Outcome) -> (s: &'static str)
    ensures
        s@ == verdict_of(o),
{
    match o {
        Outcome::Win => "COUNTERED (party wins)",
        Outcome::Draw => "held (draw)",
        Outcome::Loss => "!! UNCOUNTERED (party loses)",
    }
}

/// The report rows for the first `k` extremes, labelled `labels`, with outcomes `os`.
pub open spec fn counter_rows(labels: Seq<Seq<char>>, os: Seq<Outcome>, k: nat) -> Seq<char>
    decreases k,
{
    if k == 0 {
        Seq::empty()
    } else {
        counter_rows(labels, os, (k - 1) as nat) + "  "@ + pad_right(labels[k - 1], 48) + " "@ + verdict_of(
            os[k - 1],
        ) + "\n"@
    }
}

/// The labels of the extreme forces, in order.
pub open spec fn extreme_labels() -> Seq<Seq<char>> {
    seq![
        "all-Vanguard wall"@,
        "all-Outrider (evasive)"@,
        "all-Outrider (reckless/Endure)"@,
        "all-Rearguard battery"@,
        "glass cannons (max Might 4, 8pt)"@,
        "fortress (max Toughness 4, 8pt)"@,
        "bodyguard group (Fighter front shields 2 Mages)"@,
        "AoE battery (3 area Mages)"@,
    ]
}

/// The counterability header.
pub open spec fn counter_header() -> Seq<char> {
    "Counterability — balanced party vs extreme scenarios:\n"@
}

proof fn lemma_extremes_fit(v: Seq<(&'static str, Vec<Unit>)>, k: int)
    requires
        extremes_ok(v),
        0 <= k < 8,
    ensures
        v[k].1@.len() <= pool_cap(),
        forall|i: int| 0 <= i < v[k].1@.len() ==> unit_fits(#[trigger] v[k].1@[i]),
        v[k].0@ == extreme_labels()[k],
{
    assert forall|i: int| 0 <= i < v[k].1@.len() implies unit_fits(#[trigger] v[k].1@[i]) by {
        let u = v[k].1@[i];
        if k == 0 {
            lemma_lone_fits(u, "Fighter"@, (1, 2, 3, 1, 1), Intention::Vanguard, 1);
        } else if k == 1 {
            lemma_lone_fits(u, "Assassin"@, break_stats(), Intention::Outrider, 1);
        } else if k == 2 {
            lemma_lone_fits(Unit { hits: hits_of(Intention::Outrider), ..u }, "Assassin"@, break_stats(), Intention::Outrider, 1);
        } else if k == 3 {
            lemma_lone_fits(u, "Mage"@, deal_stats(), Intention::Rearguard, 1);
        } else if k == 4 {
            lemma_lone_fits(u, "Mage"@, (4, 1, 1, 1, 1), Intention::Rearguard, 1);
        } else if k == 5 {
            lemma_lone_fits(u, "Fighter"@, (1, 1, 4, 1, 1), Intention::Vanguard, 1);
        } else if k == 6 {
            if i == 0 {
                lemma_lone_fits(Unit { group: None, ..u }, "Fighter"@, (1, 2, 3, 1, 1), Intention::Vanguard, 1);
            } else {
                lemma_lone_fits(Unit { group: None, ..u }, "Mage"@, deal_stats(), Intention::Vanguard, 1);
            }
        } else {
            lemma_lone_fits(Unit { aoe: false, ..u }, "Mage"@, deal_stats(), Intention::Rearguard, 1);
        }
    }
}

/// The five stats of a line, summed.
pub open spec fn stat_total(s: Stat5) -> int {
    s.0 + s.1 + s.2 + s.3 + s.4
}

/// `u` is built on the stat line `s`: its Might, Cadence and Finesse, and a fresh health deck of
/// `s.1` cards at bar `s.2`.
pub open spec fn built_on(u: Unit, s: Stat5) -> bool {
    &&& u.offense == (Offense { might: s.0, cadence: s.3, finesse: s.4 })
    &&& u.defense.health@ == crate::stats::fresh_deck(s.1 as nat, crate::stats::floor1(s.2))
}

/// **Every extreme is on the triad's budget**: each unit of each extreme force stands on side 1 and
/// is built on an eight-point stat line, so an extreme wins by formation, never by size.
pub proof fn law_extremes_on_the_triad_budget(v: Seq<(&'static str, Vec<Unit>)>, k: int, i: int)
    requires
        extremes_ok(v),
        0 <= k < 8,
        0 <= i < v[k].1@.len(),
    ensures
        v[k].1@[i].side == 1,
        exists|s: Stat5| stat_total(s) == 8 && #[trigger] built_on(v[k].1@[i], s),
{
    let u = v[k].1@[i];
    let s: Stat5 = if k == 0 || k == 6 && i == 0 {
        (1, 2, 3, 1, 1)
    } else if k == 1 || k == 2 {
        break_stats()
    } else if k == 4 {
        (4, 1, 1, 1, 1)
    } else if k == 5 {
        (1, 1, 4, 1, 1)
    } else {
        deal_stats()
    };
    if k == 0 || k == 1 || k == 3 || k == 4 || k == 5 {
        assert(lone_unit(u, if k == 0 || k == 5 { "Fighter"@ } else if k == 1 { "Assassin"@ } else { "Mage"@ }, s, u.intent, 1));
    } else if k == 2 {
        assert(lone_unit(Unit { hits: hits_of(Intention::Outrider), ..u }, "Assassin"@, s, Intention::Outrider, 1));
    } else if k == 6 {
        assert(lone_unit(Unit { group: None, ..u }, if i == 0 { "Fighter"@ } else { "Mage"@ }, s, Intention::Vanguard, 1));
    } else {
        assert(lone_unit(Unit { aoe: false, ..u }, "Mage"@, s, Intention::Rearguard, 1));
    }
    assert(built_on(u, s));
}

/// `o` is the outcome of the eight-round battle of the party `roster` played by `strat` (side 0)
/// against `force` (side 1).
#[verifier::opaque]
pub open spec fn party_result(roster: Seq<Recruit>, strat: Strategy, force: Seq<Unit>, o: Outcome) -> bool {
    exists|p: Seq<Unit>, s: State|
        #![trigger sim_board(s, p, force)]
        p.len() == roster.len() && (forall|i: int|
            0 <= i < roster.len() ==> lone_unit(
                #[trigger] p[i],
                roster[i].0@,
                roster[i].1,
                plan_intent(strat.plan, roster[i].0@, roster[i].1),
                0,
            )) && sim_board(s, p, force) && fought(s, 0, 8, o)
}

/// The balanced party against one force, eight rounds.
fn party_against(roster: &Vec<Recruit>, pstrat: &Strategy, force: Vec<Unit>) -> (o: Outcome)
    requires
        roster@.len() == 3,
        roster@[0].1 == hold_stats() && roster@[1].1 == break_stats() && roster@[2].1 == deal_stats(),
        force@.len() <= pool_cap(),
        forall|i: int| 0 <= i < force@.len() ==> unit_fits(#[trigger] force@[i]),
    ensures
        party_result(roster@, *pstrat, force@, o),
{
    let party = build_side(roster.as_slice(), pstrat, 0);
    proof {
        assert forall|i: int| 0 <= i < party@.len() implies unit_fits(#[trigger] party@[i]) by {
            lemma_lone_fits(party@[i], roster@[i].0@, roster@[i].1, plan_intent(pstrat.plan, roster@[i].0@, roster@[i].1), 0);
        }
    }
    let o = battle(party, force, 8);
    proof {
        reveal(party_result);
    }
    o
}

/// The balanced party (as [`balanced_party`] builds it).
pub open spec fn balanced(roster: Seq<Recruit>, strat: Strategy) -> bool {
    &&& roster.len() == 3
    &&& roster[0].0@ == "Fighter"@ && roster[0].1 == hold_stats()
    &&& roster[1].0@ == "Assassin"@ && roster[1].1 == break_stats()
    &&& roster[2].0@ == "Mage"@ && roster[2].1 == deal_stats()
    &&& strat.plan == IntentPlan::ByStats
}

/// Each `os[k]` is the outcome of the balanced party against the `k`-th extreme force.
pub open spec fn counter_outcomes(os: Seq<Outcome>) -> bool {
    exists|v: Seq<(&'static str, Vec<Unit>)>, r: Seq<Recruit>, st: Strategy|
        #![trigger extremes_ok(v), balanced(r, st)]
        extremes_ok(v) && balanced(r, st) && forall|k: int| 0 <= k < os.len() ==> #[trigger] party_result(r, st, v[k].1@, os[k])
}

/// **Counterability report**: the balanced party against each extreme, one row per extreme with its
/// verdict (countered, held, or uncountered).
pub fn counter_report() -> (s: String)
    ensures
        exists|os: Seq<Outcome>|
            #![trigger counter_rows(extreme_labels(), os, 8)]
            os.len() == 8 && s@ == counter_header() + counter_rows(extreme_labels(), os, 8) && counter_outcomes(os),
{
    let (roster, pstrat) = balanced_party();
    let mut out = String::from_str("Counterability — balanced party vs extreme scenarios:\n");
    let mut sides = extreme_sides();
    let ghost all = sides@;
    let ghost mut os: Seq<Outcome> = Seq::empty();
    let mut k: usize = 0;
    while k < 8
        invariant
            k <= 8,
            extremes_ok(all),
            sides@ == all.skip(k as int),
            os.len() == k,
            out@ == counter_header() + counter_rows(extreme_labels(), os, k as nat),
            roster@.len() == 3,
            roster@[0].1 == hold_stats() && roster@[1].1 == break_stats() && roster@[2].1 == deal_stats(),
            balanced(roster@, pstrat),
            forall|q: int| 0 <= q < k ==> #[trigger] party_result(roster@, pstrat, all[q].1@, os[q]),
        decreases 8 - k,
    {
        proof {
            lemma_extremes_fit(all, k as int);
            assert(sides@[0] == all[k as int]);
        }
        let (label, force) = sides.remove(0);
        let o = party_against(&roster, &pstrat, force);
        let ghost o0 = out@;
        out.append("  ");
        push_padded(&mut out, label, 48);
        out.append(" ");
        out.append(verdict(o));
        out.append("\n");
        proof {
            let os1 = os.push(o);
            assert(counter_rows(extreme_labels(), os1, (k + 1) as nat) == counter_rows(extreme_labels(), os1, k as nat)
                + "  "@ + pad_right(extreme_labels()[k as int], 48) + " "@ + verdict_of(o) + "\n"@);
            assert forall|q: nat| q <= k implies counter_rows(extreme_labels(), os1, q) == counter_rows(extreme_labels(), os, q) by {
                lemma_counter_rows_prefix(extreme_labels(), os, os1, q);
            }
            assert forall|q: int| 0 <= q < k + 1 implies #[trigger] party_result(roster@, pstrat, all[q].1@, os1[q]) by {
                if q < k {
                    assert(os1[q] == os[q]);
                }
            }
            os = os1;
            assert(sides@ =~= all.skip(k + 1));
        }
        k = k + 1;
    }
    proof {
        assert(counter_outcomes(os));
    }
    out
}

proof fn lemma_counter_rows_prefix(labels: Seq<Seq<char>>, a: Seq<Outcome>, b: Seq<Outcome>, q: nat)
    requires
        q <= a.len(),
        a.len() <= b.len(),
        forall|i: int| 0 <= i < a.len() ==> a[i] == b[i],
    ensures
        counter_rows(labels, a, q) == counter_rows(labels, b, q),
    decreases q,
{
    if q > 0 {
        lemma_counter_rows_prefix(labels, a, b, (q - 1) as nat);
    }
}


/// A W/L/D record.
pub type Record = (nat, nat, nat);

/// One row of the matrix: the composition's label (padded to 8), then its W/L/D record.
pub open spec fn matrix_row(pc: Seq<u32>, r: Record) -> Seq<char> {
    "  "@ + pad_right(label_part(pc[0], "F"@) + label_part(pc[1], "A"@) + label_part(pc[2], "M"@), 8) + " "@
        + pad_left(decimal(r.0), 2) + "W "@ + pad_left(decimal(r.1), 2) + "L "@ + pad_left(decimal(r.2), 2)
        + "D\n"@
}

/// The first `p` rows of size `n`, with records `rec`.
pub open spec fn matrix_rows(n: nat, rec: spec_fn(nat, int) -> Record, p: nat) -> Seq<char>
    decreases p,
{
    if p == 0 {
        Seq::empty()
    } else {
        matrix_rows(n, rec, (p - 1) as nat) + matrix_row(crate::combinatorics::comps(n, 3)[p - 1], rec(n, p - 1))
    }
}

/// The block of size `n`: its banner, a row per composition, a blank line.
pub open spec fn matrix_block(n: nat, rec: spec_fn(nat, int) -> Record) -> Seq<char> {
    "== size "@ + decimal(n) + " ==\n"@ + matrix_rows(n, rec, crate::combinatorics::comps(n, 3).len()) + "\n"@
}

/// The blocks of sizes `1..=m`.
pub open spec fn matrix_blocks(rec: spec_fn(nat, int) -> Record, m: nat) -> Seq<char>
    decreases m,
{
    if m == 0 {
        Seq::empty()
    } else {
        matrix_blocks(rec, (m - 1) as nat) + matrix_block(m, rec)
    }
}

/// The matrix report's header.
pub open spec fn matrix_header() -> Seq<char> {
    "Engagement-model matrix (equal size, default vs default):\n\n"@
}

/// Each record of sizes `1..=m` is its composition's wins, losses and draws against every enemy
/// composition of that size.
pub open spec fn records_ok(t: Triad, rec: spec_fn(nat, int) -> Record, m: nat) -> bool {
    forall|n: nat, p: int|
        1 <= n <= m && 0 <= p < crate::combinatorics::comps(n, 3).len() ==> #[trigger] record_is(t, crate::combinatorics::comps(n, 3)[p], crate::combinatorics::comps(n, 3), rec(n, p))
}

proof fn lemma_rows_agree(n: nat, a: spec_fn(nat, int) -> Record, b: spec_fn(nat, int) -> Record, q: nat)
    requires
        forall|p: int| 0 <= p < q ==> #[trigger] a(n, p) == b(n, p),
    ensures
        matrix_rows(n, a, q) == matrix_rows(n, b, q),
    decreases q,
{
    if q > 0 {
        lemma_rows_agree(n, a, b, (q - 1) as nat);
    }
}

proof fn lemma_blocks_agree(a: spec_fn(nat, int) -> Record, b: spec_fn(nat, int) -> Record, m: nat)
    requires
        forall|n: nat, p: int| 1 <= n <= m ==> #[trigger] a(n, p) == b(n, p),
    ensures
        matrix_blocks(a, m) == matrix_blocks(b, m),
    decreases m,
{
    if m > 0 {
        lemma_blocks_agree(a, b, (m - 1) as nat);
        lemma_rows_agree(m, a, b, crate::combinatorics::comps(m, 3).len());
    }
}

fn push_label(out: &mut String, pc: &Vec<u32>)
    requires
        pc@.len() == 3,
    ensures
        final(out)@ == old(out)@ + pad_right(label_part(pc@[0], "F"@) + label_part(pc@[1], "A"@) + label_part(pc@[2], "M"@), 8),
{
    let mut label = String::new();
    if pc[0] > 0 {
        push_num(&mut label, pc[0] as u64);
        label.append("F");
    }
    if pc[1] > 0 {
        push_num(&mut label, pc[1] as u64);
        label.append("A");
    }
    if pc[2] > 0 {
        push_num(&mut label, pc[2] as u64);
        label.append("M");
    }
    proof {
        assert(label@ =~= label_part(pc@[0], "F"@) + label_part(pc@[1], "A"@) + label_part(pc@[2], "M"@));
    }
    push_padded(out, label.as_str(), 8);
}

fn push_count(out: &mut String, x: usize)
    ensures
        final(out)@ == old(out)@ + pad_left(decimal(x as nat), 2),
{
    let t = crate::text::decimal_text(x as u64);
    push_right(out, t.as_str(), 2);
}

/// `o` is the outcome of the eight-round battle of the party of composition `pc` (side 0) against
/// the party of `ec` (side 1).
#[verifier::opaque]
pub open spec fn matrix_result(t: Triad, pc: Seq<u32>, ec: Seq<u32>, o: Outcome) -> bool {
    exists|p0: Seq<Unit>, p1: Seq<Unit>, s: State|
        #![trigger sim_board(s, p0, p1)]
        party_of(pc, t, 0, p0) && party_of(ec, t, 1, p1) && sim_board(s, p0, p1) && fought(s, 0, 8, o)
}

/// How many of `os` are `x`.
pub open spec fn count_of(os: Seq<Outcome>, x: Outcome) -> nat
    decreases os.len(),
{
    if os.len() == 0 {
        0
    } else {
        count_of(os.drop_last(), x) + (if os.last() == x { 1nat } else { 0nat })
    }
}

/// `r` is the record of composition `pc` against each of `comps`: its wins, losses and draws.
pub open spec fn record_is(t: Triad, pc: Seq<u32>, comps: Seq<Seq<u32>>, r: Record) -> bool {
    exists|os: Seq<Outcome>|
        #![trigger count_of(os, Outcome::Win)]
        os.len() == comps.len() && (forall|e: int| 0 <= e < comps.len() ==> #[trigger] matrix_result(t, pc, comps[e], os[e]))
            && r == (count_of(os, Outcome::Win), count_of(os, Outcome::Loss), count_of(os, Outcome::Draw))
}

proof fn lemma_count_sum(os: Seq<Outcome>)
    ensures
        count_of(os, Outcome::Win) + count_of(os, Outcome::Loss) + count_of(os, Outcome::Draw) == os.len(),
    decreases os.len(),
{
    if os.len() > 0 {
        lemma_count_sum(os.drop_last());
    }
}

/// The W/L/D record of composition `pc` against every enemy composition in `comps` (all of size `n`).
fn record_of(pc: &Vec<u32>, comps: &Vec<Vec<u32>>, triad: &Triad, n: u32) -> (r: (usize, usize, usize))
    requires
        n <= pool_cap(),
        triad_fits(*triad),
        pc@.len() == 3 && pc@[0] + pc@[1] + pc@[2] == n,
        forall|i: int| 0 <= i < comps@.len() ==> (#[trigger] comps@[i])@.len() == 3
            && comps@[i]@[0] + comps@[i]@[1] + comps@[i]@[2] == n,
    ensures
        r.0 + r.1 + r.2 == comps@.len(),
        record_is(*triad, pc@, comps.deep_view(), (r.0 as nat, r.1 as nat, r.2 as nat)),
{
    let mut w: usize = 0;
    let mut l: usize = 0;
    let mut d: usize = 0;
    let mut e: usize = 0;
    let ghost mut os: Seq<Outcome> = Seq::empty();
    while e < comps.len()
        invariant
            e <= comps@.len(),
            w + l + d == e,
            os.len() == e,
            forall|q: int| 0 <= q < e ==> #[trigger] matrix_result(*triad, pc@, comps@[q]@, os[q]),
            w == count_of(os, Outcome::Win) && l == count_of(os, Outcome::Loss) && d == count_of(os, Outcome::Draw),
            n <= pool_cap(),
            triad_fits(*triad),
            pc@.len() == 3 && pc@[0] + pc@[1] + pc@[2] == n,
            forall|i: int| 0 <= i < comps@.len() ==> (#[trigger] comps@[i])@.len() == 3
                && comps@[i]@[0] + comps@[i]@[1] + comps@[i]@[2] == n,
        decreases comps.len() - e,
    {
        let ec = &comps[e];
        let o = versus(pc, ec, triad, n);
        match o {
            Outcome::Win => {
                w = w + 1;
            },
            Outcome::Loss => {
                l = l + 1;
            },
            Outcome::Draw => {
                d = d + 1;
            },
        }
        proof {
            let os1 = os.push(o);
            assert(os1.drop_last() =~= os);
            assert forall|q: int| 0 <= q < e + 1 implies #[trigger] matrix_result(*triad, pc@, comps@[q]@, os1[q]) by {
                if q < e {
                    assert(os1[q] == os[q]);
                }
            }
            os = os1;
        }
        e = e + 1;
    }
    proof {
        assert forall|q: int| 0 <= q < comps.deep_view().len() implies #[trigger] matrix_result(*triad, pc@, comps.deep_view()[q], os[q]) by {
            assert(comps.deep_view()[q] == comps@[q]@);
        }
        assert(record_is(*triad, pc@, comps.deep_view(), (w as nat, l as nat, d as nat)));
    }
    (w, l, d)
}

/// One eight-round battle of the party of `pc` against the party of `ec`.
fn versus(pc: &Vec<u32>, ec: &Vec<u32>, triad: &Triad, n: u32) -> (o: Outcome)
    requires
        n <= pool_cap(),
        triad_fits(*triad),
        pc@.len() == 3 && pc@[0] + pc@[1] + pc@[2] == n,
        ec@.len() == 3 && ec@[0] + ec@[1] + ec@[2] == n,
    ensures
        matrix_result(*triad, pc@, ec@, o),
{
    let side0 = party(pc.as_slice(), triad, 0);
    let side1 = party(ec.as_slice(), triad, 1);
    let o = battle(side0, side1, 8);
    proof {
        reveal(matrix_result);
    }
    o
}

fn push_row(out: &mut String, pc: &Vec<u32>, w: usize, l: usize, d: usize)
    requires
        pc@.len() == 3,
    ensures
        final(out)@ == old(out)@ + matrix_row(pc@, (w as nat, l as nat, d as nat)),
{
    let mut t = String::from_str("  ");
    push_label(&mut t, pc);
    t.append(" ");
    push_count(&mut t, w);
    t.append("W ");
    push_count(&mut t, l);
    t.append("L ");
    push_count(&mut t, d);
    t.append("D\n");
    out.append(t.as_str());
}

/// **Equal-size composition matrix** under mutual default play: for each size up to `max_n` and each
/// composition of that size, its W/L/D record across all enemy compositions of that size.
#[verifier::spinoff_prover]
pub fn matrix_report(triad: &Triad, max_n: u32) -> (s: String)
    requires
        triad_fits(*triad),
        max_n <= pool_cap(),
    ensures
        exists|rec: spec_fn(nat, int) -> Record| #![trigger matrix_blocks(rec, max_n as nat)]
            records_ok(*triad, rec, max_n as nat) && s@ == matrix_header() + matrix_blocks(rec, max_n as nat),
{
    let mut out = String::from_str("Engagement-model matrix (equal size, default vs default):\n\n");
    let ghost mut rec: spec_fn(nat, int) -> Record = |n: nat, p: int| (0nat, 0nat, 0nat);
    let mut n: u32 = 1;
    while n <= max_n
        invariant
            1 <= n <= max_n + 1,
            max_n <= pool_cap(),
            triad_fits(*triad),
            records_ok(*triad, rec, (n - 1) as nat),
            out@ == matrix_header() + matrix_blocks(rec, (n - 1) as nat),
        decreases max_n + 1 - n,
    {
        let comps = compositions_k(n, 3);
        proof {
            crate::balance::lemma_comps3(n);
        }
        let ghost rec0 = rec;
        let ghost o0 = out@;
        out.append("== size ");
        push_num(&mut out, n as u64);
        out.append(" ==\n");
        let ghost head = out@;
        let mut p: usize = 0;
        while p < comps.len()
            invariant
                p <= comps@.len(),
                comps.deep_view() == crate::combinatorics::comps(n as nat, 3),
                1 <= n <= max_n,
                max_n <= pool_cap(),
                triad_fits(*triad),
                forall|i: int| 0 <= i < crate::combinatorics::comps(n as nat, 3).len() ==> (#[trigger] crate::combinatorics::comps(n as nat, 3)[i]).len() == 3
                    && crate::combinatorics::comps(n as nat, 3)[i][0] + crate::combinatorics::comps(n as nat, 3)[i][1] + crate::combinatorics::comps(n as nat, 3)[i][2] == n,
                forall|m: nat, q: int| m != n ==> #[trigger] rec(m, q) == rec0(m, q),
                forall|q: int| p <= q ==> #[trigger] rec(n as nat, q) == rec0(n as nat, q),
                forall|q: int| 0 <= q < p ==> #[trigger] record_is(*triad, crate::combinatorics::comps(n as nat, 3)[q], crate::combinatorics::comps(n as nat, 3), rec(n as nat, q)),
                out@ == head + matrix_rows(n as nat, rec, p as nat),
            decreases comps.len() - p,
        {
            let pc = &comps[p];
            proof {
                assert(comps.deep_view()[p as int] == pc@);
            }
            proof {
                assert forall|i: int| 0 <= i < comps@.len() implies (#[trigger] comps@[i])@.len() == 3
                    && comps@[i]@[0] + comps@[i]@[1] + comps@[i]@[2] == n by {
                    assert(comps.deep_view()[i] == comps@[i]@);
                }
            }
            let (w, l, d) = record_of(pc, &comps, triad, n);
            let ghost rprev = rec;
            proof {
                rec = |m: nat, q: int| if m == n as nat && q == p as int { (w as nat, l as nat, d as nat) } else { rprev(m, q) };
                lemma_rows_agree(n as nat, rprev, rec, p as nat);
            }
            let ghost o1 = out@;
            push_row(&mut out, pc, w, l, d);
            proof {
                assert(out@ == o1 + matrix_row(pc@, rec(n as nat, p as int)));
                assert(crate::combinatorics::comps(n as nat, 3)[p as int] == pc@);
                assert(matrix_rows(n as nat, rec, (p + 1) as nat) == matrix_rows(n as nat, rec, p as nat) + matrix_row(pc@, rec(n as nat, p as int)));
                assert(out@ =~= head + matrix_rows(n as nat, rec, (p + 1) as nat));
            }
            p = p + 1;
        }
        out.append("\n");
        proof {
            assert(forall|m: nat, q: int| 1 <= m <= n - 1 ==> #[trigger] rec(m, q) == rec0(m, q));
            lemma_blocks_agree(rec0, rec, (n - 1) as nat);
            assert(matrix_blocks(rec, n as nat) == matrix_blocks(rec, (n - 1) as nat) + matrix_block(n as nat, rec));
            assert(out@ =~= matrix_header() + matrix_blocks(rec, n as nat));
            assert forall|m: nat, q: int|
                1 <= m <= n && 0 <= q < crate::combinatorics::comps(m, 3).len() implies #[trigger] record_is(*triad, crate::combinatorics::comps(m, 3)[q], crate::combinatorics::comps(m, 3), rec(m, q)) by {
                if m < n {
                    assert(rec(m, q) == rec0(m, q));
                }
            }
        }
        n = n + 1;
    }
    proof {
        assert(records_ok(*triad, rec, max_n as nat) && out@ == matrix_header() + matrix_blocks(rec, max_n as nat));
    }
    out
}

} // verus!
