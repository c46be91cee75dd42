//! The plain parts of a combat in progress: which menu page shows, where the round is, the active
//! Clash, the spells held for the Reckoning, and the per-round working plan (each unit's intention and
//! group, who has acted).
//!
//! A round: **Marshal** (declare each unit's intention — Vanguard / Outrider / Rearguard) →
//! **Engage** (the fixed engagement schedule resolves) → **Refresh** (the Lull: Tempo resets, Health
//! persists, the round advances).
//!
//! [`State`] holds, as plain values, everything about a combat in progress that the rules read: the
//! two pools, the round plan, the resolution cursor, the log and the pre-game settings.

use vstd::prelude::*;
use crate::actor::{Actor, Intention, actor_down};
use crate::combat::Resolution;
use crate::ruleset::Ruleset;
use crate::cards::Card;
use crate::stats::Offense;

verus! {

/// Which menu page is showing.
#[derive(Clone, Copy, Debug, PartialEq, Eq, Structural)]
pub enum Menu {
    Top,
    Cooperation,
    God,
    Tutorial,
    Versus,
    /// The encyclopedia's category list.
    Rules,
    /// The entries within one rules category (by its index).
    Category(usize),
    /// The card catalog.
    Catalog,
    /// One card's detail page (by its index in the catalog).
    CardDetail(usize),
}

/// Where the round is. **Marshal** is the interactive phase (intentions, grouping, Standing buffs);
/// **Engage** resolves the engagement schedule; **Clash** is the optional 1v1 module.
#[derive(Clone, Copy, Debug, PartialEq, Eq, Structural)]
pub enum Phase {
    Menu(Menu),
    Marshal,
    Engage,
    Clash,
}

/// The active interactive Clash: the two duelists and their per-duel Force.
#[derive(Clone, Copy, Debug, PartialEq, Eq, Structural)]
pub struct Clash {
    pub hero: usize,
    pub foe: usize,
    pub hero_force: u32,
    pub foe_force: u32,
    pub beat: u32,
    pub stall: u32,
}

/// A held (`Reckoning`) spell wound up earlier in the round, resolving in the **last** engagement. It
/// **fizzles** if its caster is killed before then.
#[derive(Clone, Debug)]
pub struct Deferred {
    /// Which side cast it (0 = heroes, 1 = creatures).
    pub side: u8,
    /// The caster's index in its pool.
    pub caster: usize,
    /// The wound-up card (its effects land last).
    pub card: Card,
    /// The caster's Offense snapshot at cast time (Might for the effect).
    pub offense: Offense,
    /// The caster's name.
    pub name: String,
}

/// The per-round working plan: intentions and grouping declared at Marshal.
#[derive(Clone, Debug)]
pub struct Round {
    /// Per hero: its declared intention this round.
    pub hero_intent: Vec<Intention>,
    /// Per creature: same.
    pub foe_intent: Vec<Intention>,
    /// Per hero: its group id (units sharing an id are one group). Default: its own index.
    pub hero_group: Vec<usize>,
    pub foe_group: Vec<usize>,
    /// Actors who have already acted in the current interactive phase.
    pub hero_acted: Vec<bool>,
    pub foe_acted: Vec<bool>,
    /// Deferred (`Reckoning`) spells wound up this round.
    pub deferred: Vec<Deferred>,
    /// PvP: which side is currently committing (0 = heroes, 1 = creatures). Always 0 in PvE.
    pub committing: u8,
    /// True once the trade is replaced by the interactive Clash module.
    pub clash_mode: bool,
}

/// `n` Vanguards.
fn vanguards(n: usize) -> (v: Vec<Intention>)
    ensures
        v@ == Seq::new(n as nat, |i: int| Intention::Vanguard),
{
    let mut v: Vec<Intention> = Vec::new();
    let mut i: usize = 0;
    while i < n
        invariant
            i <= n,
            v@ == Seq::new(i as nat, |k: int| Intention::Vanguard),
        decreases n - i,
    {
        v.push(Intention::Vanguard);
        i = i + 1;
        assert(v@ =~= Seq::new(i as nat, |k: int| Intention::Vanguard));
    }
    v
}

/// The ids `0..n` (every unit its own group).
fn own_groups(n: usize) -> (v: Vec<usize>)
    ensures
        v@ == Seq::new(n as nat, |i: int| i as usize),
{
    let mut v: Vec<usize> = Vec::new();
    let mut i: usize = 0;
    while i < n
        invariant
            i <= n,
            v@ == Seq::new(i as nat, |k: int| k as usize),
        decreases n - i,
    {
        v.push(i);
        i = i + 1;
        assert(v@ =~= Seq::new(i as nat, |k: int| k as usize));
    }
    v
}

/// `n` falses.
fn none_acted(n: usize) -> (v: Vec<bool>)
    ensures
        v@ == Seq::new(n as nat, |i: int| false),
{
    let mut v: Vec<bool> = Vec::new();
    let mut i: usize = 0;
    while i < n
        invariant
            i <= n,
            v@ == Seq::new(i as nat, |k: int| false),
        decreases n - i,
    {
        v.push(false);
        i = i + 1;
        assert(v@ =~= Seq::new(i as nat, |k: int| false));
    }
    v
}

impl Round {
    /// A fresh plan for `heroes` heroes and `foes` creatures: everyone a Vanguard in a group of its
    /// own, nobody has acted, nothing held, heroes committing, no Clash.
    pub fn sized(heroes: usize, foes: usize) -> (r: Self)
        ensures
            r.hero_intent@ == Seq::new(heroes as nat, |i: int| Intention::Vanguard),
            r.foe_intent@ == Seq::new(foes as nat, |i: int| Intention::Vanguard),
            r.hero_group@ == Seq::new(heroes as nat, |i: int| i as usize),
            r.foe_group@ == Seq::new(foes as nat, |i: int| i as usize),
            r.hero_acted@ == Seq::new(heroes as nat, |i: int| false),
            r.foe_acted@ == Seq::new(foes as nat, |i: int| false),
            r.deferred@.len() == 0,
            r.committing == 0,
            !r.clash_mode,
    {
        Round {
            hero_intent: vanguards(heroes),
            foe_intent: vanguards(foes),
            hero_group: own_groups(heroes),
            foe_group: own_groups(foes),
            hero_acted: none_acted(heroes),
            foe_acted: none_acted(foes),
            deferred: Vec::new(),
            committing: 0,
            clash_mode: false,
        }
    }
}

/// A combat in progress: the round, the two pools (heroes and creatures), where the round is, the
/// in-flight resolution cursor, the round plan, the active Clash, the narration log, the seed and the
/// pre-game settings.
pub struct State {
    pub round: u32,
    pub heroes: Vec<Actor>,
    pub creatures: Vec<Actor>,
    pub phase: Phase,
    /// The in-flight engagement-schedule cursor: `Some` while a round is resolving, `None` at rest.
    pub resolution: Option<Resolution>,
    pub plan: Round,
    pub clash: Option<Clash>,
    pub exiting: bool,
    pub log: Vec<String>,
    pub seed: u64,
    /// True when this scenario uses the optional Clash module for same-range duels.
    pub clash_module: bool,
    /// True when this is a hotseat PvP scenario (both sides human).
    pub pvp: bool,
    /// Pre-game tuning parameters (round / roster bounds, enabled rules).
    pub ruleset: Ruleset,
    /// How the fight ended, once it has.
    pub outcome: Option<Verdict>,
}

/// How a finished fight ended.
#[derive(Clone, Copy, Debug, PartialEq, Eq, Structural)]
pub enum Verdict {
    /// The heroes (side 0) won.
    HeroesWin,
    /// The creatures (side 1) won.
    FoesWin,
    /// Both sides were wiped together.
    Tie,
}

/// The pool of a side (0 = heroes, anything else = creatures).
pub open spec fn pool_of(s: State, side: u8) -> Seq<Actor> {
    if side == 0 {
        s.heroes@
    } else {
        s.creatures@
    }
}

pub open spec fn intent_of(s: State, side: u8) -> Seq<Intention> {
    if side == 0 {
        s.plan.hero_intent@
    } else {
        s.plan.foe_intent@
    }
}

pub open spec fn group_of_side(s: State, side: u8) -> Seq<usize> {
    if side == 0 {
        s.plan.hero_group@
    } else {
        s.plan.foe_group@
    }
}

pub open spec fn acted_of(s: State, side: u8) -> Seq<bool> {
    if side == 0 {
        s.plan.hero_acted@
    } else {
        s.plan.foe_acted@
    }
}

/// The index of the first body of `p` not down, if any.
pub open spec fn first_standing(p: Seq<Actor>) -> Option<usize> {
    if exists|i: int| 0 <= i < p.len() && !actor_down(p[i]) {
        Some(
            (choose|i: int| 0 <= i < p.len() && !actor_down(p[i]) && forall|j: int| 0 <= j < i ==> actor_down(p[j])) as usize,
        )
    } else {
        None
    }
}

/// How many bodies of `p` (the first `n`) satisfy `f`.
pub open spec fn count_where(p: Seq<Actor>, f: spec_fn(Actor) -> bool, n: int) -> nat
    decreases n,
{
    if n <= 0 {
        0
    } else {
        count_where(p, f, n - 1) + (if f(p[n - 1]) { 1nat } else { 0nat })
    }
}

/// Count the bodies of `p` satisfying `f`.
fn count_standing(p: &Vec<Actor>, by_fallen: bool) -> (n: usize)
    ensures
        n == count_where(
            p@,
            (if by_fallen { |a: Actor| !a.fallen } else { |a: Actor| !actor_down(a) }),
            p@.len() as int,
        ),
{
    let ghost f = if by_fallen { |a: Actor| !a.fallen } else { |a: Actor| !actor_down(a) };
    let mut n: usize = 0;
    let mut i: usize = 0;
    while i < p.len()
        invariant
            i <= p@.len(),
            n <= i,
            f == (if by_fallen { |a: Actor| !a.fallen } else { |a: Actor| !actor_down(a) }),
            n == count_where(p@, f, i as int),
        decreases p.len() - i,
    {
        let yes = if by_fallen {
            !p[i].fallen
        } else {
            !p[i].is_down()
        };
        if yes {
            n = n + 1;
        }
        i = i + 1;
    }
    n
}

/// The index of the first body not down.
fn first_up_body(p: &Vec<Actor>) -> (r: Option<usize>)
    ensures
        r == first_standing(p@),
{
    let mut i: usize = 0;
    while i < p.len()
        invariant
            i <= p@.len(),
            forall|j: int| 0 <= j < i ==> actor_down(p@[j]),
        decreases p.len() - i,
    {
        if !p[i].is_down() {
            let ghost w = choose|w: int|
                0 <= w < p@.len() && !actor_down(p@[w]) && forall|j: int| 0 <= j < w ==> actor_down(p@[j]);
            assert(w == i as int) by {
                if w < i {
                } else if w > i {
                }
            }
            return Some(i);
        }
        i = i + 1;
    }
    None
}

impl State {
    /// Is the creature side committing this phase (PvP)?
    pub fn committing_is_foe(&self) -> (b: bool)
        ensures
            b == (self.plan.committing == 1),
    {
        self.plan.committing == 1
    }

    /// The pool of a side (0 = heroes, otherwise creatures).
    pub fn s_pool(&self, side: u8) -> (p: &[Actor])
        ensures
            p@ == pool_of(*self, side),
    {
        if side == 0 {
            self.heroes.as_slice()
        } else {
            self.creatures.as_slice()
        }
    }

    pub fn s_len(&self, side: u8) -> (n: usize)
        ensures
            n == pool_of(*self, side).len(),
    {
        self.s_pool(side).len()
    }

    /// Per-unit declared intention of a side.
    pub fn s_intent(&self, side: u8) -> (v: &[Intention])
        ensures
            v@ == intent_of(*self, side),
    {
        if side == 0 {
            self.plan.hero_intent.as_slice()
        } else {
            self.plan.foe_intent.as_slice()
        }
    }

    /// Per-unit group id of a side.
    pub fn s_group(&self, side: u8) -> (v: &[usize])
        ensures
            v@ == group_of_side(*self, side),
    {
        if side == 0 {
            self.plan.hero_group.as_slice()
        } else {
            self.plan.foe_group.as_slice()
        }
    }

    /// Per-unit "already acted" flags of a side.
    pub fn s_acted(&self, side: u8) -> (v: &[bool])
        ensures
            v@ == acted_of(*self, side),
    {
        if side == 0 {
            self.plan.hero_acted.as_slice()
        } else {
            self.plan.foe_acted.as_slice()
        }
    }

    pub fn first_living_hero(&self) -> (r: Option<usize>)
        ensures
            r == first_standing(self.heroes@),
    {
        first_up_body(&self.heroes)
    }

    pub fn first_living_creature(&self) -> (r: Option<usize>)
        ensures
            r == first_standing(self.creatures@),
    {
        first_up_body(&self.creatures)
    }

    /// Heroes not yet fallen.
    pub fn living_heroes(&self) -> (n: usize)
        ensures
            n == count_where(self.heroes@, |a: Actor| !a.fallen, self.heroes@.len() as int),
    {
        count_standing(&self.heroes, true)
    }

    /// Creatures not down.
    pub fn living_creatures(&self) -> (n: usize)
        ensures
            n == count_where(self.creatures@, |a: Actor| !actor_down(a), self.creatures@.len() as int),
    {
        count_standing(&self.creatures, false)
    }

    /// A hero may still act this round: it exists, has not fallen, and its Tempo is not negative.
    pub fn hero_can_act(&self, i: usize) -> (b: bool)
        ensures
            b == (i < self.heroes@.len() && !self.heroes@[i as int].fallen && self.heroes@[i as int].tempo >= 0),
    {
        i < self.heroes.len() && !self.heroes[i].fallen && self.heroes[i].tempo >= 0
    }
}

} // verus!
