//! Setting up a battle board directly from two rosters, for headless resolution: the round-one plan
//! (every body's default position, every body its own group) and the opening narration.

use vstd::prelude::*;
use vstd::string::*;
use crate::actor::{Actor, Intention, Range, actor_down, attack_has, eff_might_of, eff_toughness_of, tokens_fit};
use crate::ruleset::Ruleset;
use crate::state::{Clash, Phase, Round, State, Verdict, count_where};

verus! {

/// A body's **default position** from its stats: a ranged-only body deals from the Rearguard; an
/// aggressive melee body (effective Might ≥ effective Toughness — a glassy striker) breaks the line as
/// an Outrider; a durable one (Toughness above Might — a wall) holds as a Vanguard.
pub open spec fn default_intent_of(a: Actor) -> Intention {
    if attack_has(a.attack, Range::Ranged) && !attack_has(a.attack, Range::Melee) {
        Intention::Rearguard
    } else if eff_might_of(a) >= eff_toughness_of(a) {
        Intention::Outrider
    } else {
        Intention::Vanguard
    }
}

/// Every body of the pool bears token tallies that fit.
pub open spec fn pool_tokens_fit(p: Seq<Actor>) -> bool {
    forall|i: int| 0 <= i < p.len() ==> tokens_fit((#[trigger] p[i]).tokens@)
}

/// The default position of each body of a pool.
fn default_intents(pool: &[Actor]) -> (v: Vec<Intention>)
    requires
        pool_tokens_fit(pool@),
    ensures
        v@.len() == pool@.len(),
        forall|i: int| 0 <= i < pool@.len() ==> (#[trigger] v@[i]) == default_intent_of(pool@[i]),
{
    let mut v: Vec<Intention> = Vec::new();
    let mut i: usize = 0;
    while i < pool.len()
        invariant
            i <= pool@.len(),
            pool_tokens_fit(pool@),
            v@.len() == i,
            forall|q: int| 0 <= q < i ==> (#[trigger] v@[q]) == default_intent_of(pool@[q]),
        decreases pool.len() - i,
    {
        let a = &pool[i];
        proof {
            assert(tokens_fit(pool@[i as int].tokens@));
        }
        let intent = if a.can_contest(Range::Ranged) && !a.can_contest(Range::Melee) {
            Intention::Rearguard
        } else if a.eff_might() >= a.eff_toughness() {
            Intention::Outrider
        } else {
            Intention::Vanguard
        };
        v.push(intent);
        i = i + 1;
    }
    v
}

/// The round-one board `battle_state_with` builds (its pools, plan, phase, narration and settings).
pub open spec fn battle_board(
    s: State,
    heroes: Seq<Actor>,
    creatures: Seq<Actor>,
    clash: bool,
    seed: u64,
    ruleset: Ruleset,
) -> bool {
    let nh = heroes.len();
    let nf = creatures.len();
    &&& s.heroes@ == heroes
    &&& s.creatures@ == creatures
    &&& s.round == 1
    &&& s.seed == seed
    &&& s.ruleset == ruleset
    &&& s.clash_module == clash
    &&& s.resolution is None
    &&& !s.exiting
    &&& !s.pvp
    &&& s.outcome is None
    &&& s.plan.hero_group@ == Seq::new(nh, |i: int| i as usize)
    &&& s.plan.foe_group@ == Seq::new(nf, |i: int| i as usize)
    &&& s.plan.hero_acted@ == Seq::new(nh, |i: int| false)
    &&& s.plan.foe_acted@ == Seq::new(nf, |i: int| false)
    &&& s.plan.deferred@.len() == 0
    &&& s.plan.committing == 0
    &&& s.plan.clash_mode == clash
    &&& s.log@.len() == 1
    &&& clash ==> {
        &&& s.phase == Phase::Clash
        &&& s.clash == Some(Clash { hero: 0, foe: 0, hero_force: 0, foe_force: 0, beat: 0, stall: 0 })
        &&& s.plan.hero_intent@ == Seq::new(nh, |i: int| Intention::Vanguard)
        &&& s.plan.foe_intent@ == Seq::new(nf, |i: int| Intention::Vanguard)
        &&& s.log@[0]@ == "-- the duel begins --"@
    }
    &&& !clash ==> {
        &&& s.phase == Phase::Marshal
        &&& s.clash is None
        &&& s.plan.hero_intent@ == Seq::new(nh, |i: int| default_intent_of(heroes[i]))
        &&& s.plan.foe_intent@ == Seq::new(nf, |i: int| default_intent_of(creatures[i]))
        &&& s.log@[0]@ == "-- Round 1: Marshal --"@
    }
}

/// Build a battle board directly from explicit rosters (for headless resolution) under the live
/// [`Ruleset`]. `clash` selects the optional Clash module.
pub fn battle_state(heroes: Vec<Actor>, creatures: Vec<Actor>, clash: bool, seed: u64) -> (s: State)
    requires
        !clash ==> pool_tokens_fit(heroes@) && pool_tokens_fit(creatures@),
    ensures
        battle_board(s, heroes@, creatures@, clash, seed, Ruleset { max_rounds: 100, max_unique_per_side: u32::MAX, rules: u16::MAX }),
{
    battle_state_with(heroes, creatures, clash, seed, Ruleset::default())
}

/// As [`battle_state`], under an explicit [`Ruleset`]. At round one every body is its own group; with
/// the Clash module the board opens on the duel, otherwise on the Marshal with each body at its default
/// position ([`default_intent_of`]).
pub fn battle_state_with(
    heroes: Vec<Actor>,
    creatures: Vec<Actor>,
    clash: bool,
    seed: u64,
    ruleset: Ruleset,
) -> (s: State)
    requires
        !clash ==> pool_tokens_fit(heroes@) && pool_tokens_fit(creatures@),
    ensures
        battle_board(s, heroes@, creatures@, clash, seed, ruleset),
{
    let nh = heroes.len();
    let nf = creatures.len();
    let mut plan = Round::sized(nh, nf);
    let phase: Phase;
    let duel: Option<Clash>;
    let mut log: Vec<String> = Vec::new();
    if clash {
        plan.clash_mode = true;
        phase = Phase::Clash;
        duel = Some(Clash { hero: 0, foe: 0, hero_force: 0, foe_force: 0, beat: 0, stall: 0 });
        log.push(String::from_str("-- the duel begins --"));
    } else {
        plan.hero_intent = default_intents(heroes.as_slice());
        plan.foe_intent = default_intents(creatures.as_slice());
        phase = Phase::Marshal;
        duel = None;
        log.push(String::from_str("-- Round 1: Marshal --"));
    }
    let s = State {
        round: 1,
        heroes,
        creatures,
        phase,
        resolution: None,
        plan,
        clash: duel,
        exiting: false,
        log,
        seed,
        clash_module: clash,
        pvp: false,
        ruleset,
        outcome: None,
    };
    proof {
        if !clash {
            assert(s.plan.hero_intent@ =~= Seq::new(nh as nat, |i: int| default_intent_of(heroes@[i])));
            assert(s.plan.foe_intent@ =~= Seq::new(nf as nat, |i: int| default_intent_of(creatures@[i])));
        }
    }
    s
}

/// The verdict a board shows: a mutual wipe is a tie, a foe wipe a hero win, a party wipe a loss,
/// otherwise none (a win requires survivors — no side wins by dying).
pub open spec fn verdict_of(s: State) -> Option<Verdict> {
    let foes_down = count_where(s.creatures@, |a: Actor| !actor_down(a), s.creatures@.len() as int) == 0;
    let party_down = count_where(s.heroes@, |a: Actor| !a.fallen, s.heroes@.len() as int) == 0;
    if foes_down && party_down {
        Some(Verdict::Tie)
    } else if foes_down {
        Some(Verdict::HeroesWin)
    } else if party_down {
        Some(Verdict::FoesWin)
    } else {
        None
    }
}

/// The line announcing a verdict.
pub open spec fn verdict_line(v: Verdict) -> Seq<char> {
    match v {
        Verdict::Tie => "Both sides annihilate each other — a draw."@,
        Verdict::HeroesWin => "Every foe is down — victory!"@,
        Verdict::FoesWin => "The party has fallen."@,
    }
}

/// Settle the fight if it is over: a **mutual wipe** is a tie (tested first), a foe wipe a hero
/// win, a party wipe a loss — each announced in one line. An undecided board is left as it is.
pub fn check_outcome(state: &mut State)
    ensures
        verdict_of(*old(state)) is None ==> *final(state) == *old(state),
        verdict_of(*old(state)) matches Some(v) ==> {
            &&& *final(state) == (State { outcome: Some(v), log: final(state).log, ..*old(state) })
            &&& final(state).log@ =~= old(state).log@.push(final(state).log@.last())
            &&& final(state).log@.last()@ == verdict_line(v)
        },
{
    let foes_down = state.living_creatures() == 0;
    let party_down = state.living_heroes() == 0;
    if foes_down && party_down {
        state.outcome = Some(Verdict::Tie);
        state.log.push(String::from_str("Both sides annihilate each other — a draw."));
    } else if foes_down {
        state.outcome = Some(Verdict::HeroesWin);
        state.log.push(String::from_str("Every foe is down — victory!"));
    } else if party_down {
        state.outcome = Some(Verdict::FoesWin);
        state.log.push(String::from_str("The party has fallen."));
    }
}

/// Whether the heroes won this resolved battle — `false` for a loss, a tie, or a fight not yet over.
pub fn hero_won(state: &State) -> (b: bool)
    ensures
        b == (state.outcome == Some(Verdict::HeroesWin)),
{
    match state.outcome {
        Some(Verdict::HeroesWin) => true,
        _ => false,
    }
}

} // verus!
