//! Combat resolution for the **engagement-schedule** model. Damage is untyped Might into the
//! per-engagement pile (pile→bar→pool), gated by the target's effective Toughness ([`apply_strike`]),
//! with the one **Tempo contest** ([`try_evade`]): a defender strictly out-bids the attacker
//! (`cards × Finesse`) to avoid a blow.
//!
//! The round resolves the fixed schedule of engagements ([`schedule_spec`]) — Intercept (`V→O`),
//! Volley (`R→O`), Raid (`O→R`), Clash (`R→V`, `V→V`), Breach (`V→R`, `O→V`, `O→O`, `R→R`) — each a
//! list of `(attacker-role, target-role)` pairs. Each engagement boundary finalizes deaths via
//! [`tally`] and wipes the per-engagement pile via [`clear_phase_piles`].

use vstd::prelude::*;
use vstd::string::*;
use crate::actor::{Actor, Intention, Range, TargetRule, Tally, Token, actor_down, attack_has, charge_total, eff_finesse_of, eff_might_of, eff_toughness_of, has_card, lemma_strip_tallies, strip, token_total, tokens_fit};
use crate::cards::{Card, Effect, first_damage};
use crate::effects::{Load, apply_effect, card_in_range, dead_kept, effect_lines, effect_rel, fits_load, lemma_dead_kept_refl, lemma_dead_kept_trans, lemma_effect_dead_kept, load, pool_fits, wall_room};
use crate::stats::Offense;
use crate::duel::Strike;
use crate::stats::{Defense, HealthCard, count_up, first_up, flip_times, flips_for, floor1, turn_up_spec};
use crate::text::{decimal, push_num};
use crate::state::{Deferred, State, intent_of, pool_of};
use crate::policy::{lemma_strict_bid, avoid_cost, avoid_cost_spec, role_evades, should_avoid, should_avoid_spec, should_strike_back, should_strike_back_spec, governing_fits, governing_from, governing_target, lemma_crack_sum_bound, lemma_governing_target, crack_sum};

verus! {

// ---------------------------------------------------------------------------------------------
// The engagement schedule.
// ---------------------------------------------------------------------------------------------

/// The fixed **engagement schedule**: five engagements, each a list of `(attacker, target)` role
/// pairs resolved in order. The Breach's `R→R` pair is gated by the back-access rule (a Rearguard is
/// reachable only once its own side's Vanguard has fallen).
pub open spec fn schedule_spec() -> Seq<Seq<(Intention, Intention)>> {
    seq![
        seq![(Intention::Vanguard, Intention::Outrider)],
        seq![(Intention::Rearguard, Intention::Outrider)],
        seq![(Intention::Outrider, Intention::Rearguard)],
        seq![(Intention::Rearguard, Intention::Vanguard), (Intention::Vanguard, Intention::Vanguard)],
        seq![
            (Intention::Vanguard, Intention::Rearguard),
            (Intention::Outrider, Intention::Vanguard),
            (Intention::Outrider, Intention::Outrider),
            (Intention::Rearguard, Intention::Rearguard),
        ],
    ]
}

/// The number of engagements in the schedule.
pub fn schedule_len() -> (n: usize)
    ensures
        n == schedule_spec().len(),
{
    5
}

/// The `(attacker-role, target-role)` pairs of engagement `step`.
pub fn schedule_step(step: usize) -> (pairs: Vec<(Intention, Intention)>)
    requires
        step < schedule_spec().len(),
    ensures
        pairs@ == schedule_spec()[step as int],
{
    let mut v: Vec<(Intention, Intention)> = Vec::new();
    if step == 0 {
        v.push((Intention::Vanguard, Intention::Outrider));
    } else if step == 1 {
        v.push((Intention::Rearguard, Intention::Outrider));
    } else if step == 2 {
        v.push((Intention::Outrider, Intention::Rearguard));
    } else if step == 3 {
        v.push((Intention::Rearguard, Intention::Vanguard));
        v.push((Intention::Vanguard, Intention::Vanguard));
    } else {
        v.push((Intention::Vanguard, Intention::Rearguard));
        v.push((Intention::Outrider, Intention::Vanguard));
        v.push((Intention::Outrider, Intention::Outrider));
        v.push((Intention::Rearguard, Intention::Rearguard));
    }
    assert(v@ =~= schedule_spec()[step as int]);
    v
}

/// Where the steppable resolver's cursor sits within the current engagement.
#[derive(Clone, Copy, Debug, PartialEq, Eq, Structural)]
pub enum Stage {
    /// Run one engagement-cycle of the current engagement.
    Cycle,
    /// The engagement is exhausted — finalize deaths and wipe the per-engagement pile.
    Boundary,
}

/// The in-flight resolution cursor for the engagement schedule: `step` indexes the engagement and
/// `stage` tracks cycling vs the boundary.
#[derive(Clone, Copy, Debug, PartialEq, Eq, Structural)]
pub struct Resolution {
    /// Which engagement (Intercept … Breach) is current.
    pub step: usize,
    /// The cursor within the engagement: cycling, or its boundary.
    pub stage: Stage,
}

impl Resolution {
    /// A fresh cursor at the very start of the schedule (Intercept, first cycle).
    pub fn start() -> (r: Self)
        ensures
            r == (Resolution { step: 0, stage: Stage::Cycle }),
    {
        Resolution { step: 0, stage: Stage::Cycle }
    }
}

// ---------------------------------------------------------------------------------------------
// Strikes.
// ---------------------------------------------------------------------------------------------

/// An Actor whose numbers all fit: its token tallies, its base strike and its wall.
pub open spec fn actor_fits(a: Actor) -> bool {
    &&& tokens_fit(a.tokens@)
    &&& eff_might_of(a) + weapon_power(a) + a.might_bonus <= u32::MAX
    &&& eff_toughness_of(a) + token_total(a.tokens@, Tally::Guard) <= u32::MAX
}

/// The weapon card's printed power (its first Damage effect), or 0.
pub open spec fn weapon_power(a: Actor) -> u32 {
    match first_damage(a.weapon.effects@) {
        Some(p) => p,
        None => 0,
    }
}

/// The base strike magnitude: effective Might + the weapon's power + this round's Empower.
pub open spec fn base_strike_of(a: Actor) -> u32 {
    (eff_might_of(a) + weapon_power(a) + a.might_bonus) as u32
}

/// The wall a strike must clear: effective Toughness plus Guard tokens.
pub open spec fn wall_of(a: Actor) -> u32 {
    (eff_toughness_of(a) + token_total(a.tokens@, Tally::Guard)) as u32
}

/// The base strike raw magnitude (untyped Might): the actor's effective **Might**, plus the base
/// attack card's power, plus this round's Empower.
pub fn base_strike(a: &Actor) -> (raw: u32)
    requires
        actor_fits(*a),
    ensures
        raw == base_strike_of(*a),
{
    let card_pow = match a.weapon.primary_damage() {
        Some(p) => p,
        None => 0,
    };
    a.eff_might() + card_pow + a.might_bonus
}

/// A base [`Strike`] snapshot.
pub fn snapshot(a: &Actor) -> (s: Strike)
    requires
        actor_fits(*a),
    ensures
        s == (Strike { raw: base_strike_of(*a) }),
{
    Strike { raw: base_strike(a) }
}

/// The log lines appended by an operation: `new` is `old` followed by exactly `lines`.
pub open spec fn logged(old: Seq<String>, new: Seq<String>, lines: Seq<Seq<char>>) -> bool {
    &&& new.len() == old.len() + lines.len()
    &&& forall|i: int| 0 <= i < old.len() ==> new[i] == old[i]
    &&& forall|j: int| 0 <= j < lines.len() ==> (#[trigger] new[old.len() + j])@ == lines[j]
}

/// `old` is a prefix of `new` (narration was only appended).
pub open spec fn log_extends(old: Seq<String>, new: Seq<String>) -> bool {
    &&& new.len() >= old.len()
    &&& forall|i: int| 0 <= i < old.len() ==> new[i] == old[i]
}

/// Narration appended in two runs is appended as the two runs in order.
pub proof fn lemma_logged_trans(
    a: Seq<String>,
    b: Seq<String>,
    c: Seq<String>,
    l1: Seq<Seq<char>>,
    l2: Seq<Seq<char>>,
)
    requires
        logged(a, b, l1),
        logged(b, c, l2),
    ensures
        logged(a, c, l1 + l2),
{
    assert forall|j: int| 0 <= j < (l1 + l2).len() implies (#[trigger] c[a.len() + j])@ == (l1 + l2)[j] by {
        if j < l1.len() {
            assert(c[a.len() + j] == b[a.len() + j]);
        } else {
            assert(c[b.len() + (j - l1.len())]@ == l2[j - l1.len()]);
        }
    }
}

/// A log is its own extension by no lines.
pub proof fn lemma_logged_refl(a: Seq<String>)
    ensures
        logged(a, a, seq![]),
{
}

/// The narration of a charged strike.
pub open spec fn unleash_line(name: Seq<char>, charges: u32) -> Seq<char> {
    "  "@ + name + " unleashes "@ + decimal(charges as nat) + " banked Charge (+"@ + decimal(charges as nat)
        + " Might)."@
}

/// A [`Strike`] snapshot that **consumes the attacker's banked Charge tokens** (+1 Might each).
pub fn charged_snapshot(a: &mut Actor, log: &mut Vec<String>) -> (s: Strike)
    requires
        actor_fits(*old(a)),
        base_strike_of(*old(a)) + charge_total(old(a).tokens@) <= u32::MAX,
    ensures
        s == (Strike { raw: (base_strike_of(*old(a)) + charge_total(old(a).tokens@)) as u32 }),
        final(a).tokens@ == strip(old(a).tokens@, false),
        *final(a) == (Actor { tokens: final(a).tokens, ..*old(a) }),
        charge_total(old(a).tokens@) > 0 ==> logged(
            old(log)@,
            final(log)@,
            seq![unleash_line(old(a).name@, charge_total(old(a).tokens@) as u32)],
        ),
        charge_total(old(a).tokens@) == 0 ==> final(log)@ == old(log)@,
{
    proof {
        lemma_strip_tallies(a.tokens@, false);
        lemma_charge_total_le(a.tokens@);
    }
    let charges = a.drain_charges();
    if charges > 0 {
        let mut line = String::from_str("  ");
        line.append(a.name.as_str());
        line.append(" unleashes ");
        push_num(&mut line, charges as u64);
        line.append(" banked Charge (+");
        push_num(&mut line, charges as u64);
        line.append(" Might).");
        log.push(line);
    }
    Strike { raw: base_strike(a) + charges }
}

proof fn lemma_charge_total_le(s: Seq<Token>)
    ensures
        charge_total(s) <= s.len(),
    decreases s.len(),
{
    if s.len() > 0 {
        lemma_charge_total_le(s.drop_first());
    }
}

/// The narration of a strike on a body whose health cards are already all face down.
pub open spec fn overkill_line(attacker: Seq<char>, name: Seq<char>, raw: u32) -> Seq<char> {
    "  "@ + attacker + " hits "@ + name + ": "@ + decimal(raw as nat)
        + " might — its health cards are already all face down."@
}

/// The narration of a landed strike, with the health meter after it.
pub open spec fn strike_line(attacker: Seq<char>, name: Seq<char>, raw: u32, flipped: u32, rem: u32, max: u32) -> Seq<char> {
    let what = if flipped == 1 {
        " — turns a health card face down."@
    } else if flipped > 1 {
        " — turns "@ + decimal(flipped as nat) + " health cards face down."@
    } else {
        " — damage accumulates."@
    };
    "  "@ + attacker + " hits "@ + name + ": "@ + decimal(raw as nat) + " might"@ + what + " [health "@
        + decimal(rem as nat) + "/"@ + decimal(max as nat) + "]"@
}

/// **A strike flips one card per whole wall it clears**: on a standing body, the strike's Might
/// joins the pile; as many face-up cards turn down as the pile holds whole walls (never more than are
/// face up), and what is left of the pile is less than one wall unless every card went down. A downed
/// body is not struck again. Only the defense changes.
pub proof fn law_strike_flips_whole_walls(a: Actor, b: Actor, raw: u32)
    requires
        struck(a, b, raw),
    ensures
        actor_down(a) ==> b == a,
        !actor_down(a) ==> {
            let bar = floor1(wall_of(a)) as int;
            let total = a.defense.health_pile + raw;
            let flipped = count_up(a.defense.health@) - count_up(b.defense.health@);
            &&& b == Actor { defense: b.defense, ..a }
            &&& b.defense.health@.len() == a.defense.health@.len()
            &&& 0 <= flipped
            &&& b.defense.health_pile == total - flipped * bar
            &&& 0 <= b.defense.health_pile
            &&& (count_up(b.defense.health@) > 0 ==> b.defense.health_pile < bar)
        },
{
    if !actor_down(a) {
        let bar = floor1(wall_of(a)) as int;
        let total = a.defense.health_pile + raw;
        let up = count_up(a.defense.health@);
        let k = flips_for(total, bar, up);
        assert(bar >= 1);
        assert(k <= up);
        crate::stats::lemma_flip_times(a.defense.health@, k);
        assert(count_up(b.defense.health@) + k == up);
        lemma_strict_bid(total, bar, 0);
        let q = total / bar;
        assert(k <= q);
        assert(k * bar <= q * bar) by (nonlinear_arith)
            requires
                k <= q,
                bar >= 1,
        ;
        if count_up(b.defense.health@) > 0 {
            assert(k == q);
            assert(total - k * bar < bar) by (nonlinear_arith)
                requires
                    k == q,
                    (q + 1) * bar > total,
            ;
        }
    }
}

/// `b` is `a` with only its defense replaced by `d`.
pub open spec fn with_defense(a: Actor, d: Defense) -> Actor {
    Actor { defense: d, ..a }
}

/// The effect of one `raw` strike on `a`: a body already down is untouched; otherwise the raw Might
/// banks into its pile against its wall (effective Toughness + Guard), flipping one card per bar
/// cleared.
pub open spec fn struck(a: Actor, b: Actor, raw: u32) -> bool {
    if actor_down(a) {
        b == a
    } else {
        let total = a.defense.health_pile + raw;
        let bar = floor1(wall_of(a));
        let k = flips_for(total, bar as int, count_up(a.defense.health@));
        &&& b == with_defense(a, b.defense)
        &&& b.defense.health@ == flip_times(a.defense.health@, k)
        &&& b.defense.health_pile == total - k * bar
    }
}

/// A strike on `a` can be applied without overflowing its pile or its wall.
pub open spec fn strikable(a: Actor, raw: u32) -> bool {
    &&& tokens_fit(a.tokens@)
    &&& (!actor_down(a) ==> eff_toughness_of(a) + token_total(a.tokens@, Tally::Guard) <= u32::MAX)
    &&& (!actor_down(a) ==> a.defense.health_pile + raw <= u32::MAX)
}

/// The narration `apply_strike` appends for a strike of `raw` from `attacker` on `a` (becoming `b`).
pub open spec fn hit_line(attacker: Seq<char>, a: Actor, b: Actor, raw: u32) -> Seq<char> {
    if actor_down(a) {
        overkill_line(attacker, a.name@, raw)
    } else {
        let total = a.defense.health_pile + raw;
        let k = flips_for(total, floor1(wall_of(a)) as int, count_up(a.defense.health@));
        strike_line(
            attacker,
            a.name@,
            raw,
            k as u32,
            count_up(b.defense.health@) as u32,
            b.defense.health@.len() as u32,
        )
    }
}

/// Route a strike through the target's defense and **narrate it as card-state transitions**: turned
/// aside, damage accumulating, or **N health cards turn face down**. A body whose cards are already
/// all face down is only narrated (overkill), never struck again.
pub fn apply_strike(target: &mut Actor, strike: Strike, attacker: &str, log: &mut Vec<String>)
    requires
        strikable(*old(target), strike.raw),
    ensures
        struck(*old(target), *final(target), strike.raw),
        logged(old(log)@, final(log)@, seq![hit_line(attacker@, *old(target), *final(target), strike.raw)]),
{
    if target.is_down() {
        let mut line = String::from_str("  ");
        line.append(attacker);
        line.append(" hits ");
        line.append(target.name.as_str());
        line.append(": ");
        push_num(&mut line, strike.raw as u64);
        line.append(" might — its health cards are already all face down.");
        log.push(line);
        assert(log@.last()@ == overkill_line(attacker@, target.name@, strike.raw));
        return;
    }
    let bar = target.eff_toughness() + target.guard_toughness();
    let out = target.defense.take_with_toughness(strike.raw, bar);
    let mut line = String::from_str("  ");
    line.append(attacker);
    line.append(" hits ");
    line.append(target.name.as_str());
    line.append(": ");
    push_num(&mut line, strike.raw as u64);
    line.append(" might");
    let what = if out.cards_flipped == 1 {
        String::from_str(" — turns a health card face down.")
    } else if out.cards_flipped > 1 {
        let mut w = String::from_str(" — turns ");
        push_num(&mut w, out.cards_flipped as u64);
        w.append(" health cards face down.");
        w
    } else {
        String::from_str(" — damage accumulates.")
    };
    line.append(what.as_str());
    line.append(" [health ");
    let rem = target.defense.health.remaining();
    push_num(&mut line, rem as u64);
    line.append("/");
    let mx = target.defense.health.max();
    push_num(&mut line, mx as u64);
    line.append("]");
    log.push(line);
}

// ---------------------------------------------------------------------------------------------
// Pools.
// ---------------------------------------------------------------------------------------------

/// The indices of the living (not down) members of a pool, ascending.
pub open spec fn living_idx(s: Seq<Actor>) -> Seq<usize>
    decreases s.len(),
{
    if s.len() == 0 {
        seq![]
    } else {
        let rest = living_idx(s.drop_last());
        if actor_down(s.last()) {
            rest
        } else {
            rest.push((s.len() - 1) as usize)
        }
    }
}

/// Living indices of a pool.
pub fn living(pool: &[Actor]) -> (v: Vec<usize>)
    ensures
        v@ == living_idx(pool@),
{
    let mut v: Vec<usize> = Vec::new();
    let mut i: usize = 0;
    assert(pool@.take(0) =~= Seq::<Actor>::empty());
    while i < pool.len()
        invariant
            i <= pool@.len(),
            v@ == living_idx(pool@.take(i as int)),
        decreases pool.len() - i,
    {
        assert(pool@.take(i + 1).drop_last() =~= pool@.take(i as int));
        if !pool[i].is_down() {
            v.push(i);
        }
        i = i + 1;
    }
    assert(pool@.take(i as int) =~= pool@);
    v
}

/// The remaining-health key a target rule compares.
pub open spec fn rem_of(a: Actor) -> u32 {
    count_up(a.defense.health@) as u32
}

/// Pick a target index among `candidates` (indices into `pool`) per a target rule: the first
/// candidate, or the first candidate with the fewest remaining health cards.
pub fn pick_target(pool: &[Actor], candidates: &[usize], rule: TargetRule) -> (t: Option<usize>)
    requires
        forall|k: int| 0 <= k < candidates@.len() ==> candidates@[k] < pool@.len(),
    ensures
        candidates@.len() == 0 ==> t is None,
        candidates@.len() > 0 ==> (rule == TargetRule::Front ==> t == Some(candidates@[0])),
        candidates@.len() > 0 && rule == TargetRule::LowestBody ==> exists|k: int|
            0 <= k < candidates@.len() && t == Some(candidates@[k]) && (forall|j: int|
                0 <= j < candidates@.len() ==> rem_of(pool@[candidates@[k] as int]) <= rem_of(
                    pool@[candidates@[j] as int],
                )) && (forall|j: int|
                0 <= j < k ==> rem_of(pool@[candidates@[k] as int]) < rem_of(pool@[candidates@[j] as int])),
{
    if candidates.len() == 0 {
        return None;
    }
    match rule {
        TargetRule::Front => Some(candidates[0]),
        TargetRule::LowestBody => {
            let mut best: usize = 0;
            let mut best_rem = pool[candidates[0]].defense.health.remaining();
            let mut k: usize = 1;
            while k < candidates.len()
                invariant
                    1 <= k <= candidates@.len(),
                    best < k,
                    forall|q: int| 0 <= q < candidates@.len() ==> candidates@[q] < pool@.len(),
                    best_rem == rem_of(pool@[candidates@[best as int] as int]),
                    forall|j: int| 0 <= j < k ==> best_rem <= rem_of(pool@[candidates@[j] as int]),
                    forall|j: int| 0 <= j < best ==> best_rem < rem_of(pool@[candidates@[j] as int]),
                decreases candidates.len() - k,
            {
                let r = pool[candidates[k]].defense.health.remaining();
                if r < best_rem {
                    best = k;
                    best_rem = r;
                }
                k = k + 1;
            }
            Some(candidates[best])
        },
    }
}

/// Can `defender` contest a strike at `range`? If not, the strike is an auto-hit.
pub fn contests(defender: &Actor, range: Range) -> (b: bool)
    ensures
        b == attack_has(defender.attack, range),
{
    defender.can_contest(range)
}

/// The boundary fate of one body: a downed body that has not yet fallen either stands at one card
/// (a Lifeline turns one card up if the pool just emptied) or **falls** — its tokens clear.
pub open spec fn tallied(a: Actor, b: Actor) -> bool {
    if actor_down(a) && !a.fallen {
        if a.cannot_fall {
            &&& b == with_defense(a, b.defense)
            &&& b.defense.health_pile == a.defense.health_pile
            &&& b.defense.health@ == (if count_up(a.defense.health@) as u32 == 0 {
                turn_up_spec(a.defense.health@)
            } else {
                a.defense.health@
            })
        } else {
            b == Actor { fallen: true, tokens: b.tokens, ..a } && b.tokens@.len() == 0
        }
    } else {
        b == a
    }
}

/// **A boundary fells exactly the downed who can fall**: after a tally a body is fallen exactly when
/// it already was, or it is down and holds no Lifeline; a felled body sheds all its tokens and nothing
/// else about it changes; a downed Lifeline holder with a deck stands again with a card face up; a
/// standing body is untouched.
pub proof fn law_tally_fells_the_downed(a: Actor, b: Actor)
    requires
        tallied(a, b),
    ensures
        b.fallen <==> (a.fallen || (actor_down(a) && !a.cannot_fall)),
        !a.fallen && b.fallen ==> b.tokens@.len() == 0 && b == (Actor { fallen: true, tokens: b.tokens, ..a }),
        actor_down(a) && !a.fallen && a.cannot_fall && 0 < a.defense.health@.len() <= u32::MAX ==> !actor_down(b),
        !actor_down(a) ==> b == a,
{
    if actor_down(a) && !a.fallen && a.cannot_fall {
        crate::stats::lemma_turn_up(a.defense.health@);
        crate::stats::lemma_counts(a.defense.health@);
    }
}

/// The defeat narration.
pub open spec fn defeat_line(name: Seq<char>) -> Seq<char> {
    name + " — all its health cards are face down; defeated."@
}

/// The defeat narration of each body of `p` that falls at the boundary, in pool order.
pub open spec fn defeat_lines(p: Seq<Actor>) -> Seq<Seq<char>>
    decreases p.len(),
{
    if p.len() == 0 {
        Seq::empty()
    } else {
        let a = p.last();
        defeat_lines(p.drop_last()) + (if actor_down(a) && !a.fallen && !a.cannot_fall {
            seq![defeat_line(a.name@)]
        } else {
            Seq::empty()
        })
    }
}

/// Finalize deaths at a phase boundary: an Actor whose health is gone becomes `fallen` (its tokens
/// clear, and its defeat is narrated once) — unless it has a Lifeline this round, which leaves it
/// standing with one card face up instead.
pub fn tally(pool: &mut [Actor], log: &mut Vec<String>)
    ensures
        final(pool)@.len() == old(pool)@.len(),
        forall|i: int| 0 <= i < old(pool)@.len() ==> tallied(old(pool)@[i], #[trigger] final(pool)@[i]),
        logged(old(log)@, final(log)@, defeat_lines(old(pool)@)),
        log_extends(old(log)@, final(log)@),
{
    let ghost p0 = pool@;
    let mut i: usize = 0;
    proof {
        assert(p0.take(0) =~= Seq::<Actor>::empty());
    }
    while i < pool.len()
        invariant
            i <= pool@.len() == p0.len(),
            forall|j: int| 0 <= j < i ==> tallied(p0[j], #[trigger] pool@[j]),
            forall|j: int| i <= j < p0.len() ==> #[trigger] pool@[j] == p0[j],
            logged(old(log)@, log@, defeat_lines(p0.take(i as int))),
            log_extends(old(log)@, log@),
        decreases pool.len() - i,
    {
        let ghost l0 = log@;
        proof {
            assert(p0.take(i + 1).drop_last() =~= p0.take(i as int));
            assert(p0.take(i + 1).last() == p0[i as int]);
        }
        if pool[i].is_down() && !pool[i].fallen {
            if pool[i].cannot_fall {
                if pool[i].defense.health.is_empty() {
                    pool[i].defense.health.turn_up();
                }
            } else {
                pool[i].fallen = true;
                pool[i].tokens = Vec::new();
                let mut line = String::from_str(pool[i].name.as_str());
                line.append(" — all its health cards are face down; defeated.");
                log.push(line);
            }
        }
        proof {
            let lines = defeat_lines(p0.take(i + 1));
            let prev = defeat_lines(p0.take(i as int));
            assert forall|j: int| 0 <= j < lines.len() implies (#[trigger] log@[old(log)@.len() + j])@ == lines[j] by {
                if j < prev.len() {
                    assert(log@[old(log)@.len() + j] == l0[old(log)@.len() + j]);
                }
            }
        }
        i = i + 1;
    }
    proof {
        assert(p0.take(i as int) =~= p0);
    }
}

/// The per-phase pile wipe: at a phase boundary every body's sub-threshold pile clears.
pub fn clear_phase_piles(pool: &mut [Actor])
    ensures
        final(pool)@.len() == old(pool)@.len(),
        forall|i: int|
            0 <= i < old(pool)@.len() ==> #[trigger] final(pool)@[i] == with_defense(
                old(pool)@[i],
                Defense { health_pile: 0, ..old(pool)@[i].defense },
            ),
{
    let ghost p0 = pool@;
    let mut i: usize = 0;
    while i < pool.len()
        invariant
            i <= pool@.len() == p0.len(),
            forall|j: int|
                0 <= j < i ==> #[trigger] pool@[j] == with_defense(p0[j], Defense { health_pile: 0, ..p0[j].defense }),
            forall|j: int| i <= j < p0.len() ==> #[trigger] pool@[j] == p0[j],
        decreases pool.len() - i,
    {
        pool[i].defense.clear_pile();
        i = i + 1;
    }
}

// ---------------------------------------------------------------------------------------------
// The evade contest.
// ---------------------------------------------------------------------------------------------

/// The fewest Tempo cards a defender of Finesse `grade` must commit for `cards × grade` to **strictly
/// exceed** a `volley` (or, winning ties, to meet it) — at least 1.
pub open spec fn cards_to_evade_spec(grade: u32, volley: u32, wins_ties: bool) -> nat {
    let c = if wins_ties {
        (volley as int + grade - 1) / (grade as int)
    } else {
        volley as int / (grade as int) + 1
    };
    if c < 1 {
        1
    } else {
        c as nat
    }
}

/// **An evade is the least bid that beats the volley**: without Shadowstep a defender of grade `g`
/// commits the fewest cards whose combined Finesse strictly exceeds the volley — one card fewer would
/// not (a tie lands the shot); with Shadowstep a tie suffices, so the fewest cards (at least one) that
/// reach the volley.
pub proof fn law_evade_is_the_least_winning_bid(grade: u32, volley: u32)
    requires
        grade >= 1,
    ensures
        ({
            let c = cards_to_evade_spec(grade, volley, false);
            &&& c * grade > volley
            &&& (c - 1) * grade <= volley
        }),
        ({
            let t = cards_to_evade_spec(grade, volley, true);
            &&& t >= 1
            &&& t * grade >= volley
            &&& (t == 1 || (t - 1) * grade < volley)
        }),
{
    let g = grade as int;
    let v = volley as int;
    lemma_strict_bid(v, g, 0);
    let x = v + g - 1;
    lemma_strict_bid(x, g, 1);
    let c0 = x / g;
    if v >= 1 {
        assert(c0 >= 1);
        assert(c0 * g > v - 1) by (nonlinear_arith)
            requires
                (c0 + 1) * g > x,
                x == v + g - 1,
        ;
        assert((c0 - 1) * g < v) by (nonlinear_arith)
            requires
                c0 * g <= x,
                x == v + g - 1,
        ;
    } else {
        assert(c0 * g <= x);
        assert(c0 <= 0) by (nonlinear_arith)
            requires
                c0 * g <= g - 1,
                g >= 1,
        ;
    }
}

/// **A defender evades exactly when it can out-bid the volley**: an unstaggered defender without
/// Shadowstep evades a volley exactly when its Tempo cards, at its effective Finesse, strictly exceed
/// the volley; a staggered one never does.
pub proof fn law_evades_exactly_when_it_out_bids(d: Actor, volley: u32)
    requires
        !has_card(d.actions@, "Shadowstep"@),
    ensures
        ({
            let need = cards_to_evade_spec(eff_finesse_of(d), volley, has_card(d.actions@, "Shadowstep"@));
            (!d.stunned && need <= d.tempo) <==> (!d.stunned && d.tempo * eff_finesse_of(d) > volley)
        }),
{
    let g = eff_finesse_of(d) as int;
    lemma_strict_bid(volley as int, g, d.tempo as int);
    assert(cards_to_evade_spec(eff_finesse_of(d), volley, false) == volley as int / g + 1);
}

fn cards_to_evade(defender: &Actor, volley: u32, wins_ties: bool) -> (c: u32)
    requires
        tokens_fit(defender.tokens@),
        !wins_ties ==> volley as int / (eff_finesse_of(*defender) as int) + 1 <= u32::MAX,
    ensures
        c == cards_to_evade_spec(eff_finesse_of(*defender), volley, wins_ties),
{
    let grade = defender.eff_finesse();
    let c: u64 = if wins_ties {
        (volley as u64 + grade as u64 - 1) / (grade as u64)
    } else {
        volley as u64 / (grade as u64) + 1
    };
    let c = if c < 1 {
        1
    } else {
        c
    };
    if wins_ties {
        assert((volley as int + grade as int - 1) / (grade as int) <= volley as int) by (nonlinear_arith)
            requires
                grade >= 1,
                volley >= 0,
        {
            if volley > 0 {
                vstd::arithmetic::div_mod::lemma_div_is_ordered_by_denominator(
                    volley as int + grade as int - 1,
                    1,
                    grade as int,
                );
            }
        }
    }
    c as u32
}

/// The contest narrations.
pub open spec fn evade_line(name: Seq<char>, need: u32, grade: u32, volley: u32) -> Seq<char> {
    "  "@ + name + " evades (evade "@ + decimal(need as nat) + "×"@ + decimal(grade as nat) + "="@ + decimal(
        (need * grade) as nat,
    ) + " > volley "@ + decimal(volley as nat) + ")."@
}

pub open spec fn no_evade_line(name: Seq<char>, volley: u32) -> Seq<char> {
    "  "@ + name + " cannot evade the volley ("@ + decimal(volley as nat) + ") — the shot lands."@
}

/// The evade contest can be settled without overflow: the card count fits an `i32`, and its bid
/// (`cards × Finesse`) fits a `u32`.
pub open spec fn evade_fits(d: Actor, volley: u32) -> bool {
    let wt = has_card(d.actions@, "Shadowstep"@);
    let g = eff_finesse_of(d);
    &&& tokens_fit(d.tokens@)
    &&& (!wt ==> volley as int / (g as int) + 1 <= u32::MAX)
    &&& cards_to_evade_spec(g, volley, wt) <= i32::MAX
    &&& cards_to_evade_spec(g, volley, wt) * g <= u32::MAX
}

/// Resolve a ranged attack against `defender`: the defender **evades** by committing the minimum
/// Tempo to strictly exceed the attacker's pressed `volley` (cards × Finesse) — with **Shadowstep** a
/// tie suffices — if it can afford it. A Staggered defender cannot act and takes the shot. Returns
/// `true` if the attack was evaded.
pub fn try_evade(defender: &mut Actor, volley: u32, log: &mut Vec<String>) -> (evaded: bool)
    requires
        evade_fits(*old(defender), volley),
    ensures
        ({
            let d = *old(defender);
            let need = cards_to_evade_spec(eff_finesse_of(d), volley, has_card(d.actions@, "Shadowstep"@));
            &&& evaded == (!d.stunned && need <= d.tempo)
            &&& evaded ==> *final(defender) == Actor { tempo: (d.tempo - need) as i32, ..d }
            &&& evaded ==> logged(
                old(log)@,
                final(log)@,
                seq![evade_line(d.name@, need as u32, eff_finesse_of(d), volley)],
            )
            &&& !evaded ==> *final(defender) == d
            &&& (!evaded && !d.stunned) ==> logged(old(log)@, final(log)@, seq![no_evade_line(d.name@, volley)])
            &&& d.stunned ==> final(log)@ == old(log)@
        }),
{
    if defender.stunned {
        return false;
    }
    let wins_ties = defender.has("Shadowstep");
    let need_u = cards_to_evade(defender, volley, wins_ties);
    let need = need_u as i32;
    let grade = defender.eff_finesse();
    if need <= defender.tempo {
        defender.tempo = defender.tempo - need;
        let mut line = String::from_str("  ");
        line.append(defender.name.as_str());
        line.append(" evades (evade ");
        push_num(&mut line, need_u as u64);
        line.append("×");
        push_num(&mut line, grade as u64);
        line.append("=");
        push_num(&mut line, (need_u * grade) as u64);
        line.append(" > volley ");
        push_num(&mut line, volley as u64);
        line.append(").");
        log.push(line);
        true
    } else {
        let mut line = String::from_str("  ");
        line.append(defender.name.as_str());
        line.append(" cannot evade the volley (");
        push_num(&mut line, volley as u64);
        line.append(") — the shot lands.");
        log.push(line);
        false
    }
}

// ---------------------------------------------------------------------------------------------
// Playing a card.
// ---------------------------------------------------------------------------------------------

/// How many bodies each effect of a card touches: its printed target count, at least 1.
pub open spec fn reach_of(card: Card) -> nat {
    if card.targets >= 1 {
        card.targets as nat
    } else {
        1
    }
}

/// `fs`/`als` are the foes/allies states a card's effects `es` walk through, one effect at a time.
pub open spec fn played(
    es: Seq<Effect>,
    n: nat,
    might: u32,
    me: Option<usize>,
    fs: Seq<Seq<Actor>>,
    als: Seq<Seq<Actor>>,
) -> bool {
    &&& fs.len() == es.len() + 1
    &&& als.len() == es.len() + 1
    &&& forall|k: int|
        0 <= k < es.len() ==> effect_rel(#[trigger] es[k], n, might, me, fs[k], als[k], fs[k + 1], als[k + 1])
}

/// The first narration of a played card.
pub open spec fn plays_line(actor: Seq<char>, card: Seq<char>) -> Seq<char> {
    actor + " plays "@ + card + "."@
}

/// The narration of the first `k` effects of a card played by `name` walking `fs`/`als`.
pub open spec fn played_lines(
    es: Seq<Effect>,
    n: nat,
    might: u32,
    me: Option<usize>,
    name: Seq<char>,
    fs: Seq<Seq<Actor>>,
    als: Seq<Seq<Actor>>,
    k: int,
) -> Seq<Seq<char>>
    decreases k,
{
    if k <= 0 {
        seq![]
    } else {
        played_lines(es, n, might, me, name, fs, als, k - 1) + effect_lines(
            es[k - 1],
            n,
            might,
            me,
            name,
            fs[k - 1],
            als[k - 1],
            fs[k],
            als[k],
        )
    }
}

/// `f1`/`a1` are the foes/allies after the effects `es` of a card touching `n` bodies each, played
/// by `name`, a body of Might `might` (ally `me`, when the caster is one), resolve on `f0`/`a0` in
/// order, each effect narrating in turn into `lines`.
pub open spec fn card_played(
    es: Seq<Effect>,
    n: nat,
    might: u32,
    me: Option<usize>,
    name: Seq<char>,
    f0: Seq<Actor>,
    a0: Seq<Actor>,
    f1: Seq<Actor>,
    a1: Seq<Actor>,
    lines: Seq<Seq<char>>,
) -> bool {
    exists|fs: Seq<Seq<Actor>>, als: Seq<Seq<Actor>>|
        {
            &&& played(es, n, might, me, fs, als)
            &&& fs[0] == f0
            &&& als[0] == a0
            &&& fs.last() == f1
            &&& als.last() == a1
            &&& lines == played_lines(es, n, might, me, name, fs, als, es.len() as int)
        }
}

/// Apply an action/power card: each of its effects in order, each touching up to the card's target
/// count of bodies (see [`effect_rel`]). `foes`/`allies` are the opposing and friendly pools; the
/// caster is ally `self_idx` when it is one. The card's play is narrated first.
pub fn play_card(
    card: &Card,
    actor_name: &str,
    attacker: Offense,
    foes: &mut [Actor],
    allies: &mut [Actor],
    self_idx: Option<usize>,
    log: &mut Vec<String>,
)
    requires
        self_idx matches Some(i) ==> i < old(allies)@.len(),
        card_in_range(card.effects@, attacker.might),
        pool_fits(old(foes)@, card.effects@, attacker.might),
        pool_fits(old(allies)@, card.effects@, attacker.might),
    ensures
        exists|lines: Seq<Seq<char>>|
            {
                &&& #[trigger] card_played(
                    card.effects@,
                    reach_of(*card),
                    attacker.might,
                    self_idx,
                    actor_name@,
                    old(foes)@,
                    old(allies)@,
                    final(foes)@,
                    final(allies)@,
                    lines,
                )
                &&& logged(old(log)@, final(log)@, seq![plays_line(actor_name@, card.name@)] + lines)
            },
{
    assert(card.effects@ + Seq::<Effect>::empty() =~= card.effects@);
    play_within(card, actor_name, attacker, foes, allies, self_idx, log, Ghost(Seq::empty()), Ghost(attacker.might));
}

/// [`play_card`], judged against a budget for the card's effects followed by `rest`, at a Might of
/// `bound`: what the card leaves of the budget covers `rest`.
pub(crate) fn play_within(
    card: &Card,
    actor_name: &str,
    attacker: Offense,
    foes: &mut [Actor],
    allies: &mut [Actor],
    self_idx: Option<usize>,
    log: &mut Vec<String>,
    rest: Ghost<Seq<Effect>>,
    bound: Ghost<u32>,
)
    requires
        self_idx matches Some(i) ==> i < old(allies)@.len(),
        attacker.might <= bound@,
        card_in_range(card.effects@, attacker.might),
        pool_fits(old(foes)@, card.effects@ + rest@, bound@),
        pool_fits(old(allies)@, card.effects@ + rest@, bound@),
    ensures
        exists|lines: Seq<Seq<char>>|
            {
                &&& #[trigger] card_played(
                    card.effects@,
                    reach_of(*card),
                    attacker.might,
                    self_idx,
                    actor_name@,
                    old(foes)@,
                    old(allies)@,
                    final(foes)@,
                    final(allies)@,
                    lines,
                )
                &&& logged(old(log)@, final(log)@, seq![plays_line(actor_name@, card.name@)] + lines)
            },
        pool_fits(final(foes)@, rest@, bound@),
        pool_fits(final(allies)@, rest@, bound@),
        final(allies)@.len() == old(allies)@.len(),
        final(foes)@.len() == old(foes)@.len(),
{
    let mut line = String::from_str(actor_name);
    line.append(" plays ");
    line.append(card.name.as_str());
    line.append(".");
    log.push(line);
    let ghost log1 = log@;
    let ghost head = seq![plays_line(actor_name@, card.name@)];
    assert(logged(old(log)@, log1, head));
    let t = card.targets as usize;
    let n: usize = if t < 1 {
        1
    } else {
        t
    };
    let ghost es = card.effects@;
    let ghost all = card.effects@ + rest@;
    let ghost might = attacker.might;
    let ghost mut fs: Seq<Seq<Actor>> = seq![foes@];
    let ghost mut als: Seq<Seq<Actor>> = seq![allies@];
    let mut k: usize = 0;
    assert(all.skip(0) =~= all);
    while k < card.effects.len()
        invariant
            es == card.effects@,
            all == es + rest@,
            might == attacker.might,
            might <= bound@,
            n as nat == reach_of(*card),
            k <= es.len(),
            self_idx matches Some(i) ==> i < allies@.len(),
            card_in_range(es, might),
            pool_fits(foes@, all.skip(k as int), bound@),
            pool_fits(allies@, all.skip(k as int), bound@),
            fs.len() == k + 1,
            als.len() == k + 1,
            fs[0] == old(foes)@,
            als[0] == old(allies)@,
            fs.last() == foes@,
            als.last() == allies@,
            foes@.len() == old(foes)@.len(),
            allies@.len() == old(allies)@.len(),
            forall|q: int|
                0 <= q < k ==> effect_rel(#[trigger] es[q], n as nat, might, self_idx, fs[q], als[q], fs[q + 1], als[q + 1]),
            logged(old(log)@, log@, head + played_lines(es, n as nat, might, self_idx, actor_name@, fs, als, k as int)),
        decreases es.len() - k,
    {
        let ghost l0 = log@;
        let ghost fs0 = fs;
        let ghost als0 = als;
        let e = card.effects[k];
        let ghost tail = all.skip(k as int);
        assert(tail[0] == es[k as int]);
        assert(crate::effects::effect_in_range(es[k as int], might));
        apply_effect(e, Ghost(tail), n, attacker.might, actor_name, foes, allies, self_idx, log, bound);
        assert(tail.drop_first() =~= all.skip(k + 1));
        proof {
            let el = effect_lines(es[k as int], n as nat, might, self_idx, actor_name@, fs0.last(), als0.last(), foes@, allies@);
            let prev = played_lines(es, n as nat, might, self_idx, actor_name@, fs0, als0, k as int);
            lemma_logged_trans(old(log)@, l0, log@, head + prev, el);
            fs = fs.push(foes@);
            als = als.push(allies@);
            lemma_played_lines_push(es, n as nat, might, self_idx, actor_name@, fs0, als0, fs, als, k as int);
            assert(head + prev + el =~= head + (prev + el));
        }
        k = k + 1;
    }
    assert(all.skip(k as int) =~= rest@);
    assert(played(es, n as nat, might, self_idx, fs, als));
    assert(card_played(
        es,
        n as nat,
        might,
        self_idx,
        actor_name@,
        old(foes)@,
        old(allies)@,
        foes@,
        allies@,
        played_lines(es, n as nat, might, self_idx, actor_name@, fs, als, es.len() as int),
    ));
}

/// Extending the walked states by one keeps the narration of the effects already walked, and adds
/// the new effect's.
proof fn lemma_played_lines_push(
    es: Seq<Effect>,
    n: nat,
    might: u32,
    me: Option<usize>,
    name: Seq<char>,
    fs0: Seq<Seq<Actor>>,
    als0: Seq<Seq<Actor>>,
    fs: Seq<Seq<Actor>>,
    als: Seq<Seq<Actor>>,
    k: int,
)
    requires
        0 <= k,
        fs0.len() == k + 1,
        als0.len() == k + 1,
        fs.len() == k + 2,
        als.len() == k + 2,
        forall|q: int| 0 <= q <= k ==> fs[q] == fs0[q] && als[q] == als0[q],
    ensures
        played_lines(es, n, might, me, name, fs, als, k + 1) == played_lines(es, n, might, me, name, fs0, als0, k) + effect_lines(
            es[k],
            n,
            might,
            me,
            name,
            fs0[k],
            als0[k],
            fs[k + 1],
            als[k + 1],
        ),
{
    lemma_played_lines_frame(es, n, might, me, name, fs0, als0, fs, als, k);
}

proof fn lemma_played_lines_frame(
    es: Seq<Effect>,
    n: nat,
    might: u32,
    me: Option<usize>,
    name: Seq<char>,
    fs0: Seq<Seq<Actor>>,
    als0: Seq<Seq<Actor>>,
    fs: Seq<Seq<Actor>>,
    als: Seq<Seq<Actor>>,
    k: int,
)
    requires
        0 <= k,
        fs0.len() >= k + 1,
        als0.len() >= k + 1,
        fs.len() >= k + 1,
        als.len() >= k + 1,
        forall|q: int| 0 <= q <= k ==> fs[q] == fs0[q] && als[q] == als0[q],
    ensures
        played_lines(es, n, might, me, name, fs, als, k) == played_lines(es, n, might, me, name, fs0, als0, k),
    decreases k,
{
    if k > 0 {
        lemma_played_lines_frame(es, n, might, me, name, fs0, als0, fs, als, k - 1);
    }
}

// ---------------------------------------------------------------------------------------------
// Thorns.
// ---------------------------------------------------------------------------------------------

/// The Thorns narration.
pub open spec fn thorns_line(victim: Seq<char>, power: u32, attacker: Seq<char>) -> Seq<char> {
    "  "@ + victim + "'s thorns reflect "@ + decimal(power as nat) + " Might onto "@ + attacker + "."@
}

/// **Thorns**: if `victim` carries Thorns, the `attacker` that just struck it takes the reflected Might
/// into its **own** current-phase pile. No-op if the victim has no Thorns or the attacker is down.
fn reflect_thorns(attacker: &mut Actor, victim: &Actor, log: &mut Vec<String>)
    requires
        tokens_fit(victim.tokens@),
        strikable(*old(attacker), token_total(victim.tokens@, Tally::Thorns) as u32),
    ensures
        ({
            let power = token_total(victim.tokens@, Tally::Thorns) as u32;
            if power == 0 || actor_down(*old(attacker)) {
                &&& *final(attacker) == *old(attacker)
                &&& final(log)@ == old(log)@
            } else {
                &&& struck(*old(attacker), *final(attacker), power)
                &&& logged(
                    old(log)@,
                    final(log)@,
                    seq![
                        thorns_line(victim.name@, power, old(attacker).name@),
                        hit_line("thorns"@, *old(attacker), *final(attacker), power),
                    ],
                )
            }
        }),
{
    let power = victim.thorns_power();
    if power != 0 && !attacker.is_down() {
        let mut line = String::from_str("  ");
        line.append(victim.name.as_str());
        line.append("'s thorns reflect ");
        push_num(&mut line, power as u64);
        line.append(" Might onto ");
        line.append(attacker.name.as_str());
        line.append(".");
        log.push(line);
        assert(log@.last()@ == thorns_line(victim.name@, power, old(attacker).name@));
        let ghost mid = log@;
        apply_strike(attacker, Strike { raw: power }, "thorns", log);
        assert(mid.len() == old(log)@.len() + 1);
        assert(log@[old(log)@.len() as int] == mid.last());
        let ghost lines = seq![
            thorns_line(victim.name@, power, old(attacker).name@),
            hit_line("thorns"@, *old(attacker), *attacker, power),
        ];
        assert forall|j: int| 0 <= j < lines.len() implies (#[trigger] log@[old(log)@.len() + j])@ == lines[j] by {
            if j == 1 {
                assert(log@[mid.len() + 0int]@ == lines[1]);
            }
        }
    }
}

// ---------------------------------------------------------------------------------------------
// Burn.
// ---------------------------------------------------------------------------------------------

/// The index of the first Burn token, or the length.
pub open spec fn first_burn(s: Seq<Token>) -> int
    decreases s.len(),
{
    if s.len() == 0 {
        0
    } else if s[0] is Burn {
        0
    } else {
        1 + first_burn(s.drop_first())
    }
}

proof fn lemma_first_burn(s: Seq<Token>)
    ensures
        0 <= first_burn(s) <= s.len(),
        forall|j: int| 0 <= j < first_burn(s) ==> !(s[j] is Burn),
        first_burn(s) < s.len() ==> s[first_burn(s)] is Burn,
    decreases s.len(),
{
    if s.len() > 0 {
        lemma_first_burn(s.drop_first());
        assert forall|j: int| 0 <= j < first_burn(s) implies !(s[j] is Burn) by {
            if j > 0 {
                assert(s[j] == s.drop_first()[j - 1]);
            }
        }
    }
}

/// The Might of a body's next Burn tick (0 if it carries none).
pub open spec fn burn_power(a: Actor) -> u32 {
    let p = first_burn(a.tokens@);
    if p < a.tokens@.len() {
        a.tokens@[p]->Burn_power
    } else {
        0
    }
}

/// One Burn tick on a body: a living body carrying Burn loses its first Burn token and takes that
/// token's Might into its pile (if any).
pub open spec fn burned(a: Actor, b: Actor) -> bool {
    let p = first_burn(a.tokens@);
    if actor_down(a) || p >= a.tokens@.len() {
        b == a
    } else {
        exists|a2: Actor|
            {
                &&& a2 == Actor { tokens: a2.tokens, ..a }
                &&& a2.tokens@ == a.tokens@.remove(p)
                &&& if burn_power(a) > 0 {
                    struck(a2, b, burn_power(a))
                } else {
                    b == a2
                }
            }
    }
}

/// A Burn tick on `a` can be applied without overflow.
pub open spec fn burn_ok(a: Actor) -> bool {
    &&& tokens_fit(a.tokens@)
    &&& (!actor_down(a) ==> eff_toughness_of(a) + token_total(a.tokens@, Tally::Guard) <= u32::MAX)
    &&& (!actor_down(a) ==> a.defense.health_pile + burn_power(a) <= u32::MAX)
}

proof fn lemma_token_total_remove(s: Seq<Token>, p: int, k: Tally)
    requires
        0 <= p < s.len(),
    ensures
        token_total(s.remove(p), k) + crate::actor::token_amount(s[p], k) == token_total(s, k),
    decreases s.len(),
{
    if p == 0 {
        assert(s.remove(0) =~= s.drop_first());
    } else {
        lemma_token_total_remove(s.drop_first(), p - 1, k);
        assert(s.remove(p).drop_first() =~= s.drop_first().remove(p - 1));
        assert(s.remove(p)[0] == s[0]);
    }
}

fn is_burn_token(t: Token) -> (b: bool)
    ensures
        b == t is Burn,
{
    match t {
        Token::Burn { .. } => true,
        _ => false,
    }
}

/// Remove the first Burn token, returning its Might (`None` if there is none).
fn drop_first_burn(a: &mut Actor) -> (r: Option<u32>)
    ensures
        first_burn(old(a).tokens@) < old(a).tokens@.len() ==> {
            &&& r == Some(burn_power(*old(a)))
            &&& *final(a) == Actor { tokens: final(a).tokens, ..*old(a) }
            &&& final(a).tokens@ == old(a).tokens@.remove(first_burn(old(a).tokens@))
        },
        first_burn(old(a).tokens@) >= old(a).tokens@.len() ==> r is None && *final(a) == *old(a),
{
    proof {
        lemma_first_burn(a.tokens@);
    }
    let mut i: usize = 0;
    while i < a.tokens.len() && !is_burn_token(a.tokens[i])
        invariant
            i <= a.tokens@.len(),
            a == old(a),
            i <= first_burn(a.tokens@),
            0 <= first_burn(a.tokens@) <= a.tokens@.len(),
            forall|j: int| 0 <= j < first_burn(a.tokens@) ==> !(a.tokens@[j] is Burn),
            first_burn(a.tokens@) < a.tokens@.len() ==> a.tokens@[first_burn(a.tokens@)] is Burn,
        decreases a.tokens.len() - i,
    {
        i = i + 1;
    }
    if i < a.tokens.len() {
        let t = a.tokens.remove(i);
        match t {
            Token::Burn { power } => Some(power),
            _ => None,
        }
    } else {
        None
    }
}

/// The narration-free part of a tick: every body of `p1` is its body of `p0` after one Burn tick.
pub open spec fn ticked(p0: Seq<Actor>, p1: Seq<Actor>) -> bool {
    &&& p1.len() == p0.len()
    &&& forall|i: int| 0 <= i < p0.len() ==> burned(p0[i], #[trigger] p1[i])
}

/// The narration of the Burn ticks on the first `n` bodies of `p0`, becoming those of `p1`: one hit
/// line for each standing body whose next Burn tick carries Might.
pub open spec fn burn_lines(p0: Seq<Actor>, p1: Seq<Actor>, n: int) -> Seq<Seq<char>>
    decreases n,
{
    if n <= 0 {
        seq![]
    } else {
        let m = n - 1;
        let a = p0[m];
        burn_lines(p0, p1, m) + if !actor_down(a) && first_burn(a.tokens@) < a.tokens@.len() && burn_power(a) > 0 {
            seq![hit_line("burn"@, a, p1[m], burn_power(a))]
        } else {
            seq![]
        }
    }
}

proof fn lemma_burn_lines_frame(p0: Seq<Actor>, p1: Seq<Actor>, p2: Seq<Actor>, n: int)
    requires
        forall|q: int| 0 <= q < n ==> p1[q] == p2[q],
    ensures
        burn_lines(p0, p1, n) == burn_lines(p0, p2, n),
    decreases n,
{
    if n > 0 {
        lemma_burn_lines_frame(p0, p1, p2, n - 1);
    }
}

/// **Burn** tick: at the Reckoning, **one** Burn stack on each living member of `pool` deals its
/// Might into that bearer's pile, then that stack is removed (a `stacks`-deep Burn burns for `stacks`
/// Reckonings).
pub fn tick_burn(pool: &mut [Actor], log: &mut Vec<String>)
    requires
        forall|i: int| 0 <= i < old(pool)@.len() ==> burn_ok(#[trigger] old(pool)@[i]),
    ensures
        ticked(old(pool)@, final(pool)@),
        logged(old(log)@, final(log)@, burn_lines(old(pool)@, final(pool)@, old(pool)@.len() as int)),
{
    let ghost p0 = pool@;
    proof {
        lemma_logged_refl(old(log)@);
    }
    let mut i: usize = 0;
    while i < pool.len()
        invariant
            i <= pool@.len() == p0.len(),
            p0 == old(pool)@,
            forall|j: int| 0 <= j < p0.len() ==> burn_ok(#[trigger] p0[j]),
            forall|j: int| 0 <= j < i ==> burned(p0[j], #[trigger] pool@[j]),
            forall|j: int| i <= j < p0.len() ==> #[trigger] pool@[j] == p0[j],
            logged(old(log)@, log@, burn_lines(p0, pool@, i as int)),
        decreases pool.len() - i,
    {
        let ghost a = p0[i as int];
        let ghost before = pool@;
        let ghost l0 = log@;
        assert(burn_ok(a));
        if !pool[i].is_down() {
            assert(pool@[i as int] == a);
            let r = drop_first_burn(&mut pool[i]);
            let ghost a2 = pool@[i as int];
            if let Some(power) = r {
                assert(first_burn(a.tokens@) < a.tokens@.len());
                proof {
                    lemma_first_burn(a.tokens@);
                    let p = first_burn(a.tokens@);
                    lemma_token_total_remove(a.tokens@, p, Tally::Guard);
                    lemma_token_total_remove(a.tokens@, p, Tally::Mark);
                    lemma_token_total_remove(a.tokens@, p, Tally::Mire);
                    lemma_token_total_remove(a.tokens@, p, Tally::Sunder);
                    lemma_token_total_remove(a.tokens@, p, Tally::Defang);
                    lemma_token_total_remove(a.tokens@, p, Tally::Thorns);
                    assert(eff_toughness_of(a2) == eff_toughness_of(a));
                }
                if power > 0 {
                    apply_strike(&mut pool[i], Strike { raw: power }, "burn", log);
                    proof {
                        assert(wall_of(a2) == wall_of(a));
                        assert(hit_line("burn"@, a2, pool@[i as int], power) == hit_line(
                            "burn"@,
                            a,
                            pool@[i as int],
                            power,
                        ));
                        lemma_logged_trans(
                            old(log)@,
                            l0,
                            log@,
                            burn_lines(p0, before, i as int),
                            seq![hit_line("burn"@, a, pool@[i as int], power)],
                        );
                    }
                }
                assert(burned(a, pool@[i as int]));
            }
        }
        proof {
            lemma_burn_lines_frame(p0, before, pool@, i as int);
            assert(burn_lines(p0, pool@, i + 1) == burn_lines(p0, pool@, i as int) + if !actor_down(a)
                && first_burn(a.tokens@) < a.tokens@.len() && burn_power(a) > 0 {
                seq![hit_line("burn"@, a, pool@[i as int], burn_power(a))]
            } else {
                seq![]
            });
            if !(!actor_down(a) && first_burn(a.tokens@) < a.tokens@.len() && burn_power(a) > 0) {
                assert(burn_lines(p0, pool@, i + 1) =~= burn_lines(p0, pool@, i as int));
            }
        }
        i = i + 1;
    }
}

// ---------------------------------------------------------------------------------------------
// The Reckoning.
// ---------------------------------------------------------------------------------------------

/// The effects of the held spells whose caster stands on heroes/foes `h`/`f`, in order — the only
/// spells that can land.
pub open spec fn spell_effects(ds: Seq<Deferred>, h: Seq<Actor>, f: Seq<Actor>) -> Seq<Effect>
    decreases ds.len(),
{
    if ds.len() == 0 {
        seq![]
    } else {
        (if caster_alive(ds[0], h, f) {
            ds[0].card.effects@
        } else {
            seq![]
        }) + spell_effects(ds.drop_first(), h, f)
    }
}

/// The greatest caster Might among the held spells whose caster stands on `h`/`f`.
pub open spec fn spell_bound(ds: Seq<Deferred>, h: Seq<Actor>, f: Seq<Actor>) -> u32
    decreases ds.len(),
{
    if ds.len() == 0 {
        0
    } else {
        let rest = spell_bound(ds.drop_first(), h, f);
        if caster_alive(ds[0], h, f) && ds[0].offense.might >= rest {
            ds[0].offense.might
        } else {
            rest
        }
    }
}

/// A held spell's caster still stands when the Reckoning comes.
pub open spec fn caster_alive(d: Deferred, h: Seq<Actor>, f: Seq<Actor>) -> bool {
    let pool = if d.side == 0 {
        h
    } else {
        f
    };
    &&& d.caster < pool.len()
    &&& !pool[d.caster as int].fallen
    &&& !actor_down(pool[d.caster as int])
}

/// The narration of a held spell dropped because its caster fell.
pub open spec fn dropped_line(caster: Seq<char>, card: Seq<char>) -> Seq<char> {
    caster + "'s held "@ + card + " is dropped — its caster fell before the Reckoning (disrupted)."@
}

/// The narration of a held spell that releases.
pub open spec fn released_line(caster: Seq<char>, card: Seq<char>) -> Seq<char> {
    caster + "'s held "@ + card + " releases."@
}

/// One held spell at the Reckoning, narrated by `lines`: it fizzles (nothing changes) if its caster
/// fell; otherwise it releases and its card is played by its caster against the other side.
pub open spec fn spell_step(
    d: Deferred,
    h0: Seq<Actor>,
    f0: Seq<Actor>,
    h1: Seq<Actor>,
    f1: Seq<Actor>,
    lines: Seq<Seq<char>>,
) -> bool {
    if !caster_alive(d, h0, f0) {
        h1 == h0 && f1 == f0 && lines == seq![dropped_line(d.name@, d.card.name@)]
    } else {
        &&& lines.len() >= 2
        &&& lines[0] == released_line(d.name@, d.card.name@)
        &&& lines[1] == plays_line(d.name@, d.card.name@)
        &&& if d.side == 0 {
            card_played(d.card.effects@, reach_of(d.card), d.offense.might, Some(d.caster), d.name@, f0, h0, f1, h1, lines.skip(2))
        } else {
            card_played(d.card.effects@, reach_of(d.card), d.offense.might, Some(d.caster), d.name@, h0, f0, h1, f1, lines.skip(2))
        }
    }
}

/// The narration runs `ls`, one after another.
pub open spec fn joined(ls: Seq<Seq<Seq<char>>>) -> Seq<Seq<char>>
    decreases ls.len(),
{
    if ls.len() == 0 {
        seq![]
    } else {
        joined(ls.drop_last()) + ls.last()
    }
}

/// The Reckoning takes heroes/foes `h0`/`f0` to `h1`/`f1`, narrated by `lines`: Burn ticks on both
/// sides, then each held spell in order.
pub open spec fn reckoned(
    ds: Seq<Deferred>,
    h0: Seq<Actor>,
    f0: Seq<Actor>,
    h1: Seq<Actor>,
    f1: Seq<Actor>,
    lines: Seq<Seq<char>>,
) -> bool {
    exists|hs: Seq<Seq<Actor>>, fs: Seq<Seq<Actor>>, ls: Seq<Seq<Seq<char>>>|
        {
            &&& hs.len() == ds.len() + 1
            &&& fs.len() == ds.len() + 1
            &&& ls.len() == ds.len()
            &&& ticked(h0, hs[0])
            &&& ticked(f0, fs[0])
            &&& forall|k: int|
                0 <= k < ds.len() ==> spell_step(#[trigger] ds[k], hs[k], fs[k], hs[k + 1], fs[k + 1], ls[k])
            &&& hs.last() == h1
            &&& fs.last() == f1
            &&& lines == burn_lines(h0, hs[0], h0.len() as int) + burn_lines(f0, fs[0], f0.len() as int) + joined(ls)
        }
}

/// No body of the pool carries a Burn token.
pub open spec fn burn_free(p: Seq<Actor>) -> bool {
    forall|i: int, j: int| 0 <= i < p.len() && 0 <= j < p[i].tokens@.len() ==> !(#[trigger] p[i].tokens@[j] is Burn)
}

proof fn lemma_burn_free_ticks(p0: Seq<Actor>, p1: Seq<Actor>)
    requires
        burn_free(p0),
        ticked(p0, p1),
    ensures
        p1 == p0,
        burn_lines(p0, p1, p0.len() as int) == Seq::<Seq<char>>::empty(),
{
    assert forall|i: int| 0 <= i < p0.len() implies first_burn(#[trigger] p0[i].tokens@) >= p0[i].tokens@.len() by {
        lemma_first_burn(p0[i].tokens@);
        if first_burn(p0[i].tokens@) < p0[i].tokens@.len() {
            assert(p0[i].tokens@[first_burn(p0[i].tokens@)] is Burn);
        }
    }
    assert forall|i: int| 0 <= i < p0.len() implies #[trigger] p1[i] == p0[i] by {
        assert(burned(p0[i], p1[i]));
    }
    assert(p1 =~= p0);
    lemma_burn_lines_none(p0, p1, p0.len() as int);
}

proof fn lemma_burn_lines_none(p0: Seq<Actor>, p1: Seq<Actor>, n: int)
    requires
        n <= p0.len(),
        forall|i: int| 0 <= i < p0.len() ==> first_burn(#[trigger] p0[i].tokens@) >= p0[i].tokens@.len(),
    ensures
        burn_lines(p0, p1, n) == Seq::<Seq<char>>::empty(),
    decreases n,
{
    if n > 0 {
        lemma_burn_lines_none(p0, p1, n - 1);
        assert(first_burn(p0[n - 1].tokens@) >= p0[n - 1].tokens@.len());
        assert(burn_lines(p0, p1, n) =~= Seq::<Seq<char>>::empty());
    }
}

proof fn lemma_fizzle_prefix(
    ds: Seq<Deferred>,
    h0: Seq<Actor>,
    f0: Seq<Actor>,
    hs: Seq<Seq<Actor>>,
    fs: Seq<Seq<Actor>>,
    ls: Seq<Seq<Seq<char>>>,
    k: int,
)
    requires
        0 <= k <= ds.len(),
        hs.len() == ds.len() + 1,
        fs.len() == ds.len() + 1,
        ls.len() == ds.len(),
        hs[0] == h0,
        fs[0] == f0,
        forall|q: int| 0 <= q < ds.len() ==> spell_step(#[trigger] ds[q], hs[q], fs[q], hs[q + 1], fs[q + 1], ls[q]),
        forall|q: int| 0 <= q < ds.len() ==> !caster_alive(#[trigger] ds[q], h0, f0),
    ensures
        hs[k] == h0,
        fs[k] == f0,
        joined(ls.take(k)) == Seq::new(k as nat, |q: int| dropped_line(ds[q].name@, ds[q].card.name@)),
    decreases k,
{
    if k > 0 {
        lemma_fizzle_prefix(ds, h0, f0, hs, fs, ls, k - 1);
        assert(spell_step(ds[k - 1], hs[k - 1], fs[k - 1], hs[k], fs[k], ls[k - 1]));
        assert(!caster_alive(ds[k - 1], h0, f0));
        assert(ls.take(k).drop_last() =~= ls.take(k - 1));
        assert(ls.take(k).last() == ls[k - 1]);
        assert(joined(ls.take(k)) =~= Seq::new(k as nat, |q: int| dropped_line(ds[q].name@, ds[q].card.name@)));
    }
}

/// **A Reckoning with every caster fallen fizzles**: when no body carries Burn and no held spell's
/// caster still stands, both pools come out exactly as they went in and the narration is one
/// "dropped" line per held spell, in order.
pub proof fn law_dead_casters_fizzle(
    ds: Seq<Deferred>,
    h0: Seq<Actor>,
    f0: Seq<Actor>,
    h1: Seq<Actor>,
    f1: Seq<Actor>,
    lines: Seq<Seq<char>>,
)
    requires
        reckoned(ds, h0, f0, h1, f1, lines),
        burn_free(h0),
        burn_free(f0),
        forall|k: int| 0 <= k < ds.len() ==> !caster_alive(#[trigger] ds[k], h0, f0),
    ensures
        h1 == h0,
        f1 == f0,
        lines == Seq::new(ds.len(), |q: int| dropped_line(ds[q].name@, ds[q].card.name@)),
{
    let (hs, fs, ls) = choose|hs: Seq<Seq<Actor>>, fs: Seq<Seq<Actor>>, ls: Seq<Seq<Seq<char>>>|
        {
            &&& hs.len() == ds.len() + 1
            &&& fs.len() == ds.len() + 1
            &&& ls.len() == ds.len()
            &&& ticked(h0, hs[0])
            &&& ticked(f0, fs[0])
            &&& forall|k: int|
                0 <= k < ds.len() ==> spell_step(#[trigger] ds[k], hs[k], fs[k], hs[k + 1], fs[k + 1], ls[k])
            &&& hs.last() == h1
            &&& fs.last() == f1
            &&& lines == burn_lines(h0, hs[0], h0.len() as int) + burn_lines(f0, fs[0], f0.len() as int) + joined(ls)
        };
    lemma_burn_free_ticks(h0, hs[0]);
    lemma_burn_free_ticks(f0, fs[0]);
    lemma_fizzle_prefix(ds, h0, f0, hs, fs, ls, ds.len() as int);
    assert(ls.take(ds.len() as int) =~= ls);
    assert(lines =~= joined(ls));
}

/// A body can take its Burn tick and then everything the held spells can do to it.
pub open spec fn reckon_ok(a: Actor, es: Seq<Effect>, bound: u32) -> bool {
    &&& fits_load(a, es, bound)
    &&& (!actor_down(a) ==> a.defense.health_pile + burn_power(a) + load(es, bound, Load::Damage) <= u32::MAX)
}

proof fn lemma_spell_bound(ds: Seq<Deferred>, h: Seq<Actor>, f: Seq<Actor>, k: int)
    requires
        0 <= k < ds.len(),
        caster_alive(ds[k], h, f),
    ensures
        ds[k].offense.might <= spell_bound(ds, h, f),
    decreases ds.len(),
{
    if k > 0 {
        lemma_spell_bound(ds.drop_first(), h, f, k - 1);
    }
}

proof fn lemma_spell_effects_skip(ds: Seq<Deferred>, h: Seq<Actor>, f: Seq<Actor>, k: int)
    requires
        0 <= k < ds.len(),
    ensures
        spell_effects(ds.skip(k), h, f) == (if caster_alive(ds[k], h, f) {
            ds[k].card.effects@
        } else {
            seq![]
        }) + spell_effects(ds.skip(k + 1), h, f),
{
    assert(ds.skip(k).drop_first() =~= ds.skip(k + 1));
    assert(ds.skip(k)[0] == ds[k]);
}

/// A Burn tick revives nobody.
proof fn lemma_ticked_dead_kept(p0: Seq<Actor>, p1: Seq<Actor>)
    requires
        ticked(p0, p1),
    ensures
        dead_kept(p0, p1),
{
    assert forall|j: int| 0 <= j < p0.len() implies (p0[j].fallen ==> (#[trigger] p1[j]).fallen) && (actor_down(p0[j])
        ==> actor_down(p1[j])) by {
        assert(burned(p0[j], p1[j]));
    }
}

proof fn lemma_played_dead_kept(
    es: Seq<Effect>,
    n: nat,
    might: u32,
    me: Option<usize>,
    fs: Seq<Seq<Actor>>,
    als: Seq<Seq<Actor>>,
    k: int,
)
    requires
        played(es, n, might, me, fs, als),
        0 <= k <= es.len(),
        fs[0].len() <= usize::MAX,
        als[0].len() <= usize::MAX,
    ensures
        dead_kept(fs[0], fs[k]),
        dead_kept(als[0], als[k]),
    decreases k,
{
    if k == 0 {
        lemma_dead_kept_refl(fs[0]);
        lemma_dead_kept_refl(als[0]);
    } else {
        lemma_played_dead_kept(es, n, might, me, fs, als, k - 1);
        assert(effect_rel(es[k - 1], n, might, me, fs[k - 1], als[k - 1], fs[k], als[k]));
        lemma_effect_dead_kept(es[k - 1], n, might, me, fs[k - 1], als[k - 1], fs[k], als[k]);
        lemma_dead_kept_trans(fs[0], fs[k - 1], fs[k]);
        lemma_dead_kept_trans(als[0], als[k - 1], als[k]);
    }
}

/// A played card revives nobody, on either side.
proof fn lemma_card_played_dead_kept(
    es: Seq<Effect>,
    n: nat,
    might: u32,
    me: Option<usize>,
    name: Seq<char>,
    f0: Seq<Actor>,
    a0: Seq<Actor>,
    f1: Seq<Actor>,
    a1: Seq<Actor>,
    lines: Seq<Seq<char>>,
)
    requires
        card_played(es, n, might, me, name, f0, a0, f1, a1, lines),
        f0.len() <= usize::MAX,
        a0.len() <= usize::MAX,
    ensures
        dead_kept(f0, f1),
        dead_kept(a0, a1),
{
    let (fs, als) = choose|fs: Seq<Seq<Actor>>, als: Seq<Seq<Actor>>|
        {
            &&& played(es, n, might, me, fs, als)
            &&& fs[0] == f0
            &&& als[0] == a0
            &&& fs.last() == f1
            &&& als.last() == a1
            &&& lines == played_lines(es, n, might, me, name, fs, als, es.len() as int)
        };
    lemma_played_dead_kept(es, n, might, me, fs, als, es.len() as int);
}

proof fn lemma_load_concat(x: Seq<Effect>, y: Seq<Effect>, m: u32, k: Load)
    ensures
        load(x + y, m, k) == load(x, m, k) + load(y, m, k),
    decreases x.len(),
{
    if x.len() > 0 {
        lemma_load_concat(x.drop_first(), y, m, k);
        assert((x + y).drop_first() =~= x.drop_first() + y);
        assert((x + y)[0] == x[0]);
    } else {
        assert(x + y =~= y);
    }
}

proof fn lemma_pool_fits_suffix(p: Seq<Actor>, x: Seq<Effect>, y: Seq<Effect>, m: u32)
    requires
        pool_fits(p, x + y, m),
    ensures
        pool_fits(p, y, m),
{
    lemma_load_concat(x, y, m, Load::TempoUp);
    lemma_load_concat(x, y, m, Load::TempoDown);
    lemma_load_concat(x, y, m, Load::Empower);
    lemma_load_concat(x, y, m, Load::Mark);
    lemma_load_concat(x, y, m, Load::Mire);
    lemma_load_concat(x, y, m, Load::Sunder);
    lemma_load_concat(x, y, m, Load::Defang);
    lemma_load_concat(x, y, m, Load::Brace);
    lemma_load_concat(x, y, m, Load::Thorns);
    lemma_load_concat(x, y, m, Load::Damage);
    assert forall|j: int| 0 <= j < p.len() implies fits_load(#[trigger] p[j], y, m) by {
        assert(fits_load(p[j], x + y, m));
    }
}

/// A Burn tick keeps a body within the held spells' budget.
proof fn lemma_tick_keeps_fit(p0: Seq<Actor>, p1: Seq<Actor>, es: Seq<Effect>, m: u32)
    requires
        forall|j: int| 0 <= j < p0.len() ==> reckon_ok(#[trigger] p0[j], es, m),
        ticked(p0, p1),
    ensures
        pool_fits(p1, es, m),
{
    assert forall|j: int| 0 <= j < p1.len() implies fits_load(#[trigger] p1[j], es, m) by {
        let a = p0[j];
        let b = p1[j];
        assert(reckon_ok(a, es, m));
        assert(burned(a, b));
        let p = first_burn(a.tokens@);
        if !actor_down(a) && p < a.tokens@.len() {
            lemma_first_burn(a.tokens@);
            let a2 = choose|a2: Actor|
                {
                    &&& a2 == Actor { tokens: a2.tokens, ..a }
                    &&& a2.tokens@ == a.tokens@.remove(p)
                    &&& if burn_power(a) > 0 {
                        struck(a2, b, burn_power(a))
                    } else {
                        b == a2
                    }
                };
            lemma_token_total_remove(a.tokens@, p, Tally::Guard);
            lemma_token_total_remove(a.tokens@, p, Tally::Mark);
            lemma_token_total_remove(a.tokens@, p, Tally::Mire);
            lemma_token_total_remove(a.tokens@, p, Tally::Sunder);
            lemma_token_total_remove(a.tokens@, p, Tally::Defang);
            lemma_token_total_remove(a.tokens@, p, Tally::Thorns);
            assert(fits_load(a2, es, m));
            if burn_power(a) > 0 {
                let total = a2.defense.health_pile + burn_power(a);
                let bar = crate::stats::floor1(wall_of(a2));
                let k = flips_for(total, bar as int, count_up(a2.defense.health@));
                assert(k * bar >= 0) by (nonlinear_arith)
                    requires
                        k >= 0,
                        bar >= 1,
                ;
                crate::effects::lemma_flips_keep_wall(
                    a2.defense.health@,
                    k,
                    token_total(a2.tokens@, Tally::Guard) + load(es, m, Load::Brace),
                );
            }
        }
    }
}

/// A body within the held spells' budget can take its Burn tick.
proof fn lemma_reckon_burn_ok(a: Actor, es: Seq<Effect>, m: u32)
    requires
        reckon_ok(a, es, m),
    ensures
        burn_ok(a),
{
    crate::effects::lemma_wall_fits(a, token_total(a.tokens@, Tally::Guard) + load(es, m, Load::Brace));
}

/// Resolve the **Reckoning**: Burn ticks on both sides first, then each held spell lands **iff its
/// caster is still alive** (a caster killed before now disrupts it — the spell is dropped). A landing
/// spell is played through [`play_card`] by its caster against the other side.
#[verifier::spinoff_prover]
pub fn resolve_reckoning(heroes: &mut [Actor], foes: &mut [Actor], deferred: &[Deferred], log: &mut Vec<String>)
    requires
        forall|k: int|
            0 <= k < deferred@.len() && caster_alive(#[trigger] deferred@[k], old(heroes)@, old(foes)@) ==> card_in_range(
                deferred@[k].card.effects@,
                deferred@[k].offense.might,
            ),
        forall|j: int|
            0 <= j < old(heroes)@.len() ==> reckon_ok(
                #[trigger] old(heroes)@[j],
                spell_effects(deferred@, old(heroes)@, old(foes)@),
                spell_bound(deferred@, old(heroes)@, old(foes)@),
            ),
        forall|j: int|
            0 <= j < old(foes)@.len() ==> reckon_ok(
                #[trigger] old(foes)@[j],
                spell_effects(deferred@, old(heroes)@, old(foes)@),
                spell_bound(deferred@, old(heroes)@, old(foes)@),
            ),
    ensures
        exists|lines: Seq<Seq<char>>|
            #[trigger] reckoned(deferred@, old(heroes)@, old(foes)@, final(heroes)@, final(foes)@, lines) && logged(
                old(log)@,
                final(log)@,
                lines,
            ),
{
    let ghost ds = deferred@;
    let ghost h_in = heroes@;
    let ghost f_in = foes@;
    let ghost es = spell_effects(ds, h_in, f_in);
    let ghost m = spell_bound(ds, h_in, f_in);
    proof {
        assert forall|j: int| 0 <= j < heroes@.len() implies burn_ok(#[trigger] heroes@[j]) by {
            lemma_reckon_burn_ok(heroes@[j], es, m);
        }
        assert forall|j: int| 0 <= j < foes@.len() implies burn_ok(#[trigger] foes@[j]) by {
            lemma_reckon_burn_ok(foes@[j], es, m);
        }
    }
    let ghost g0 = log@;
    tick_burn(heroes, log);
    let ghost g1 = log@;
    tick_burn(foes, log);
    let ghost burns = burn_lines(h_in, heroes@, h_in.len() as int) + burn_lines(f_in, foes@, f_in.len() as int);
    proof {
        lemma_tick_keeps_fit(h_in, heroes@, es, m);
        lemma_tick_keeps_fit(f_in, foes@, es, m);
        lemma_ticked_dead_kept(h_in, heroes@);
        lemma_ticked_dead_kept(f_in, foes@);
        lemma_logged_trans(g0, g1, log@, burn_lines(h_in, heroes@, h_in.len() as int), burn_lines(f_in, foes@, f_in.len() as int));
    }
    let ghost mut hs: Seq<Seq<Actor>> = seq![heroes@];
    let ghost mut fs: Seq<Seq<Actor>> = seq![foes@];
    let ghost mut ls: Seq<Seq<Seq<char>>> = seq![];
    let mut k: usize = 0;
    assert(ds.skip(0) =~= ds);
    while k < deferred.len()
        invariant
            ds == deferred@,
            es == spell_effects(ds, h_in, f_in),
            m == spell_bound(ds, h_in, f_in),
            k <= ds.len(),
            forall|q: int|
                0 <= q < ds.len() && caster_alive(#[trigger] ds[q], h_in, f_in) ==> card_in_range(
                    ds[q].card.effects@,
                    ds[q].offense.might,
                ),
            pool_fits(heroes@, spell_effects(ds.skip(k as int), h_in, f_in), m),
            pool_fits(foes@, spell_effects(ds.skip(k as int), h_in, f_in), m),
            dead_kept(h_in, heroes@),
            dead_kept(f_in, foes@),
            hs.len() == k + 1,
            fs.len() == k + 1,
            ticked(h_in, hs[0]),
            ticked(f_in, fs[0]),
            h_in == old(heroes)@,
            f_in == old(foes)@,
            hs.last() == heroes@,
            fs.last() == foes@,
            ls.len() == k,
            forall|q: int| 0 <= q < k ==> spell_step(#[trigger] ds[q], hs[q], fs[q], hs[q + 1], fs[q + 1], ls[q]),
            burns == burn_lines(h_in, hs[0], h_in.len() as int) + burn_lines(f_in, fs[0], f_in.len() as int),
            logged(old(log)@, log@, burns + joined(ls)),
        decreases ds.len() - k,
    {
        let d = &deferred[k];
        let ghost l0 = log@;
        let ghost hk = heroes@;
        let ghost fk = foes@;
        let ghost live0 = caster_alive(ds[k as int], h_in, f_in);
        proof {
            lemma_spell_effects_skip(ds, h_in, f_in, k as int);
            if live0 {
                lemma_spell_bound(ds, h_in, f_in, k as int);
            }
        }
        let ghost rest = spell_effects(ds.skip(k + 1), h_in, f_in);
        let alive = if d.side == 0 {
            d.caster < heroes.len() && !heroes[d.caster].fallen && !heroes[d.caster].is_down()
        } else {
            d.caster < foes.len() && !foes[d.caster].fallen && !foes[d.caster].is_down()
        };
        proof {
            assert(alive == caster_alive(ds[k as int], hk, fk));
            if !live0 {
                assert(!alive) by {
                    let p0 = if ds[k as int].side == 0 { h_in } else { f_in };
                    let p1 = if ds[k as int].side == 0 { hk } else { fk };
                    assert(dead_kept(p0, p1));
                    if ds[k as int].caster < p0.len() {
                        assert(p0[ds[k as int].caster as int].fallen ==> p1[ds[k as int].caster as int].fallen);
                    }
                }
                assert(spell_effects(ds.skip(k as int), h_in, f_in) =~= rest);
            }
        }
        let mut line = String::from_str(d.name.as_str());
        line.append("'s held ");
        line.append(d.card.name.as_str());
    let ghost mut step_lines: Seq<Seq<char>> = seq![];
        if !alive {
            line.append(" is dropped — its caster fell before the Reckoning (disrupted).");
            log.push(line);
            proof {
                if live0 {
                    lemma_pool_fits_suffix(heroes@, d.card.effects@, rest, m);
                    lemma_pool_fits_suffix(foes@, d.card.effects@, rest, m);
                }
                step_lines = seq![dropped_line(d.name@, d.card.name@)];
                assert(logged(l0, log@, step_lines));
            }
        } else {
            line.append(" releases.");
            log.push(line);
            let ghost l1 = log@;
            if d.side == 0 {
                play_within(&d.card, d.name.as_str(), d.offense, foes, heroes, Some(d.caster), log, Ghost(rest), Ghost(m));
                proof {
                    let pl = choose|pl: Seq<Seq<char>>|
                        #[trigger] card_played(
                            d.card.effects@,
                            reach_of(d.card),
                            d.offense.might,
                            Some(d.caster),
                            d.name@,
                            fk,
                            hk,
                            foes@,
                            heroes@,
                            pl,
                        ) && logged(l1, log@, seq![plays_line(d.name@, d.card.name@)] + pl);
                    lemma_card_played_dead_kept(
                        d.card.effects@,
                        reach_of(d.card),
                        d.offense.might,
                        Some(d.caster),
                        d.name@,
                        fk,
                        hk,
                        foes@,
                        heroes@,
                        pl,
                    );
                    lemma_dead_kept_trans(h_in, hk, heroes@);
                    lemma_dead_kept_trans(f_in, fk, foes@);
                    let head = seq![released_line(d.name@, d.card.name@)];
                    lemma_logged_trans(l0, l1, log@, head, seq![plays_line(d.name@, d.card.name@)] + pl);
                    step_lines = head + (seq![plays_line(d.name@, d.card.name@)] + pl);
                    assert(step_lines.skip(2) =~= pl);
                }
            } else {
                play_within(&d.card, d.name.as_str(), d.offense, heroes, foes, Some(d.caster), log, Ghost(rest), Ghost(m));
                proof {
                    let pl = choose|pl: Seq<Seq<char>>|
                        #[trigger] card_played(
                            d.card.effects@,
                            reach_of(d.card),
                            d.offense.might,
                            Some(d.caster),
                            d.name@,
                            hk,
                            fk,
                            heroes@,
                            foes@,
                            pl,
                        ) && logged(l1, log@, seq![plays_line(d.name@, d.card.name@)] + pl);
                    lemma_card_played_dead_kept(
                        d.card.effects@,
                        reach_of(d.card),
                        d.offense.might,
                        Some(d.caster),
                        d.name@,
                        hk,
                        fk,
                        heroes@,
                        foes@,
                        pl,
                    );
                    lemma_dead_kept_trans(h_in, hk, heroes@);
                    lemma_dead_kept_trans(f_in, fk, foes@);
                    let head = seq![released_line(d.name@, d.card.name@)];
                    lemma_logged_trans(l0, l1, log@, head, seq![plays_line(d.name@, d.card.name@)] + pl);
                    step_lines = head + (seq![plays_line(d.name@, d.card.name@)] + pl);
                    assert(step_lines.skip(2) =~= pl);
                }
            }
        }
        proof {
            assert(spell_step(ds[k as int], hk, fk, heroes@, foes@, step_lines));
            lemma_logged_trans(old(log)@, l0, log@, burns + joined(ls), step_lines);
            let ls0 = ls;
            hs = hs.push(heroes@);
            fs = fs.push(foes@);
            ls = ls.push(step_lines);
            assert(ls.drop_last() =~= ls0);
            assert(burns + joined(ls0) + step_lines =~= burns + joined(ls));
            assert(ds.skip(k as int).drop_first() =~= ds.skip(k + 1));
        }
        k = k + 1;
    }
    proof {
        assert(reckoned(ds, h_in, f_in, heroes@, foes@, burns + joined(ls)));
    }
}

// ---------------------------------------------------------------------------------------------
// The bounds a resolving round keeps.
// ---------------------------------------------------------------------------------------------

/// The cap on every stat, token tally and Tempo pool a resolving round reads.
pub open spec fn stat_cap() -> int {
    0x10_0000
}

/// The cap on a standing body's per-engagement pile.
pub open spec fn pile_cap() -> int {
    0x40_0000
}

/// How far Tempo can run into debt (every evade in one cycle paid from one pool).
pub open spec fn tempo_floor() -> int {
    -0x2000_0000
}

/// The largest pool the resolver handles.
pub open spec fn pool_cap() -> int {
    256
}

/// A body whose numbers all sit within the resolver's caps.
pub open spec fn sane(a: Actor) -> bool {
    &&& token_total(a.tokens@, Tally::Guard) <= stat_cap()
    &&& token_total(a.tokens@, Tally::Mark) <= stat_cap()
    &&& token_total(a.tokens@, Tally::Mire) <= stat_cap()
    &&& token_total(a.tokens@, Tally::Sunder) <= stat_cap()
    &&& token_total(a.tokens@, Tally::Defang) <= stat_cap()
    &&& token_total(a.tokens@, Tally::Thorns) <= stat_cap()
    &&& a.offense.might <= stat_cap()
    &&& weapon_power(a) <= stat_cap()
    &&& a.might_bonus <= stat_cap()
    &&& a.offense.finesse <= stat_cap()
    &&& forall|i: int| 0 <= i < a.defense.health@.len() ==> (#[trigger] a.defense.health@[i]).toughness <= stat_cap()
    &&& tempo_floor() <= a.tempo <= stat_cap()
    &&& !actor_down(a) ==> a.defense.health_pile <= pile_cap()
}

/// Is body `a` within the resolver's caps ([`sane`])? Reads every number without overflowing.
pub fn body_sane(a: &Actor) -> (b: bool)
    ensures
        b == sane(*a),
{
    let cap: u32 = 0x10_0000;
    let mut i: usize = 0;
    while i < a.defense.health.cards.len()
        invariant
            i <= a.defense.health@.len(),
            cap == 0x10_0000,
            forall|j: int| 0 <= j < i ==> (#[trigger] a.defense.health@[j]).toughness <= stat_cap(),
        decreases a.defense.health.cards.len() - i,
    {
        if a.defense.health.cards[i].toughness > cap {
            return false;
        }
        i = i + 1;
    }
    if !(a.tally_at_most(Tally::Guard, cap) && a.tally_at_most(Tally::Mark, cap) && a.tally_at_most(Tally::Mire, cap)
        && a.tally_at_most(Tally::Sunder, cap) && a.tally_at_most(Tally::Defang, cap) && a.tally_at_most(
        Tally::Thorns,
        cap,
    )) {
        return false;
    }
    if a.offense.might > cap || a.might_bonus > cap || a.offense.finesse > cap {
        return false;
    }
    match a.weapon.primary_damage() {
        Some(p) => {
            if p > cap {
                return false;
            }
        },
        None => {},
    }
    if a.tempo < -0x2000_0000 || a.tempo > 0x10_0000 {
        return false;
    }
    if !a.is_down() && a.defense.health_pile > 0x40_0000 {
        return false;
    }
    true
}

/// Is every body of the pool within the resolver's caps?
pub fn pool_sane(p: &Vec<Actor>) -> (b: bool)
    ensures
        b == all_sane(p@),
{
    let mut i: usize = 0;
    while i < p.len()
        invariant
            i <= p@.len(),
            forall|j: int| 0 <= j < i ==> sane(#[trigger] p@[j]),
        decreases p.len() - i,
    {
        if !body_sane(&p[i]) {
            return false;
        }
        i = i + 1;
    }
    true
}

/// Every body of a pool is sane.
pub open spec fn all_sane(p: Seq<Actor>) -> bool {
    forall|i: int| 0 <= i < p.len() ==> sane(#[trigger] p[i])
}

/// Two decks with the same cards' walls (facing aside).
pub open spec fn same_walls(s: Seq<HealthCard>, t: Seq<HealthCard>) -> bool {
    &&& t.len() == s.len()
    &&& forall|i: int| 0 <= i < s.len() ==> (#[trigger] t[i]).toughness == s[i].toughness
}

/// `b` is `a` after blows and Tempo spends within an engagement: only its defense and Tempo moved,
/// its cards only turned face down, its Tempo did not grow (a debt may be forgiven to 0), and it is
/// still within the caps.
pub open spec fn engaged(a: Actor, b: Actor) -> bool {
    &&& b == Actor { defense: b.defense, tempo: b.tempo, ..a }
    &&& same_walls(a.defense.health@, b.defense.health@)
    &&& count_up(b.defense.health@) <= count_up(a.defense.health@)
    &&& b.tempo <= (if a.tempo > 0 { a.tempo } else { 0 })
    &&& sane(b)
}

/// Every body of `p1` is its body of `p0`, engaged.
pub open spec fn pool_engaged(p0: Seq<Actor>, p1: Seq<Actor>) -> bool {
    &&& p1.len() == p0.len()
    &&& forall|i: int| 0 <= i < p0.len() ==> engaged(p0[i], #[trigger] p1[i])
}

/// A sane body is engaged with itself.
pub proof fn lemma_engaged_refl(a: Actor)
    requires
        sane(a),
    ensures
        engaged(a, a),
{
}

/// Engagement composes.
pub proof fn lemma_engaged_trans(a: Actor, b: Actor, c: Actor)
    requires
        engaged(a, b),
        engaged(b, c),
    ensures
        engaged(a, c),
{
}

/// A sane pool is engaged with itself.
pub proof fn lemma_pool_engaged_refl(p: Seq<Actor>)
    requires
        all_sane(p),
    ensures
        pool_engaged(p, p),
{
    assert forall|i: int| 0 <= i < p.len() implies engaged(p[i], #[trigger] p[i]) by {
        assert(sane(p[i]));
    }
}

/// Pool engagement composes.
pub proof fn lemma_pool_engaged_trans(p0: Seq<Actor>, p1: Seq<Actor>, p2: Seq<Actor>)
    requires
        pool_engaged(p0, p1),
        pool_engaged(p1, p2),
    ensures
        pool_engaged(p0, p2),
{
    assert forall|i: int| 0 <= i < p0.len() implies engaged(p0[i], #[trigger] p2[i]) by {
        lemma_engaged_trans(p0[i], p1[i], p2[i]);
    }
}

/// An engaged pool stays within the caps.
pub proof fn lemma_pool_engaged_sane(p0: Seq<Actor>, p1: Seq<Actor>)
    requires
        pool_engaged(p0, p1),
    ensures
        all_sane(p1),
{
    assert forall|i: int| 0 <= i < p1.len() implies sane(#[trigger] p1[i]) by {
        assert(engaged(p0[i], p1[i]));
    }
}

/// A sane body's numbers fit every strike and wall computation.
pub proof fn lemma_sane_fits(a: Actor)
    requires
        sane(a),
    ensures
        tokens_fit(a.tokens@),
        actor_fits(a),
        base_strike_of(a) <= 3 * stat_cap(),
        eff_toughness_of(a) <= stat_cap() + 1,
        wall_of(a) <= 2 * stat_cap() + 1,
        eff_finesse_of(a) <= stat_cap() + 1,
        eff_finesse_of(a) >= 1,
{
    let s = a.defense.health@;
    crate::stats::lemma_first_up(s);
    if 0 < s.len() {
        assert(s[0].toughness <= stat_cap());
    }
    if first_up(s) < s.len() {
        assert(s[first_up(s)].toughness <= stat_cap());
    }
}

/// Flipping cards keeps the walls.
pub proof fn lemma_flip_times_walls(s: Seq<HealthCard>, k: nat)
    ensures
        same_walls(s, flip_times(s, k)),
    decreases k,
{
    if k > 0 {
        lemma_flip_times_walls(s, (k - 1) as nat);
        crate::stats::lemma_flip_down(flip_times(s, (k - 1) as nat));
    }
}

/// A strike of at most `0x8000_0000` on a sane body keeps it engaged: its cards only flip down, and if
/// it still stands its pile sits below its wall.
pub proof fn lemma_struck_engaged(a: Actor, b: Actor, raw: u32)
    requires
        sane(a),
        raw <= 0x8000_0000,
        struck(a, b, raw),
    ensures
        engaged(a, b),
        strikable(a, raw),
        !actor_down(a) ==> b.defense.health_pile <= a.defense.health_pile + raw,
{
    lemma_sane_fits(a);
    if !actor_down(a) {
        let total = a.defense.health_pile + raw;
        let bar = floor1(wall_of(a));
        let up = count_up(a.defense.health@);
        let k = flips_for(total, bar as int, up);
        crate::stats::lemma_flip_times(a.defense.health@, k);
        lemma_flip_times_walls(a.defense.health@, k);
        assert(k * bar >= 0) by (nonlinear_arith)
            requires
                k >= 0,
                bar >= 1,
        ;
        if !actor_down(b) {
            assert(k < up);
            assert(k == total / (bar as int));
            let q = total / (bar as int);
            let r = total % (bar as int);
            vstd::arithmetic::div_mod::lemma_fundamental_div_mod(total, bar as int);
            vstd::arithmetic::div_mod::lemma_mod_bound(total, bar as int);
            assert(q * bar == bar * q) by (nonlinear_arith);
            assert(total - k * bar < bar);
        }
        assert forall|i: int| 0 <= i < b.defense.health@.len() implies (#[trigger] b.defense.health@[i]).toughness
            <= stat_cap() by {
            assert(b.defense.health@[i].toughness == a.defense.health@[i].toughness);
        }
    }
}

// ---------------------------------------------------------------------------------------------
// Groups on the board.
// ---------------------------------------------------------------------------------------------

/// Unit `i`'s group id (its own index when the plan is short).
pub open spec fn gid(group: Seq<usize>, i: int) -> usize {
    if 0 <= i < group.len() {
        group[i]
    } else {
        i as usize
    }
}

/// The units `j < n` sharing unit `i`'s group id, ascending.
pub open spec fn members_upto(group: Seq<usize>, i: int, n: int) -> Seq<usize>
    decreases n,
{
    if n <= 0 {
        seq![]
    } else {
        let r = members_upto(group, i, n - 1);
        if gid(group, n - 1) == gid(group, i) {
            r.push((n - 1) as usize)
        } else {
            r
        }
    }
}

/// The members of unit `i`'s group, in pool (front-to-back) order.
pub open spec fn group_members(group: Seq<usize>, i: int) -> Seq<usize> {
    members_upto(group, i, group.len() as int)
}

/// The members listed among the first `n` units are below `n`, ascending, and exactly those carrying
/// unit `i`'s group id.
pub proof fn lemma_members(group: Seq<usize>, i: int, n: int)
    requires
        0 <= n <= group.len(),
        group.len() <= usize::MAX,
    ensures
        forall|k: int| 0 <= k < members_upto(group, i, n).len() ==> #[trigger] members_upto(group, i, n)[k] < n,
        forall|k: int, m: int|
            0 <= k < m < members_upto(group, i, n).len() ==> members_upto(group, i, n)[k] < members_upto(group, i, n)[m],
        forall|j: int|
            0 <= j < n ==> (members_upto(group, i, n).contains(j as usize) <==> gid(group, j) == gid(group, i)),
        members_upto(group, i, n).len() <= n,
    decreases n,
{
    if n > 0 {
        lemma_members(group, i, n - 1);
        let r = members_upto(group, i, n - 1);
        let t = members_upto(group, i, n);
        assert forall|j: int| 0 <= j < n implies (t.contains(j as usize) <==> gid(group, j) == gid(group, i)) by {
            if j < n - 1 {
                if t.contains(j as usize) {
                    let k = choose|k: int| 0 <= k < t.len() && t[k] == j as usize;
                    if k < r.len() {
                        assert(r[k] == j as usize);
                    }
                }
                if r.contains(j as usize) {
                    let k = choose|k: int| 0 <= k < r.len() && r[k] == j as usize;
                    assert(t[k] == j as usize);
                }
            } else {
                if gid(group, n - 1) == gid(group, i) {
                    assert(t[t.len() - 1] == j as usize);
                } else if t.contains(j as usize) {
                    let k = choose|k: int| 0 <= k < t.len() && t[k] == j as usize;
                    assert(r[k] < n - 1);
                }
            }
        }
    }
}

/// The members of unit `i`'s group within `pool`, in pool (front-to-back) order: the units carrying
/// unit `i`'s group id (a unit past the end of the plan keeps its own index as its id).
fn group_of(group: &[usize], i: usize) -> (v: Vec<usize>)
    ensures
        v@ == group_members(group@, i as int),
{
    let gi = if i < group.len() {
        group[i]
    } else {
        i
    };
    let mut v: Vec<usize> = Vec::new();
    let mut j: usize = 0;
    while j < group.len()
        invariant
            j <= group@.len(),
            gi == gid(group@, i as int),
            v@ == members_upto(group@, i as int, j as int),
        decreases group.len() - j,
    {
        if group[j] == gi {
            v.push(j);
        }
        j = j + 1;
    }
    v
}

/// A group's key: its lowest member index (`i` itself for a unit with no members listed).
pub open spec fn group_key(group: Seq<usize>, i: int) -> usize {
    let m = group_members(group, i);
    if m.len() > 0 {
        m[0]
    } else {
        i as usize
    }
}

/// A stable per-group key (its lowest member index) — the collective melee crossing is paid once per
/// group and cycle.
fn group_rep(group: &[usize], i: usize) -> (r: usize)
    ensures
        r == group_key(group@, i as int),
{
    let m = group_of(group, i);
    if m.len() > 0 {
        m[0]
    } else {
        i
    }
}

/// The first member (in `members` order) of `pool` still standing.
pub open spec fn first_living_of(pool: Seq<Actor>, members: Seq<usize>) -> Option<usize>
    decreases members.len(),
{
    if members.len() == 0 {
        None
    } else if !actor_down(pool[members[0] as int]) {
        Some(members[0])
    } else {
        first_living_of(pool, members.drop_first())
    }
}

/// The front-most **living** member of a group — the bodyguard that soaks aimed blows.
fn front_living(pool: &[Actor], members: &Vec<usize>) -> (r: Option<usize>)
    requires
        forall|k: int| 0 <= k < members@.len() ==> members@[k] < pool@.len(),
    ensures
        r == first_living_of(pool@, members@),
{
    let mut k: usize = 0;
    assert(members@.skip(0) =~= members@);
    while k < members.len()
        invariant
            k <= members@.len(),
            forall|q: int| 0 <= q < members@.len() ==> members@[q] < pool@.len(),
            first_living_of(pool@, members@) == first_living_of(pool@, members@.skip(k as int)),
        decreases members.len() - k,
    {
        assert(members@.skip(k as int).drop_first() =~= members@.skip(k + 1));
        assert(members@.skip(k as int)[0] == members@[k as int]);
        if !pool[members[k]].is_down() {
            return Some(members[k]);
        }
        k = k + 1;
    }
    None
}

/// The spillover cascade on `p0` down `ms` with `amount` to spend, ending at `p1` and narrated by
/// `lines`: a living member takes the whole amount as one strike from `by` (one hit line); if that
/// kills it, its pile (the unflipped remainder) clears and overflows to the next member; a survivor
/// soaks the rest. Downed members are skipped; nothing is left once the amount is spent.
pub open spec fn cascaded(
    p0: Seq<Actor>,
    ms: Seq<usize>,
    amount: u32,
    by: Seq<char>,
    p1: Seq<Actor>,
    lines: Seq<Seq<char>>,
) -> bool
    decreases ms.len(),
{
    if ms.len() == 0 || amount == 0 {
        p1 == p0 && lines.len() == 0
    } else {
        let m = ms[0] as int;
        if actor_down(p0[m]) {
            cascaded(p0, ms.drop_first(), amount, by, p1, lines)
        } else {
            &&& lines.len() > 0
            &&& exists|b: Actor|
                {
                    &&& #[trigger] struck(p0[m], b, amount)
                    &&& lines[0] == hit_line(by, p0[m], b, amount)
                    &&& if actor_down(b) {
                        cascaded(
                            p0.update(m, with_defense(b, Defense { health_pile: 0, ..b.defense })),
                            ms.drop_first(),
                            b.defense.health_pile,
                            by,
                            p1,
                            lines.drop_first(),
                        )
                    } else {
                        cascaded(p0.update(m, b), ms.drop_first(), 0, by, p1, lines.drop_first())
                    }
                }
        }
    }
}

/// The spillover cascade: bank `amount` of aimed Might into a group's living front, overflowing only
/// on a **death** (the unflipped remainder spills to the next living member). A surviving front soaks
/// the rest. Each absorbing blow is narrated.
#[verifier::spinoff_prover]
#[verifier::rlimit(40)]
fn cascade(pool: &mut [Actor], members: &Vec<usize>, amount: u32, attacker: &str, log: &mut Vec<String>)
    requires
        all_sane(old(pool)@),
        members@.len() <= pool_cap(),
        amount <= 0x4000_0000,
        forall|k: int| 0 <= k < members@.len() ==> members@[k] < old(pool)@.len(),
    ensures
        pool_engaged(old(pool)@, final(pool)@),
        exists|lines: Seq<Seq<char>>|
            #[trigger] cascaded(old(pool)@, members@, amount, attacker@, final(pool)@, lines) && logged(
                old(log)@,
                final(log)@,
                lines,
            ),
{
    let ghost p0 = pool@;
    let ghost amt0 = amount;
    let ghost mut acc: Seq<Seq<char>> = seq![];
    let mut amount = amount;
    let mut k: usize = 0;
    proof {
        lemma_pool_engaged_refl(p0);
        lemma_logged_refl(old(log)@);
    }
    assert(members@.skip(0) =~= members@);
    while k < members.len() && amount != 0
        invariant
            k <= members@.len(),
            members@.len() <= pool_cap(),
            amount <= 0x4000_0000 + k * pile_cap(),
            pool@.len() == p0.len(),
            forall|q: int| 0 <= q < members@.len() ==> members@[q] < p0.len(),
            pool_engaged(p0, pool@),
            forall|pf: Seq<Actor>, lf: Seq<Seq<char>>| #[trigger]
                cascaded(pool@, members@.skip(k as int), amount, attacker@, pf, lf) ==> cascaded(
                    p0,
                    members@,
                    amt0,
                    attacker@,
                    pf,
                    acc + lf,
                ),
            logged(old(log)@, log@, acc),
        decreases members.len() - k,
    {
        let m = members[k];
        let ghost cur = pool@;
        let ghost ms = members@.skip(k as int);
        let ghost l0 = log@;
        assert(ms[0] == m);
        assert(ms.drop_first() =~= members@.skip(k + 1));
        proof {
            lemma_pool_engaged_sane(p0, cur);
        }
        if !pool[m].is_down() {
            let ghost a = cur[m as int];
            assert(sane(a));
            proof {
                lemma_sane_fits(a);
                assert(amount <= 0x8000_0000) by (nonlinear_arith)
                    requires
                        amount <= 0x4000_0000 + k * pile_cap(),
                        k <= 256,
                ;
            }
            let ghost amt = amount;
            proof {
                assert(strikable(a, amount));
            }
            apply_strike(&mut pool[m], Strike { raw: amount }, attacker, log);
            let ghost b = pool@[m as int];
            let ghost line = hit_line(attacker@, a, b, amt);
            proof {
                lemma_struck_engaged(a, b, amt);
                lemma_engaged_trans(p0[m as int], a, b);
                lemma_logged_trans(old(log)@, l0, log@, acc, seq![line]);
            }
            if pool[m].is_down() {
                amount = pool[m].defense.health_pile;
                pool[m].defense.clear_pile();
                proof {
                    let c = pool@[m as int];
                    assert(c == with_defense(b, Defense { health_pile: 0, ..b.defense }));
                    assert(engaged(b, c));
                    lemma_engaged_trans(p0[m as int], b, c);
                    assert(pool@ =~= cur.update(m as int, c));
                    assert(amount <= 0x4000_0000 + (k + 1) * pile_cap()) by (nonlinear_arith)
                        requires
                            amount <= a.defense.health_pile + amt,
                            a.defense.health_pile <= pile_cap(),
                            amt <= 0x4000_0000 + k * pile_cap(),
                    ;
                }
            } else {
                amount = 0;
                proof {
                    assert(pool@ =~= cur.update(m as int, b));
                }
            }
            proof {
                assert forall|i: int| 0 <= i < p0.len() implies engaged(p0[i], #[trigger] pool@[i]) by {
                    if i != m as int {
                        assert(pool@[i] == cur[i]);
                    }
                }
                let acc0 = acc;
                assert forall|pf: Seq<Actor>, lf: Seq<Seq<char>>| #[trigger]
                    cascaded(pool@, members@.skip(k + 1), amount, attacker@, pf, lf) implies cascaded(
                    p0,
                    members@,
                    amt0,
                    attacker@,
                    pf,
                    (acc0 + seq![line]) + lf,
                ) by {
                    let ll = seq![line] + lf;
                    assert(ll.drop_first() =~= lf);
                    assert(ll[0] == line);
                    assert(struck(cur[m as int], b, amt));
                    assert(cascaded(cur, ms, amt, attacker@, pf, ll));
                    assert(acc0 + ll =~= (acc0 + seq![line]) + lf);
                }
                acc = acc0 + seq![line];
            }
        } else {
            proof {
                assert forall|pf: Seq<Actor>, lf: Seq<Seq<char>>| #[trigger]
                    cascaded(pool@, members@.skip(k + 1), amount, attacker@, pf, lf) implies cascaded(
                    p0,
                    members@,
                    amt0,
                    attacker@,
                    pf,
                    acc + lf,
                ) by {
                    assert(cascaded(cur, ms, amount, attacker@, pf, lf));
                }
                assert(amount <= 0x4000_0000 + (k + 1) * pile_cap()) by (nonlinear_arith)
                    requires
                        amount <= 0x4000_0000 + k * pile_cap(),
                ;
            }
        }
        k = k + 1;
    }
    proof {
        assert(cascaded(pool@, members@.skip(k as int), amount, attacker@, pool@, seq![]));
        assert(acc + seq![] =~= acc);
        assert(cascaded(p0, members@, amt0, attacker@, pool@, acc));
    }
}

// ---------------------------------------------------------------------------------------------
// Declaring strikes.
// ---------------------------------------------------------------------------------------------

/// The spendable part of a Tempo pool.
pub open spec fn pos(t: i32) -> nat {
    if t > 0 {
        t as nat
    } else {
        0
    }
}

/// The spendable Tempo of a whole pool: the measure every committed cycle lowers.
pub open spec fn tempo_pos_sum(p: Seq<Actor>) -> nat
    decreases p.len(),
{
    if p.len() == 0 {
        0
    } else {
        pos(p.last().tempo) + tempo_pos_sum(p.drop_last())
    }
}

/// No body gained spendable Tempo, so the pool's total did not grow; if one lost some, it shrank.
pub proof fn lemma_pos_sum_mono(p0: Seq<Actor>, p1: Seq<Actor>)
    requires
        p1.len() == p0.len(),
        forall|i: int| 0 <= i < p0.len() ==> pos((#[trigger] p1[i]).tempo) <= pos(p0[i].tempo),
    ensures
        tempo_pos_sum(p1) <= tempo_pos_sum(p0),
        (exists|i: int| 0 <= i < p0.len() && pos(p1[i].tempo) < pos(p0[i].tempo)) ==> tempo_pos_sum(p1)
            < tempo_pos_sum(p0),
    decreases p0.len(),
{
    if p0.len() > 0 {
        let q0 = p0.drop_last();
        let q1 = p1.drop_last();
        assert forall|i: int| 0 <= i < q0.len() implies pos((#[trigger] q1[i]).tempo) <= pos(q0[i].tempo) by {
            assert(q1[i] == p1[i]);
            assert(q0[i] == p0[i]);
        }
        lemma_pos_sum_mono(q0, q1);
        if exists|i: int| 0 <= i < p0.len() && pos(p1[i].tempo) < pos(p0[i].tempo) {
            let i = choose|i: int| 0 <= i < p0.len() && pos(p1[i].tempo) < pos(p0[i].tempo);
            if i < p0.len() - 1 {
                assert(q1[i] == p1[i]);
                assert(q0[i] == p0[i]);
            }
        }
    }
}

/// An engaged pool's spendable Tempo did not grow.
pub proof fn lemma_engaged_pos_sum(p0: Seq<Actor>, p1: Seq<Actor>)
    requires
        pool_engaged(p0, p1),
    ensures
        tempo_pos_sum(p1) <= tempo_pos_sum(p0),
{
    assert forall|i: int| 0 <= i < p0.len() implies pos((#[trigger] p1[i]).tempo) <= pos(p0[i].tempo) by {
        assert(engaged(p0[i], p1[i]));
    }
    lemma_pos_sum_mono(p0, p1);
}

/// A crossing's charge on one Tempo pool: one card, floored at 0.
pub open spec fn crossed_tempo(x: i32) -> i32 {
    if x > 1 {
        (x - 1) as i32
    } else {
        0
    }
}

/// One declared, committed strike awaiting apply: attacker `ai` at target `ti`, with the attacker's
/// read captured at declare (its strike Might, its Finesse, melee or not, area or not).
#[derive(Clone, Copy, Debug)]
pub struct Decl {
    pub ai: usize,
    pub ti: usize,
    pub might: u32,
    pub fa: u32,
    pub melee: bool,
    pub aoe: bool,
}

/// Role `r` attacks in engagement `step`.
pub open spec fn attacks_at(step: int, r: Intention) -> bool {
    exists|k: int| 0 <= k < schedule_spec()[step].len() && schedule_spec()[step][k].0 == r
}

/// Does role `role` attack in engagement `step_idx`?
fn attacks_in(step_idx: usize, role: Intention) -> (b: bool)
    requires
        step_idx < schedule_spec().len(),
    ensures
        b == attacks_at(step_idx as int, role),
{
    let pairs = schedule_step(step_idx);
    let mut k: usize = 0;
    while k < pairs.len()
        invariant
            k <= pairs@.len(),
            pairs@ == schedule_spec()[step_idx as int],
            forall|q: int| 0 <= q < k ==> pairs@[q].0 != role,
        decreases pairs.len() - k,
    {
        if pairs[k].0 == role {
            return true;
        }
        k = k + 1;
    }
    false
}

/// A committed strike is legal and policy-chosen: a standing attacker whose declared role attacks in
/// this engagement, aimed at its governing target, carrying its current strike Might and Finesse.
pub open spec fn decl_ok(
    d: Decl,
    step_idx: usize,
    atk: Seq<Actor>,
    atk_int: Seq<Intention>,
    def: Seq<Actor>,
    def_int: Seq<Intention>,
) -> bool {
    let a = atk[d.ai as int];
    &&& d.ai < atk.len()
    &&& d.ai < atk_int.len()
    &&& !actor_down(a)
    &&& attacks_at(step_idx as int, atk_int[d.ai as int])
    &&& governing_from(step_idx, a, atk_int[d.ai as int], atk, atk_int, def, def_int, 0) matches Some((_r, ti))
        && ti == d.ti
    &&& d.ti < def.len()
    &&& d.might == base_strike_of(a)
    &&& d.fa == eff_finesse_of(a)
    &&& d.melee == attack_has(a.attack, Range::Melee)
    &&& d.aoe == a.aoe
}

/// The board a round resolves on: pools within the cap, a group id per unit, every body sane.
pub open spec fn board_ok(s: State) -> bool {
    &&& s.heroes@.len() <= pool_cap()
    &&& s.creatures@.len() <= pool_cap()
    &&& s.plan.hero_group@.len() == s.heroes@.len()
    &&& s.plan.foe_group@.len() == s.creatures@.len()
    &&& all_sane(s.heroes@)
    &&& all_sane(s.creatures@)
}

/// Is the board one the resolver takes ([`board_ok`])? Checked without overflow, so a caller never
/// has to meet the resolver's bounds blindly.
pub fn board_fits(s: &State) -> (b: bool)
    ensures
        b == board_ok(*s),
{
    s.heroes.len() <= 256 && s.creatures.len() <= 256 && s.plan.hero_group.len() == s.heroes.len()
        && s.plan.foe_group.len() == s.creatures.len() && pool_sane(&s.heroes) && pool_sane(&s.creatures)
}

/// `s1` is `s0` with (at most) its pools changed.
pub open spec fn only_pools(s0: State, s1: State) -> bool {
    s1 == State { heroes: s1.heroes, creatures: s1.creatures, ..s0 }
}

/// A sane attacker on sane, capped pools can take every targeting decision.
pub proof fn lemma_board_targeting(attacker: Actor, atk: Seq<Actor>, atk_int: Seq<Intention>, def: Seq<Actor>)
    requires
        sane(attacker),
        all_sane(atk),
        all_sane(def),
        atk.len() <= pool_cap(),
    ensures
        governing_fits(attacker, atk, atk_int, def),
{
    assert forall|j: int| 0 <= j < atk.len() implies eff_might_of(#[trigger] atk[j]) <= stat_cap() by {
        assert(sane(atk[j]));
        lemma_sane_fits(atk[j]);
    }
    lemma_sane_fits(attacker);
    lemma_crack_sum_bound(atk, atk_int, Intention::Vanguard, atk.len() as int, stat_cap());
    lemma_crack_sum_bound(atk, atk_int, Intention::Outrider, atk.len() as int, stat_cap());
    lemma_crack_sum_bound(atk, atk_int, Intention::Rearguard, atk.len() as int, stat_cap());
    assert(atk.len() * stat_cap() <= pool_cap() * stat_cap()) by (nonlinear_arith)
        requires
            atk.len() <= pool_cap(),
    ;
    assert forall|j: int| 0 <= j < atk.len() implies tokens_fit((#[trigger] atk[j]).tokens@) by {
        assert(sane(atk[j]));
    }
    assert forall|j: int| 0 <= j < def.len() implies tokens_fit((#[trigger] def[j]).tokens@) by {
        assert(sane(def[j]));
    }
    assert forall|j: int| 0 <= j < def.len() && !actor_down(#[trigger] def[j]) implies def[j].defense.health_pile
        <= pile_cap() by {
        assert(sane(def[j]));
    }
}

/// The declare pass as plain values: the strikes committed so far, the working Tempo of each
/// attacker, and which groups have paid their crossing.
pub type DeclT = (Seq<Decl>, Seq<i32>, Seq<bool>);

/// Attacker `ai`'s turn in the declare pass: a standing attacker whose role attacks in this
/// engagement and that has a governing target commits a strike if it can pay — a melee body once its
/// group has crossed (the first crossing charges every standing member one Tempo, floored at 0), a
/// ranged body one Tempo of its own.
pub open spec fn declare_step(
    step: usize,
    atk: Seq<Actor>,
    atk_int: Seq<Intention>,
    atk_grp: Seq<usize>,
    def: Seq<Actor>,
    def_int: Seq<Intention>,
    st: DeclT,
    ai: int,
) -> DeclT {
    let a = atk[ai];
    if ai < atk_int.len() && !actor_down(a) && attacks_at(step as int, atk_int[ai]) {
        match governing_from(step, a, atk_int[ai], atk, atk_int, def, def_int, 0) {
            Some((_r, ti)) => {
                let melee = attack_has(a.attack, Range::Melee);
                let rep = group_key(atk_grp, ai) as int;
                let affordable = if melee {
                    st.2[rep] || st.1[ai] >= 1
                } else {
                    st.1[ai] >= 1
                };
                if affordable {
                    let members = group_members(atk_grp, ai);
                    let w2 = if melee {
                        if !st.2[rep] {
                            Seq::new(
                                st.1.len(),
                                |m: int|
                                    if members.contains(m as usize) && !actor_down(atk[m]) {
                                        crossed_tempo(st.1[m])
                                    } else {
                                        st.1[m]
                                    },
                            )
                        } else {
                            st.1
                        }
                    } else {
                        st.1.update(ai, (st.1[ai] - 1) as i32)
                    };
                    let c2 = if melee && !st.2[rep] {
                        st.2.update(rep, true)
                    } else {
                        st.2
                    };
                    let d = Decl {
                        ai: ai as usize,
                        ti,
                        might: base_strike_of(a),
                        fa: eff_finesse_of(a),
                        melee,
                        aoe: a.aoe,
                    };
                    (st.0.push(d), w2, c2)
                } else {
                    st
                }
            },
            None => st,
        }
    } else {
        st
    }
}

/// The declare pass over the first `k` attackers.
pub open spec fn declared(
    step: usize,
    atk: Seq<Actor>,
    atk_int: Seq<Intention>,
    atk_grp: Seq<usize>,
    def: Seq<Actor>,
    def_int: Seq<Intention>,
    k: nat,
) -> DeclT
    decreases k,
{
    if k == 0 {
        (Seq::empty(), Seq::new(atk.len(), |m: int| atk[m].tempo), Seq::new(atk.len(), |m: int| false))
    } else {
        declare_step(
            step,
            atk,
            atk_int,
            atk_grp,
            def,
            def_int,
            declared(step, atk, atk_int, atk_grp, def, def_int, (k - 1) as nat),
            k - 1,
        )
    }
}

/// **Declaring reads no enemy Tempo**: a side's declare pass is the same whatever Tempo the defending
/// bodies hold. So the two sides' declarations do not depend on which side declares first: the
/// creatures declare against the heroes exactly as they would against the board before the heroes
/// spent their Tempo.
pub proof fn law_declare_ignores_enemy_tempo(
    step: usize,
    atk: Seq<Actor>,
    atk_int: Seq<Intention>,
    atk_grp: Seq<usize>,
    def: Seq<Actor>,
    def_int: Seq<Intention>,
    w: Seq<i32>,
    k: nat,
)
    requires
        w.len() == def.len(),
    ensures
        declared(step, atk, atk_int, atk_grp, spent(def, w), def_int, k) == declared(step, atk, atk_int, atk_grp, def, def_int, k),
    decreases k,
{
    let d1 = spent(def, w);
    assert(crate::policy::same_but_tempo(def, d1)) by {
        assert forall|j: int| 0 <= j < def.len() implies #[trigger] d1[j] == (Actor { tempo: d1[j].tempo, ..def[j] }) by {}
    }
    if k > 0 {
        law_declare_ignores_enemy_tempo(step, atk, atk_int, atk_grp, def, def_int, w, (k - 1) as nat);
        let ai = k - 1;
        if ai < atk_int.len() {
            crate::policy::lemma_governing_ignores_tempo(step, atk[ai as int], atk_int[ai as int], atk, atk_int, def, d1, def_int, 0);
        }
    }
}

/// The full declare pass of `atk_side` on board `s`.
pub open spec fn declare_of(s: State, atk_side: u8, step: usize) -> DeclT {
    declared(
        step,
        pool_of(s, atk_side),
        intent_of(s, atk_side),
        crate::state::group_of_side(s, atk_side),
        pool_of(s, (1 - atk_side) as u8),
        intent_of(s, (1 - atk_side) as u8),
        pool_of(s, atk_side).len(),
    )
}

/// **Declare** one cycle's strikes for `atk_side` at engagement `step_idx`: a single pass over every
/// living attacker of that side whose role attacks in this engagement, each aiming at its governing
/// target. A melee group pays the collective crossing (every living member −1 Tempo, floored at 0) once
/// per cycle; a ranged striker pays one Tempo; a unit or group that cannot pay declares nothing. The
/// Tempo is spent on `atk_side`; the defenders are only read.
fn declare_side(state: &mut State, atk_side: u8, step_idx: usize) -> (decls: Vec<Decl>)
    requires
        board_ok(*old(state)),
        atk_side <= 1,
        step_idx < schedule_spec().len(),
    ensures
        ({
            let atk = pool_of(*old(state), atk_side);
            let def = pool_of(*old(state), (1 - atk_side) as u8);
            &&& forall|k: int|
                0 <= k < decls@.len() ==> decl_ok(
                    #[trigger] decls@[k],
                    step_idx,
                    atk,
                    intent_of(*old(state), atk_side),
                    def,
                    intent_of(*old(state), (1 - atk_side) as u8),
                )
            &&& forall|k: int, m: int| 0 <= k < m < decls@.len() ==> decls@[k].ai < decls@[m].ai
            &&& decls@.len() <= atk.len()
            &&& pool_engaged(atk, pool_of(*final(state), atk_side))
            &&& pool_of(*final(state), (1 - atk_side) as u8) == def
            &&& only_pools(*old(state), *final(state))
            &&& decls@.len() == 0 ==> *final(state) == *old(state)
            &&& decls@.len() > 0 ==> tempo_pos_sum(pool_of(*final(state), atk_side)) < tempo_pos_sum(atk)
            &&& decls@ == declare_of(*old(state), atk_side, step_idx).0
            &&& pool_of(*final(state), atk_side) == Seq::new(
                atk.len(),
                |m: int| Actor { tempo: declare_of(*old(state), atk_side, step_idx).1[m], ..atk[m] },
            )
        }),
{
    let def_side: u8 = 1 - atk_side;
    let ghost s0 = *state;
    let mut decls: Vec<Decl> = Vec::new();
    let mut w: Vec<i32> = Vec::new();
    let n: usize;
    {
        let atk = state.s_pool(atk_side);
        let atk_int = state.s_intent(atk_side);
        let atk_grp = if atk_side == 0 {
            state.plan.hero_group.as_slice()
        } else {
            state.plan.foe_group.as_slice()
        };
        let def = state.s_pool(def_side);
        let def_int = state.s_intent(def_side);
        n = atk.len();
        let ghost t0 = Seq::new(n as nat, |m: int| atk@[m].tempo);
        let mut crossed: Vec<bool> = Vec::new();
        let mut q: usize = 0;
        while q < n
            invariant
                q <= n,
                n == atk@.len(),
                crossed@.len() == q,
                w@.len() == q,
                forall|m: int| 0 <= m < q ==> w@[m] == atk@[m].tempo,
                forall|m: int| 0 <= m < q ==> !crossed@[m],
            decreases n - q,
        {
            crossed.push(false);
            w.push(atk[q].tempo);
            q = q + 1;
        }
        proof {
            assert(all_sane(atk@));
            assert(all_sane(def@));
        }
        let mut ai: usize = 0;
        while ai < n
            invariant
                ai <= n,
                n == atk@.len(),
                n <= pool_cap(),
                atk@ == pool_of(s0, atk_side),
                atk_int@ == intent_of(s0, atk_side),
                def@ == pool_of(s0, def_side),
                def_int@ == intent_of(s0, def_side),
                def_side == (1 - atk_side) as u8,
                atk_grp@.len() == n,
                all_sane(atk@),
                all_sane(def@),
                def@.len() <= usize::MAX,
                step_idx < schedule_spec().len(),
                crossed@.len() == n,
                w@.len() == n,
                forall|m: int|
                    0 <= m < n ==> {
                        let t = #[trigger] atk@[m].tempo;
                        &&& w@[m] <= (if t > 0 { t } else { 0 })
                        &&& w@[m] >= (if t < 0 { t } else { 0 })
                    },
                decls@.len() == 0 ==> forall|m: int| 0 <= m < n ==> w@[m] == #[trigger] atk@[m].tempo,
                decls@.len() == 0 ==> forall|m: int| 0 <= m < n ==> !(#[trigger] crossed@[m]),
                decls@.len() > 0 ==> exists|m: int| 0 <= m < n && pos(w@[m]) < pos(atk@[m].tempo),
                decls@.len() <= ai,
                (decls@, w@, crossed@) == declared(step_idx, atk@, atk_int@, atk_grp@, def@, def_int@, ai as nat),
                forall|k: int| 0 <= k < decls@.len() ==> (#[trigger] decls@[k]).ai < ai,
                forall|k: int, m: int| 0 <= k < m < decls@.len() ==> decls@[k].ai < decls@[m].ai,
                forall|k: int|
                    0 <= k < decls@.len() ==> decl_ok(#[trigger] decls@[k], step_idx, atk@, atk_int@, def@, def_int@),
            decreases n - ai,
        {
            let ghost st: DeclT = (decls@, w@, crossed@);
            if ai < atk_int.len() {
                let atk_role = atk_int[ai];
                if !atk[ai].is_down() && attacks_in(step_idx, atk_role) {
                    proof {
                        assert(sane(atk@[ai as int]));
                        lemma_board_targeting(atk@[ai as int], atk@, atk_int@, def@);
                        lemma_governing_target(step_idx, atk@[ai as int], atk_role, atk@, atk_int@, def@, def_int@, 0);
                        lemma_sane_fits(atk@[ai as int]);
                    }
                    let g = governing_target(step_idx, &atk[ai], atk_role, atk, atk_int, def, def_int);
                    if let Some((_r, ti)) = g {
                        let melee = atk[ai].attack.has(Range::Melee);
                        let rep = group_rep(atk_grp, ai);
                        proof {
                            crate::combat::lemma_members(atk_grp@, ai as int, n as int);
                        }
                        let affordable = if melee {
                            crossed[rep] || w[ai] >= 1
                        } else {
                            w[ai] >= 1
                        };
                        if affordable {
                            let ghost decls_before = decls@;
                            let ghost w_pre = w@;
                            proof {
                                if decls_before.len() == 0 {
                                    assert(!crossed@[rep as int]);
                                    assert(w@[ai as int] >= 1);
                                }
                            }
                            if melee {
                                if !crossed[rep] {
                                    let ms = group_of(atk_grp, ai);
                                    let ghost wb = w@;
                                    let mut k: usize = 0;
                                    while k < ms.len()
                                        invariant
                                            k <= ms@.len(),
                                            ms@ == group_members(atk_grp@, ai as int),
                                            forall|q: int| 0 <= q < ms@.len() ==> ms@[q] < n,
                                            forall|q: int, l: int| 0 <= q < l < ms@.len() ==> ms@[q] < ms@[l],
                                            n == atk@.len(),
                                            w@.len() == n,
                                            wb.len() == n,
                                            forall|m: int|
                                                0 <= m < n ==> {
                                                    let t = #[trigger] atk@[m].tempo;
                                                    &&& w@[m] <= (if t > 0 { t } else { 0 })
                                                    &&& w@[m] >= (if t < 0 { t } else { 0 })
                                                },
                                            forall|m: int| 0 <= m < n ==> pos(#[trigger] w@[m]) <= pos(wb[m]),
                                            forall|m: int|
                                                0 <= m < n && !(exists|j: int| 0 <= j < k && ms@[j] == m) ==> #[trigger] w@[m]
                                                    == wb[m],
                                            forall|m: int|
                                                0 <= m < n && (exists|j: int| 0 <= j < k && ms@[j] == m) && !actor_down(
                                                    atk@[m],
                                                ) ==> #[trigger] w@[m] == crossed_tempo(wb[m]),
                                            forall|m: int|
                                                0 <= m < n && actor_down(atk@[m]) ==> #[trigger] w@[m] == wb[m],
                                        decreases ms.len() - k,
                                    {
                                        let m = ms[k];
                                        let ghost before = w@;
                                        proof {
                                            assert(!(exists|j: int| 0 <= j < k && ms@[j] == m)) by {
                                                if exists|j: int| 0 <= j < k && ms@[j] == m {
                                                    let j = choose|j: int| 0 <= j < k && ms@[j] == m;
                                                    assert(ms@[j] < ms@[k as int]);
                                                }
                                            }
                                        }
                                        if !atk[m].is_down() {
                                            let cur = w[m];
                                            let nv = if cur > 1 {
                                                cur - 1
                                            } else {
                                                0
                                            };
                                            w.set(m, nv);
                                        }
                                        proof {
                                            assert forall|mm: int|
                                                0 <= mm < n && (exists|j: int| 0 <= j < k + 1 && ms@[j] == mm) && !actor_down(
                                                    atk@[mm],
                                                ) implies #[trigger] w@[mm] == crossed_tempo(wb[mm]) by {
                                                if mm != m as int {
                                                    let j = choose|j: int| 0 <= j < k + 1 && ms@[j] == mm;
                                                    assert(j < k);
                                                } else {
                                                    assert(before[mm] == wb[mm]) by {
                                                        if exists|j: int| 0 <= j < k && ms@[j] == mm {
                                                        }
                                                    }
                                                }
                                            }
                                        }
                                        k = k + 1;
                                    }
                                    proof {
                                        lemma_members(atk_grp@, ai as int, n as int);
                                        assert(ms@.contains(ai));
                                        let j = choose|j: int| 0 <= j < ms@.len() && ms@[j] == ai;
                                        assert(exists|j: int| 0 <= j < k && ms@[j] == ai as int);
                                        assert(w@[ai as int] == crossed_tempo(wb[ai as int]));
                                        assert forall|m: int| 0 <= m < n implies #[trigger] w@[m] == (if ms@.contains(m as usize) && !actor_down(atk@[m]) {
                                            crossed_tempo(wb[m])
                                        } else {
                                            wb[m]
                                        }) by {
                                            if ms@.contains(m as usize) {
                                                let j = choose|j: int| 0 <= j < ms@.len() && ms@[j] == m as usize;
                                                assert(ms@[j] == m);
                                            }
                                            if exists|j: int| 0 <= j < k && ms@[j] == m {
                                                let j = choose|j: int| 0 <= j < k && ms@[j] == m;
                                                assert(ms@.contains(m as usize));
                                            }
                                        }
                                        assert(w@ =~= Seq::new(wb.len(), |m: int| if ms@.contains(m as usize) && !actor_down(atk@[m]) {
                                            crossed_tempo(wb[m])
                                        } else {
                                            wb[m]
                                        }));
                                    }
                                    crossed.set(rep, true);
                                }
                            } else {
                                let cur = w[ai];
                                w.set(ai, cur - 1);
                            }
                            let d = Decl {
                                ai,
                                ti,
                                might: base_strike(&atk[ai]),
                                fa: atk[ai].eff_finesse(),
                                melee,
                                aoe: atk[ai].aoe,
                            };
                            decls.push(d);
                            proof {
                                assert forall|m: int| 0 <= m < n implies pos(#[trigger] w@[m]) <= pos(w_pre[m]) by {}
                                if decls_before.len() == 0 {
                                    assert(pos(w@[ai as int]) < pos(w_pre[ai as int]));
                                    assert(w_pre[ai as int] == atk@[ai as int].tempo);
                                    assert(0 <= ai < n && pos(w@[ai as int]) < pos(atk@[ai as int].tempo));
                                } else {
                                    let m = choose|m: int| 0 <= m < n && pos(w_pre[m]) < pos(atk@[m].tempo);
                                    assert(pos(w@[m]) <= pos(w_pre[m]));
                                }
                                assert(decl_ok(d, step_idx, atk@, atk_int@, def@, def_int@));
                                assert forall|k: int| 0 <= k < decls@.len() implies decl_ok(
                                    #[trigger] decls@[k],
                                    step_idx,
                                    atk@,
                                    atk_int@,
                                    def@,
                                    def_int@,
                                ) by {
                                    if k < decls_before.len() {
                                        assert(decls@[k] == decls_before[k]);
                                    }
                                }
                            }
                        }
                    }
                }
            }
            ai = ai + 1;
        }
    }
    if decls.len() > 0 {
        let ghost before = *state;
        let mut m: usize = 0;
        while m < n
            invariant
                m <= n,
                n == w@.len(),
                before == s0,
                atk_side <= 1,
                n == pool_of(s0, atk_side).len(),
                pool_of(*state, atk_side).len() == n,
                only_pools(s0, *state),
                pool_of(*state, (1 - atk_side) as u8) == pool_of(s0, (1 - atk_side) as u8),
                all_sane(pool_of(s0, atk_side)),
                exists|j: int| 0 <= j < n && pos(w@[j]) < pos(pool_of(s0, atk_side)[j].tempo),
                forall|j: int|
                    0 <= j < n ==> {
                        let t = #[trigger] pool_of(s0, atk_side)[j].tempo;
                        &&& w@[j] <= (if t > 0 { t } else { 0 })
                        &&& w@[j] >= (if t < 0 { t } else { 0 })
                    },
                forall|j: int|
                    0 <= j < m ==> #[trigger] pool_of(*state, atk_side)[j] == (Actor {
                        tempo: w@[j],
                        ..pool_of(s0, atk_side)[j]
                    }),
                forall|j: int| m <= j < n ==> #[trigger] pool_of(*state, atk_side)[j] == pool_of(s0, atk_side)[j],
            decreases n - m,
        {
            if atk_side == 0 {
                state.heroes[m].tempo = w[m];
            } else {
                state.creatures[m].tempo = w[m];
            }
            m = m + 1;
        }
        proof {
            let atk = pool_of(s0, atk_side);
            let fin = pool_of(*state, atk_side);
            assert forall|j: int| 0 <= j < atk.len() implies engaged(atk[j], #[trigger] fin[j]) by {
                assert(sane(atk[j]));
                assert(fin[j] == (Actor { tempo: w@[j], ..atk[j] }));
            }
            assert forall|j: int| 0 <= j < atk.len() implies pos((#[trigger] fin[j]).tempo) <= pos(atk[j].tempo) by {
                assert(fin[j] == (Actor { tempo: w@[j], ..atk[j] }));
            }
            let j = choose|j: int| 0 <= j < n && pos(w@[j]) < pos(pool_of(s0, atk_side)[j].tempo);
            assert(fin[j] == (Actor { tempo: w@[j], ..atk[j] }));
            lemma_pos_sum_mono(atk, fin);
        }
    }
    decls
}

// ---------------------------------------------------------------------------------------------
// Applying strikes.
// ---------------------------------------------------------------------------------------------

/// The blows one side's committed strikes deal the other this cycle: the area Might banked on each
/// defender, the aimed Might each soaker takes, the evades paid (soaker, attacker, Tempo cost), the
/// aimed blows that landed (soaker, attacker), and the melee blows that draw a strike-back.
pub struct Blows {
    pub aoe_add: Vec<u32>,
    pub spill_add: Vec<u32>,
    pub evades: Vec<(usize, usize, i32)>,
    pub hits: Vec<(usize, usize)>,
    pub sbacks: Vec<(usize, usize)>,
}

/// The cap on Might piled onto one defender in one cycle.
pub open spec fn heap_cap() -> int {
    0x3000_0000
}

/// A captured strike is within the caps.
pub open spec fn decl_fits(d: Decl, an: nat, dn: nat) -> bool {
    &&& d.ai < an
    &&& d.ti < dn
    &&& d.might <= 3 * stat_cap()
    &&& 1 <= d.fa <= stat_cap() + 1
}

/// The blows are well-formed for a defending pool `def0` of `dn` bodies, an attacking pool of `an`.
pub open spec fn blows_ok(b: Blows, def0: Seq<Actor>, an: nat, k: nat) -> bool {
    let dn = def0.len();
    &&& b.aoe_add@.len() == dn
    &&& b.spill_add@.len() == dn
    &&& forall|m: int| 0 <= m < dn ==> (#[trigger] b.aoe_add@[m]) <= k * 3 * stat_cap()
    &&& forall|m: int| 0 <= m < dn ==> (#[trigger] b.spill_add@[m]) <= k * 3 * stat_cap()
    &&& b.evades@.len() <= k
    &&& forall|e: int|
        0 <= e < b.evades@.len() ==> {
            let (s, a, c) = #[trigger] b.evades@[e];
            &&& s < dn
            &&& a < an
            &&& 1 <= c <= stat_cap() + 2
            &&& c <= def0[s as int].tempo
        }
    &&& forall|e: int| 0 <= e < b.hits@.len() ==> (#[trigger] b.hits@[e]).0 < dn && b.hits@[e].1 < an
    &&& forall|e: int| 0 <= e < b.sbacks@.len() ==> (#[trigger] b.sbacks@[e]).0 < dn && b.sbacks@[e].1 < an
}

/// The blows as plain values: area Might per defender, aimed Might per soaker, the evades, the landed
/// aimed blows, and the melee blows that draw a strike-back.
pub type BlowsT = (Seq<u32>, Seq<u32>, Seq<(usize, usize, i32)>, Seq<(usize, usize)>, Seq<(usize, usize)>);

/// The blows as plain values.
pub open spec fn blows_view(b: Blows) -> BlowsT {
    (b.aoe_add@, b.spill_add@, b.evades@, b.hits@, b.sbacks@)
}

/// The soaker of an aimed blow at `ti`: its group's front-most living member (`ti` if none lives).
pub open spec fn soaker_of(def: Seq<Actor>, members: Seq<usize>, ti: usize) -> usize {
    match first_living_of(def, members) {
        Some(x) => x,
        None => ti,
    }
}

/// Does the body at `s` evade by its declared role (a body past the plan does)?
pub open spec fn evades_by_role(def_int: Seq<Intention>, s: usize) -> bool {
    if s < def_int.len() {
        def_int[s as int] != Intention::Vanguard
    } else {
        true
    }
}

/// One committed strike sorted into the blows: an area strike banks its Might on every member of the
/// target's group; an aimed strike goes to the soaker, who — alone in its group, not a Vanguard, and
/// willing — evades it at its bid; otherwise the soaker takes it (and a melee blow draws a strike-back).
pub open spec fn blow_step(def: Seq<Actor>, def_int: Seq<Intention>, def_grp: Seq<usize>, b: BlowsT, d: Decl) -> BlowsT {
    let members = group_members(def_grp, d.ti as int);
    if d.aoe {
        (
            Seq::new(b.0.len(), |m: int| if members.contains(m as usize) { (b.0[m] + d.might) as u32 } else { b.0[m] }),
            b.1,
            b.2,
            b.3,
            b.4,
        )
    } else {
        let s = soaker_of(def, members, d.ti);
        if members.len() == 1 && evades_by_role(def_int, s) && should_avoid_spec(def[s as int], d.might, d.fa) {
            (b.0, b.1, b.2.push((s, d.ai, avoid_cost_spec(d.fa, eff_finesse_of(def[s as int])) as i32)), b.3, b.4)
        } else {
            (
                b.0,
                b.1.update(s as int, (b.1[s as int] + d.might) as u32),
                b.2,
                b.3.push((s, d.ai)),
                if d.melee { b.4.push((s, d.ai)) } else { b.4 },
            )
        }
    }
}

/// The blows the committed strikes `decls` deal the defending pool `def`, sorted in order.
pub open spec fn blows_of(def: Seq<Actor>, def_int: Seq<Intention>, def_grp: Seq<usize>, decls: Seq<Decl>) -> BlowsT
    decreases decls.len(),
{
    if decls.len() == 0 {
        (Seq::new(def.len(), |m: int| 0u32), Seq::new(def.len(), |m: int| 0u32), Seq::empty(), Seq::empty(), Seq::empty())
    } else {
        blow_step(def, def_int, def_grp, blows_of(def, def_int, def_grp, decls.drop_last()), decls.last())
    }
}

fn zeros(n: usize) -> (v: Vec<u32>)
    ensures
        v@.len() == n,
        forall|m: int| 0 <= m < n ==> v@[m] == 0,
{
    let mut v: Vec<u32> = Vec::new();
    let mut i: usize = 0;
    while i < n
        invariant
            i <= n,
            v@.len() == i,
            forall|m: int| 0 <= m < i ==> v@[m] == 0,
        decreases n - i,
    {
        v.push(0);
        i = i + 1;
    }
    v
}

/// Sort the committed strikes into blows against the defending pool (read only): area strikes bank
/// their full Might on **every** member of the target's group; an aimed strike goes to the group's
/// front-most living member (the soaker), who — alone in its group, not a Vanguard, and able to afford
/// it — evades a blow that would flip a card; otherwise the soaker takes it (and a melee blow draws a
/// strike-back).
fn collect_blows(def: &[Actor], def_int: &Vec<Intention>, def_grp: &Vec<usize>, decls: &Vec<Decl>, an: usize) -> (b: Blows)
    requires
        def@.len() <= pool_cap(),
        def_grp@.len() == def@.len(),
        decls@.len() <= pool_cap(),
        all_sane(def@),
        forall|k: int| 0 <= k < decls@.len() ==> decl_fits(#[trigger] decls@[k], an as nat, def@.len()),
    ensures
        blows_ok(b, def@, an as nat, decls@.len()),
        blows_view(b) == blows_of(def@, def_int@, def_grp@, decls@),
{
    let dn = def.len();
    let mut b = Blows {
        aoe_add: zeros(dn),
        spill_add: zeros(dn),
        evades: Vec::new(),
        hits: Vec::new(),
        sbacks: Vec::new(),
    };
    let mut k: usize = 0;
    while k < decls.len()
        invariant
            k <= decls@.len(),
            dn == def@.len(),
            dn <= pool_cap(),
            decls@.len() <= pool_cap(),
            def_grp@.len() == dn,
            all_sane(def@),
            forall|q: int| 0 <= q < decls@.len() ==> decl_fits(#[trigger] decls@[q], an as nat, def@.len()),
            blows_ok(b, def@, an as nat, k as nat),
            blows_view(b) == blows_of(def@, def_int@, def_grp@, decls@.take(k as int)),
        decreases decls.len() - k,
    {
        let d = decls[k];
        let ghost b0 = blows_view(b);
        proof {
            assert(decls@.take(k + 1).drop_last() =~= decls@.take(k as int));
            assert(decls@.take(k + 1).last() == d);
        }
        assert(decl_fits(decls@[k as int], an as nat, def@.len()));
        proof {
            lemma_members(def_grp@, d.ti as int, dn as int);
            assert(k * 3 * stat_cap() + 3 * stat_cap() == (k + 1) * 3 * stat_cap()) by (nonlinear_arith);
            assert(k * 3 * stat_cap() <= 255 * 3 * stat_cap()) by (nonlinear_arith)
                requires
                    k <= 255,
            ;
        }
        let members = group_of(def_grp, d.ti);
        if d.aoe {
            let ghost sp = b.spill_add@;
            let ghost ev = b.evades@;
            let ghost hs = b.hits@;
            let ghost sb = b.sbacks@;
            let mut q: usize = 0;
            while q < members.len()
                invariant
                    b.spill_add@ == sp,
                    b.evades@ == ev,
                    b.hits@ == hs,
                    b.sbacks@ == sb,
                    q <= members@.len(),
                    members@ == group_members(def_grp@, d.ti as int),
                    forall|j: int| 0 <= j < members@.len() ==> members@[j] < dn,
                    forall|j: int, l: int| 0 <= j < l < members@.len() ==> members@[j] < members@[l],
                    b.aoe_add@.len() == dn,
                    forall|m: int|
                        0 <= m < dn ==> (#[trigger] b.aoe_add@[m]) <= k * 3 * stat_cap() + (if (exists|j: int|
                            0 <= j < q && members@[j] == m) {
                            3 * stat_cap()
                        } else {
                            0
                        }),
                    d.might <= 3 * stat_cap(),
                    k * 3 * stat_cap() <= 255 * 3 * stat_cap(),
                    b0.0.len() == dn,
                    forall|m: int|
                        0 <= m < dn ==> #[trigger] b.aoe_add@[m] == (if (exists|j: int| 0 <= j < q && members@[j] == m) {
                            (b0.0[m] + d.might) as u32
                        } else {
                            b0.0[m]
                        }),
                decreases members.len() - q,
            {
                let m = members[q];
                let cur = b.aoe_add[m];
                proof {
                    assert(!(exists|j: int| 0 <= j < q && members@[j] == m)) by {
                        if exists|j: int| 0 <= j < q && members@[j] == m {
                            let j = choose|j: int| 0 <= j < q && members@[j] == m;
                            assert(members@[j] < members@[q as int]);
                        }
                    }
                }
                b.aoe_add.set(m, cur + d.might);
                proof {
                    assert forall|mm: int| 0 <= mm < dn implies (#[trigger] b.aoe_add@[mm]) <= k * 3 * stat_cap() + (
                    if (exists|j: int| 0 <= j < q + 1 && members@[j] == mm) {
                        3 * stat_cap()
                    } else {
                        0
                    }) by {
                        if mm == m as int {
                            assert(members@[q as int] == mm);
                        } else if exists|j: int| 0 <= j < q && members@[j] == mm {
                            let j = choose|j: int| 0 <= j < q && members@[j] == mm;
                            assert(0 <= j < q + 1 && members@[j] == mm);
                        }
                    }
                }
                q = q + 1;
            }
        } else {
            let soaker = match front_living(def, &members) {
                Some(x) => x,
                None => d.ti,
            };
            proof {
                if first_living_of(def@, members@) is Some {
                    lemma_first_living_in(def@, members@);
                }
            }
            let soaker_evades = if soaker < def_int.len() {
                role_evades(def_int[soaker])
            } else {
                true
            };
            proof {
                assert(sane(def@[soaker as int]));
                lemma_sane_fits(def@[soaker as int]);
            }
            proof {
                let fd = eff_finesse_of(def@[soaker as int]);
                vstd::arithmetic::div_mod::lemma_div_is_ordered_by_denominator(d.fa as int, 1, fd as int);
                vstd::arithmetic::div_mod::lemma_div_pos_is_pos(d.fa as int, fd as int);
            }
            if members.len() == 1 && soaker_evades && should_avoid(&def[soaker], d.might, d.fa) {
                let cost = avoid_cost(d.fa, def[soaker].eff_finesse());
                let ghost eb = b.evades@;
                b.evades.push((soaker, d.ai, cost));
                proof {
                    assert forall|e: int| 0 <= e < b.evades@.len() implies {
                        let (s, a, c) = #[trigger] b.evades@[e];
                        &&& s < dn
                        &&& a < an
                        &&& 1 <= c <= stat_cap() + 2
                        &&& c <= def@[s as int].tempo
                    } by {
                        if e < eb.len() {
                            assert(b.evades@[e] == eb[e]);
                        }
                    }
                }
            } else {
                let cur = b.spill_add[soaker];
                b.spill_add.set(soaker, cur + d.might);
                b.hits.push((soaker, d.ai));
                if d.melee {
                    b.sbacks.push((soaker, d.ai));
                }
            }
        }
        proof {
            assert(blows_view(b) == blow_step(def@, def_int@, def_grp@, b0, d));
            let k1 = (k + 1) as nat;
            assert(b.aoe_add@.len() == dn);
            assert(b.spill_add@.len() == dn);
            assert forall|m: int| 0 <= m < dn implies (#[trigger] b.aoe_add@[m]) <= k1 * 3 * stat_cap() by {}
            assert forall|m: int| 0 <= m < dn implies (#[trigger] b.spill_add@[m]) <= k1 * 3 * stat_cap() by {}
            assert(b.evades@.len() <= k1);
            assert forall|e: int| 0 <= e < b.hits@.len() implies (#[trigger] b.hits@[e]).0 < dn && b.hits@[e].1 < an by {}
            assert forall|e: int| 0 <= e < b.sbacks@.len() implies (#[trigger] b.sbacks@[e]).0 < dn && b.sbacks@[e].1
                < an by {}
        }
        k = k + 1;
    }
    proof {
        assert(decls@.take(k as int) =~= decls@);
    }
    b
}

/// The first living member found is a member, below the pool's length.
proof fn lemma_first_living_in(pool: Seq<Actor>, members: Seq<usize>)
    requires
        first_living_of(pool, members) is Some,
    ensures
        members.contains(first_living_of(pool, members)->0),
    decreases members.len(),
{
    if members.len() > 0 && actor_down(pool[members[0] as int]) {
        lemma_first_living_in(pool, members.drop_first());
        let x = first_living_of(pool, members)->0;
        let j = choose|j: int| 0 <= j < members.drop_first().len() && members.drop_first()[j] == x;
        assert(members[j + 1] == x);
    } else if members.len() > 0 {
        assert(members[0] == first_living_of(pool, members)->0);
    }
}

/// The Tempo the evades in `evs` charge body `m`.
pub open spec fn evade_cost(evs: Seq<(usize, usize, i32)>, m: int) -> int
    decreases evs.len(),
{
    if evs.len() == 0 {
        0
    } else {
        evade_cost(evs.drop_last(), m) + (if evs.last().0 as int == m { evs.last().2 as int } else { 0 })
    }
}

/// `p1` is `p0` with each evade paid: every body's Tempo lowered by its evades' costs.
pub open spec fn evaded(p0: Seq<Actor>, evs: Seq<(usize, usize, i32)>, p1: Seq<Actor>) -> bool {
    &&& p1.len() == p0.len()
    &&& forall|m: int|
        0 <= m < p0.len() ==> #[trigger] p1[m] == (Actor { tempo: (p0[m].tempo - evade_cost(evs, m)) as i32, ..p0[m] })
}

/// The narration of one paid evade.
pub open spec fn avoid_line(name: Seq<char>, attacker: Seq<char>, cost: i32) -> Seq<char> {
    name + " avoids "@ + attacker + "'s strike (-"@ + decimal(cost as nat) + "t)."@
}

/// The narration of the evades `evs` by defenders `def` against attackers `atk`, in order.
pub open spec fn evade_lines(def: Seq<Actor>, atk: Seq<Actor>, evs: Seq<(usize, usize, i32)>) -> Seq<Seq<char>>
    decreases evs.len(),
{
    if evs.len() == 0 {
        seq![]
    } else {
        let (s, a, c) = evs.last();
        evade_lines(def, atk, evs.drop_last()) + seq![avoid_line(def[s as int].name@, atk[a as int].name@, c)]
    }
}

/// Pay each evade: the soaker spends the Tempo of its bid, narrated.
fn apply_evades(
    def: &mut [Actor],
    evades: &Vec<(usize, usize, i32)>,
    atk_names: &Vec<String>,
    log: &mut Vec<String>,
    Ghost(atk): Ghost<Seq<Actor>>,
)
    requires
        atk_names@.len() == atk.len(),
        forall|i: int| 0 <= i < atk.len() ==> (#[trigger] atk_names@[i])@ == atk[i].name@,
        all_sane(old(def)@),
        evades@.len() <= pool_cap(),
        forall|e: int|
            0 <= e < evades@.len() ==> {
                let (s, a, c) = #[trigger] evades@[e];
                &&& s < old(def)@.len()
                &&& a < atk_names@.len()
                &&& 1 <= c <= stat_cap() + 2
                &&& c <= old(def)@[s as int].tempo
            },
    ensures
        pool_engaged(old(def)@, final(def)@),
        evaded(old(def)@, evades@, final(def)@),
        logged(old(log)@, final(log)@, evade_lines(old(def)@, atk, evades@)),
{
    let ghost d0 = def@;
    let mut k: usize = 0;
    assert(evades@.take(0) =~= Seq::<(usize, usize, i32)>::empty());
    proof {
        lemma_logged_refl(old(log)@);
    }
    while k < evades.len()
        invariant
            k <= evades@.len(),
            evades@.len() <= pool_cap(),
            d0 == old(def)@,
            def@.len() == d0.len(),
            all_sane(d0),
            forall|e: int|
                0 <= e < evades@.len() ==> {
                    let (s, a, c) = #[trigger] evades@[e];
                    &&& s < d0.len()
                    &&& a < atk_names@.len()
                    &&& 1 <= c <= stat_cap() + 2
                    &&& c <= d0[s as int].tempo
                },
            forall|m: int|
                0 <= m < d0.len() ==> {
                    let t0 = d0[m].tempo;
                    &&& #[trigger] def@[m] == Actor { tempo: def@[m].tempo, ..d0[m] }
                    &&& def@[m].tempo <= t0
                    &&& def@[m].tempo >= (if t0 >= 1 { 1 - k * (stat_cap() + 2) } else { t0 as int })
                },
            forall|m: int| 0 <= m < d0.len() ==> #[trigger] def@[m].tempo == d0[m].tempo - evade_cost(evades@.take(k as int), m),
            atk_names@.len() == atk.len(),
            forall|i: int| 0 <= i < atk.len() ==> (#[trigger] atk_names@[i])@ == atk[i].name@,
            logged(old(log)@, log@, evade_lines(d0, atk, evades@.take(k as int))),
        decreases evades.len() - k,
    {
        let (s, a, c) = evades[k];
        let ghost l0 = log@;
        proof {
            assert(evades@.take(k + 1).drop_last() =~= evades@.take(k as int));
            assert(evades@.take(k + 1).last() == evades@[k as int]);
        }
        proof {
            assert(k * (stat_cap() + 2) <= 255 * (stat_cap() + 2)) by (nonlinear_arith)
                requires
                    k <= 255,
            ;
            assert((k + 1) * (stat_cap() + 2) == k * (stat_cap() + 2) + (stat_cap() + 2)) by (nonlinear_arith);
            assert(def@[s as int] == (Actor { tempo: def@[s as int].tempo, ..d0[s as int] }));
        }
        let cur = def[s].tempo;
        def[s].tempo = cur - c;
        let mut line = String::from_str(def[s].name.as_str());
        line.append(" avoids ");
        line.append(atk_names[a].as_str());
        line.append("'s strike (-");
        push_num(&mut line, c as u64);
        line.append("t).");
        log.push(line);
        proof {
            let ln = avoid_line(d0[s as int].name@, atk[a as int].name@, c);
            assert(atk_names@[a as int]@ == atk[a as int].name@);
            assert(line@ == ln);
            lemma_logged_trans(old(log)@, l0, log@, evade_lines(d0, atk, evades@.take(k as int)), seq![ln]);
        }
        k = k + 1;
    }
    proof {
        assert(k * (stat_cap() + 2) <= 256 * (stat_cap() + 2)) by (nonlinear_arith)
            requires
                k <= 256,
        ;
        assert forall|m: int| 0 <= m < d0.len() implies engaged(d0[m], #[trigger] def@[m]) by {
            assert(sane(d0[m]));
            assert(def@[m] == (Actor { tempo: def@[m].tempo, ..d0[m] }));
        }
        assert(evades@.take(k as int) =~= evades@);
        assert forall|m: int| 0 <= m < d0.len() implies #[trigger] def@[m] == (Actor {
            tempo: (d0[m].tempo - evade_cost(evades@, m)) as i32,
            ..d0[m]
        }) by {
            assert(def@[m] == (Actor { tempo: def@[m].tempo, ..d0[m] }));
        }
    }
}

/// `p1` is `p0` with the area Might banked on each body landed as one strike.
pub open spec fn aoe_landed(p0: Seq<Actor>, adds: Seq<u32>, p1: Seq<Actor>) -> bool {
    &&& p1.len() == p0.len()
    &&& forall|m: int|
        0 <= m < p0.len() ==> if adds[m] > 0 {
            struck(p0[m], #[trigger] p1[m], adds[m])
        } else {
            p1[m] == p0[m]
        }
}

/// The narration of the area strikes on the first `n` bodies of `p0`, becoming those of `p1`: one hit
/// line for each standing body with area Might banked.
pub open spec fn aoe_lines(p0: Seq<Actor>, adds: Seq<u32>, p1: Seq<Actor>, n: int) -> Seq<Seq<char>>
    decreases n,
{
    if n <= 0 {
        seq![]
    } else {
        let m = n - 1;
        aoe_lines(p0, adds, p1, m) + if adds[m] > 0 && !actor_down(p0[m]) {
            seq![hit_line("area fire"@, p0[m], p1[m], adds[m])]
        } else {
            seq![]
        }
    }
}

proof fn lemma_aoe_lines_frame(p0: Seq<Actor>, adds: Seq<u32>, p1: Seq<Actor>, p2: Seq<Actor>, n: int)
    requires
        forall|q: int| 0 <= q < n ==> p1[q] == p2[q],
    ensures
        aoe_lines(p0, adds, p1, n) == aoe_lines(p0, adds, p2, n),
    decreases n,
{
    if n > 0 {
        lemma_aoe_lines_frame(p0, adds, p1, p2, n - 1);
    }
}

/// Land the area Might banked on each standing defender as one strike.
fn apply_aoe(def: &mut [Actor], aoe_add: &Vec<u32>, log: &mut Vec<String>)
    requires
        all_sane(old(def)@),
        aoe_add@.len() == old(def)@.len(),
        forall|m: int| 0 <= m < aoe_add@.len() ==> #[trigger] aoe_add@[m] <= heap_cap(),
    ensures
        pool_engaged(old(def)@, final(def)@),
        aoe_landed(old(def)@, aoe_add@, final(def)@),
        logged(old(log)@, final(log)@, aoe_lines(old(def)@, aoe_add@, final(def)@, old(def)@.len() as int)),
{
    let ghost d0 = def@;
    proof {
        lemma_pool_engaged_refl(d0);
        lemma_logged_refl(old(log)@);
    }
    let mut m: usize = 0;
    while m < def.len()
        invariant
            m <= def@.len(),
            d0 == old(def)@,
            def@.len() == d0.len(),
            aoe_add@.len() == d0.len(),
            forall|q: int| 0 <= q < aoe_add@.len() ==> #[trigger] aoe_add@[q] <= heap_cap(),
            pool_engaged(d0, def@),
            forall|q: int| m <= q < d0.len() ==> #[trigger] def@[q] == d0[q],
            forall|q: int|
                0 <= q < m ==> if aoe_add@[q] > 0 {
                    struck(d0[q], #[trigger] def@[q], aoe_add@[q])
                } else {
                    def@[q] == d0[q]
                },
            logged(old(log)@, log@, aoe_lines(d0, aoe_add@, def@, m as int)),
        decreases def.len() - m,
    {
        let ghost l0 = log@;
        let ghost before = def@;
        if aoe_add[m] > 0 && !def[m].is_down() {
            let ghost cur = def@;
            let ghost a = cur[m as int];
            proof {
                lemma_pool_engaged_sane(d0, cur);
                assert(sane(a));
                lemma_struck_engaged_pre(a, aoe_add@[m as int]);
            }
            apply_strike(&mut def[m], Strike { raw: aoe_add[m] }, "area fire", log);
            proof {
                lemma_aoe_lines_frame(d0, aoe_add@, before, def@, m as int);
                lemma_logged_trans(
                    old(log)@,
                    l0,
                    log@,
                    aoe_lines(d0, aoe_add@, def@, m as int),
                    seq![hit_line("area fire"@, a, def@[m as int], aoe_add@[m as int])],
                );
                lemma_struck_engaged(a, def@[m as int], aoe_add@[m as int]);
                lemma_engaged_trans(d0[m as int], a, def@[m as int]);
                assert forall|q: int| 0 <= q < d0.len() implies engaged(d0[q], #[trigger] def@[q]) by {
                    if q != m as int {
                        assert(def@[q] == cur[q]);
                    }
                }
                assert forall|q: int|
                    0 <= q < m + 1 implies if aoe_add@[q] > 0 {
                        struck(d0[q], #[trigger] def@[q], aoe_add@[q])
                    } else {
                        def@[q] == d0[q]
                    } by {
                    if q != m as int {
                        assert(def@[q] == cur[q]);
                    }
                }
            }
        } else {
            proof {
                assert(aoe_lines(d0, aoe_add@, def@, m + 1) =~= aoe_lines(d0, aoe_add@, def@, m as int));
            }
        }
        m = m + 1;
    }
}

/// A sane body can take a strike of at most `0x8000_0000`.
proof fn lemma_struck_engaged_pre(a: Actor, raw: u32)
    requires
        sane(a),
        raw <= 0x8000_0000,
    ensures
        strikable(a, raw),
{
    lemma_sane_fits(a);
}

/// `ms` from the first occurrence of `s` on (empty when `s` does not occur).
pub open spec fn skip_to(ms: Seq<usize>, s: usize) -> Seq<usize>
    decreases ms.len(),
{
    if ms.len() == 0 {
        ms
    } else if ms[0] == s {
        ms
    } else {
        skip_to(ms.drop_first(), s)
    }
}

/// The cascade head of soaker `s`: its group's members from `s` on, or just `s` if it is not listed.
pub open spec fn head_of(group: Seq<usize>, s: usize) -> Seq<usize> {
    let t = skip_to(group_members(group, s as int), s);
    if t.len() == 0 {
        seq![s]
    } else {
        t
    }
}

proof fn lemma_skip_to(ms: Seq<usize>, s: usize, p: int)
    requires
        0 <= p <= ms.len(),
        forall|q: int| 0 <= q < p ==> ms[q] != s,
    ensures
        skip_to(ms, s) == skip_to(ms.skip(p), s),
    decreases p,
{
    if p > 0 {
        assert(ms.skip(p) =~= ms.drop_first().skip(p - 1));
        lemma_skip_to(ms.drop_first(), s, p - 1);
    } else {
        assert(ms.skip(0) =~= ms);
    }
}

/// The members of unit `s`'s group from `s` on (the cascade head: the soaker first, then the rest of
/// its group behind it); just `s` if it is not listed.
fn cascade_head(group: &Vec<usize>, s: usize, n: usize) -> (h: Vec<usize>)
    requires
        group@.len() == n,
        s < n,
        n <= usize::MAX,
    ensures
        h@ == head_of(group@, s),
        h@.len() <= n,
        forall|k: int| 0 <= k < h@.len() ==> h@[k] < n,
{
    let ms = group_of(group.as_slice(), s);
    proof {
        lemma_members(group@, s as int, n as int);
    }
    let mut p: usize = 0;
    while p < ms.len() && ms[p] != s
        invariant
            p <= ms@.len(),
            forall|q: int| 0 <= q < p ==> ms@[q] != s,
        decreases ms.len() - p,
    {
        p = p + 1;
    }
    proof {
        lemma_skip_to(ms@, s, p as int);
        if p < ms@.len() {
            assert(skip_to(ms@.skip(p as int), s) == ms@.skip(p as int));
        } else {
            assert(ms@.skip(p as int) =~= Seq::<usize>::empty());
        }
    }
    let mut h: Vec<usize> = Vec::new();
    if p >= ms.len() {
        h.push(s);
        proof {
            assert(h@ =~= seq![s]);
        }
    } else {
        let mut q: usize = p;
        while q < ms.len()
            invariant
                p <= q <= ms@.len(),
                ms@.len() <= n,
                forall|k: int| 0 <= k < ms@.len() ==> ms@[k] < n,
                h@ == ms@.subrange(p as int, q as int),
            decreases ms.len() - q,
        {
            h.push(ms[q]);
            q = q + 1;
            assert(h@ =~= ms@.subrange(p as int, q as int));
        }
        proof {
            assert(h@ =~= ms@.skip(p as int));
        }
    }
    h
}

/// The spillover of the first `s` soakers' aimed Might on `p0`, ending at `p1` and narrated by
/// `lines`: each soaker with Might banked cascades it down its head, in soaker order.
pub open spec fn spilled(
    p0: Seq<Actor>,
    group: Seq<usize>,
    adds: Seq<u32>,
    s: nat,
    p1: Seq<Actor>,
    lines: Seq<Seq<char>>,
) -> bool
    decreases s,
{
    if s == 0 {
        p1 == p0 && lines.len() == 0
    } else if adds[s - 1] > 0 {
        exists|mid: Seq<Actor>, k: int|
            0 <= k <= lines.len() && spilled(p0, group, adds, (s - 1) as nat, mid, lines.take(k))
                && #[trigger] cascaded(mid, head_of(group, (s - 1) as usize), adds[s - 1], "strike"@, p1, lines.skip(k))
    } else {
        spilled(p0, group, adds, (s - 1) as nat, p1, lines)
    }
}

proof fn lemma_spilled_next(
    p0: Seq<Actor>,
    group: Seq<usize>,
    adds: Seq<u32>,
    s: nat,
    mid: Seq<Actor>,
    p1: Seq<Actor>,
    l1: Seq<Seq<char>>,
    l2: Seq<Seq<char>>,
)
    requires
        spilled(p0, group, adds, s, mid, l1),
        adds[s as int] > 0 ==> cascaded(mid, head_of(group, s as usize), adds[s as int], "strike"@, p1, l2),
        adds[s as int] == 0 ==> p1 == mid && l2.len() == 0,
    ensures
        spilled(p0, group, adds, s + 1, p1, l1 + l2),
{
    let t = (s + 1) as nat;
    let ll = l1 + l2;
    assert((t - 1) as nat == s);
    if adds[s as int] > 0 {
        let k = l1.len() as int;
        assert(ll.take(k) =~= l1);
        assert(ll.skip(k) =~= l2);
        assert(cascaded(mid, head_of(group, (t - 1) as usize), adds[t - 1], "strike"@, p1, ll.skip(k)));
    } else {
        assert(ll =~= l1);
    }
}

/// Spill each soaker's aimed Might down its group, front to back.
fn apply_spill(def: &mut [Actor], def_grp: &Vec<usize>, spill_add: &Vec<u32>, log: &mut Vec<String>)
    requires
        all_sane(old(def)@),
        old(def)@.len() <= pool_cap(),
        def_grp@.len() == old(def)@.len(),
        spill_add@.len() == old(def)@.len(),
        forall|m: int| 0 <= m < spill_add@.len() ==> #[trigger] spill_add@[m] <= heap_cap(),
    ensures
        pool_engaged(old(def)@, final(def)@),
        exists|lines: Seq<Seq<char>>|
            #[trigger] spilled(old(def)@, def_grp@, spill_add@, old(def)@.len(), final(def)@, lines) && logged(
                old(log)@,
                final(log)@,
                lines,
            ),
{
    let ghost d0 = def@;
    let ghost mut acc: Seq<Seq<char>> = seq![];
    let n = def.len();
    proof {
        lemma_pool_engaged_refl(d0);
        lemma_logged_refl(old(log)@);
    }
    let mut s: usize = 0;
    while s < n
        invariant
            s <= n,
            n == d0.len(),
            n <= pool_cap(),
            d0 == old(def)@,
            def@.len() == n,
            def_grp@.len() == n,
            spill_add@.len() == n,
            forall|q: int| 0 <= q < spill_add@.len() ==> #[trigger] spill_add@[q] <= heap_cap(),
            pool_engaged(d0, def@),
            spilled(d0, def_grp@, spill_add@, s as nat, def@, acc),
            logged(old(log)@, log@, acc),
        decreases n - s,
    {
        if spill_add[s] > 0 {
            let head = cascade_head(def_grp, s, n);
            let ghost cur = def@;
            let ghost l0 = log@;
            proof {
                lemma_pool_engaged_sane(d0, cur);
            }
            cascade(def, &head, spill_add[s], "strike", log);
            proof {
                lemma_pool_engaged_trans(d0, cur, def@);
                let l2 = choose|l: Seq<Seq<char>>|
                    #[trigger] cascaded(cur, head@, spill_add@[s as int], "strike"@, def@, l) && logged(l0, log@, l);
                lemma_spilled_next(d0, def_grp@, spill_add@, s as nat, cur, def@, acc, l2);
                lemma_logged_trans(old(log)@, l0, log@, acc, l2);
                acc = acc + l2;
            }
        } else {
            proof {
                lemma_spilled_next(d0, def_grp@, spill_add@, s as nat, def@, def@, acc, seq![]);
                assert(acc + seq![] =~= acc);
            }
        }
        s = s + 1;
    }
}

/// One Thorns reflection: `victim`'s Thorns strike attacker `a` of `p0` (no-op without Thorns, or on a
/// downed attacker); the rest of the pool is untouched.
pub open spec fn thorn_hit(p0: Seq<Actor>, victim: Actor, a: int, p1: Seq<Actor>) -> bool {
    let power = token_total(victim.tokens@, Tally::Thorns) as u32;
    &&& p1.len() == p0.len()
    &&& forall|i: int| 0 <= i < p0.len() && i != a ==> p1[i] == p0[i]
    &&& if power == 0 || actor_down(p0[a]) {
        p1[a] == p0[a]
    } else {
        struck(p0[a], p1[a], power)
    }
}

/// The narration of one Thorns reflection (none when nothing is reflected).
pub open spec fn thorn_lines(p0: Seq<Actor>, victim: Actor, a: int, p1: Seq<Actor>) -> Seq<Seq<char>> {
    let power = token_total(victim.tokens@, Tally::Thorns) as u32;
    if power == 0 || actor_down(p0[a]) {
        seq![]
    } else {
        seq![thorns_line(victim.name@, power, p0[a].name@), hit_line("thorns"@, p0[a], p1[a], power)]
    }
}

/// The Thorns of every landed aimed blow in `hits` (soaker, attacker), reflected in order and
/// narrated by `lines`.
pub open spec fn thorned(
    p0: Seq<Actor>,
    def: Seq<Actor>,
    hits: Seq<(usize, usize)>,
    p1: Seq<Actor>,
    lines: Seq<Seq<char>>,
) -> bool
    decreases hits.len(),
{
    if hits.len() == 0 {
        p1 == p0 && lines.len() == 0
    } else {
        exists|mid: Seq<Actor>|
            #![trigger thorn_hit(mid, def[hits.last().0 as int], hits.last().1 as int, p1)]
            {
                let v = def[hits.last().0 as int];
                let a = hits.last().1 as int;
                let tl = thorn_lines(mid, v, a, p1);
                &&& tl.len() <= lines.len()
                &&& thorned(p0, def, hits.drop_last(), mid, lines.take(lines.len() - tl.len()))
                &&& thorn_hit(mid, v, a, p1)
                &&& lines.skip(lines.len() - tl.len()) == tl
            }
    }
}

proof fn lemma_thorned_next(
    p0: Seq<Actor>,
    def: Seq<Actor>,
    hits: Seq<(usize, usize)>,
    k: int,
    mid: Seq<Actor>,
    p1: Seq<Actor>,
    l1: Seq<Seq<char>>,
)
    requires
        0 <= k < hits.len(),
        thorned(p0, def, hits.take(k), mid, l1),
        thorn_hit(mid, def[hits[k].0 as int], hits[k].1 as int, p1),
    ensures
        thorned(p0, def, hits.take(k + 1), p1, l1 + thorn_lines(mid, def[hits[k].0 as int], hits[k].1 as int, p1)),
{
    let t = hits.take(k + 1);
    let tl = thorn_lines(mid, def[hits[k].0 as int], hits[k].1 as int, p1);
    let ll = l1 + tl;
    assert(t.drop_last() =~= hits.take(k));
    assert(t.last() == hits[k]);
    assert(ll.take(ll.len() - tl.len()) =~= l1);
    assert(ll.skip(ll.len() - tl.len()) =~= tl);
}

/// Thorns: each soaker that took an aimed blow reflects its Thorns onto its attacker.
fn apply_thorns(atk: &mut [Actor], def: &[Actor], hits: &Vec<(usize, usize)>, log: &mut Vec<String>)
    requires
        all_sane(old(atk)@),
        all_sane(def@),
        forall|e: int| 0 <= e < hits@.len() ==> (#[trigger] hits@[e]).0 < def@.len() && hits@[e].1 < old(atk)@.len(),
    ensures
        pool_engaged(old(atk)@, final(atk)@),
        exists|lines: Seq<Seq<char>>|
            #[trigger] thorned(old(atk)@, def@, hits@, final(atk)@, lines) && logged(old(log)@, final(log)@, lines),
{
    let ghost a0 = atk@;
    let ghost mut acc: Seq<Seq<char>> = seq![];
    proof {
        lemma_pool_engaged_refl(a0);
        lemma_logged_refl(old(log)@);
        assert(hits@.take(0) =~= Seq::<(usize, usize)>::empty());
    }
    let mut k: usize = 0;
    while k < hits.len()
        invariant
            k <= hits@.len(),
            a0 == old(atk)@,
            atk@.len() == a0.len(),
            all_sane(def@),
            forall|e: int| 0 <= e < hits@.len() ==> (#[trigger] hits@[e]).0 < def@.len() && hits@[e].1 < a0.len(),
            pool_engaged(a0, atk@),
            thorned(a0, def@, hits@.take(k as int), atk@, acc),
            logged(old(log)@, log@, acc),
        decreases hits.len() - k,
    {
        let (s, a) = hits[k];
        let ghost cur = atk@;
        let ghost l0 = log@;
        let ghost x = cur[a as int];
        proof {
            assert(hits@[k as int].0 < def@.len() && hits@[k as int].1 < a0.len());
            lemma_pool_engaged_sane(a0, cur);
            assert(sane(x));
            assert(sane(def@[s as int]));
            lemma_struck_engaged_pre(x, token_total(def@[s as int].tokens@, Tally::Thorns) as u32);
        }
        reflect_thorns(&mut atk[a], &def[s], log);
        proof {
            let y = atk@[a as int];
            if token_total(def@[s as int].tokens@, Tally::Thorns) as u32 != 0 && !actor_down(x) {
                lemma_struck_engaged(x, y, token_total(def@[s as int].tokens@, Tally::Thorns) as u32);
            } else {
                lemma_engaged_refl(x);
            }
            lemma_engaged_trans(a0[a as int], x, y);
            assert forall|q: int| 0 <= q < a0.len() implies engaged(a0[q], #[trigger] atk@[q]) by {
                if q != a as int {
                    assert(atk@[q] == cur[q]);
                }
            }
            assert(thorn_hit(cur, def@[s as int], a as int, atk@));
            lemma_thorned_next(a0, def@, hits@, k as int, cur, atk@, acc);
            let tl = thorn_lines(cur, def@[s as int], a as int, atk@);
            if token_total(def@[s as int].tokens@, Tally::Thorns) as u32 == 0 || actor_down(x) {
                assert(log@ == l0);
                lemma_logged_refl(l0);
                assert(tl =~= seq![]);
            } else {
                assert(tl =~= seq![
                    thorns_line(def@[s as int].name@, token_total(def@[s as int].tokens@, Tally::Thorns) as u32, x.name@),
                    hit_line("thorns"@, x, atk@[a as int], token_total(def@[s as int].tokens@, Tally::Thorns) as u32),
                ]);
            }
            lemma_logged_trans(old(log)@, l0, log@, acc, tl);
            acc = acc + tl;
        }
        k = k + 1;
    }
    proof {
        assert(hits@.take(k as int) =~= hits@);
    }
}

/// One strike-back on the pools `(a0, d0)`: when soaker `s` may answer attacker `a`'s melee blow, it
/// spends a Tempo and strikes back with its base strike; otherwise nothing moves.
pub open spec fn back_hit(a0: Seq<Actor>, d0: Seq<Actor>, s: int, a: int, a1: Seq<Actor>, d1: Seq<Actor>) -> bool {
    if should_strike_back_spec(d0[s], a0[a]) {
        let ds = Actor { tempo: (d0[s].tempo - 1) as i32, ..d0[s] };
        &&& d1 == d0.update(s, ds)
        &&& a1.len() == a0.len()
        &&& forall|i: int| 0 <= i < a0.len() && i != a ==> a1[i] == a0[i]
        &&& struck(a0[a], a1[a], base_strike_of(ds))
    } else {
        &&& a1 == a0
        &&& d1 == d0
    }
}

/// The narration of one strike-back (none when the soaker may not answer).
pub open spec fn back_lines(a0: Seq<Actor>, d0: Seq<Actor>, s: int, a: int, a1: Seq<Actor>) -> Seq<Seq<char>> {
    if should_strike_back_spec(d0[s], a0[a]) {
        let ds = Actor { tempo: (d0[s].tempo - 1) as i32, ..d0[s] };
        seq![hit_line(d0[s].name@, a0[a], a1[a], base_strike_of(ds))]
    } else {
        seq![]
    }
}

/// The strike-backs of every melee blow in `sbacks` (soaker, attacker), answered in order and
/// narrated by `lines`.
pub open spec fn struck_back(
    a0: Seq<Actor>,
    d0: Seq<Actor>,
    sbacks: Seq<(usize, usize)>,
    a1: Seq<Actor>,
    d1: Seq<Actor>,
    lines: Seq<Seq<char>>,
) -> bool
    decreases sbacks.len(),
{
    if sbacks.len() == 0 {
        a1 == a0 && d1 == d0 && lines.len() == 0
    } else {
        exists|ma: Seq<Actor>, md: Seq<Actor>|
            #![trigger back_hit(ma, md, sbacks.last().0 as int, sbacks.last().1 as int, a1, d1)]
            {
                let s = sbacks.last().0 as int;
                let a = sbacks.last().1 as int;
                let bl = back_lines(ma, md, s, a, a1);
                &&& bl.len() <= lines.len()
                &&& struck_back(a0, d0, sbacks.drop_last(), ma, md, lines.take(lines.len() - bl.len()))
                &&& back_hit(ma, md, s, a, a1, d1)
                &&& lines.skip(lines.len() - bl.len()) == bl
            }
    }
}

proof fn lemma_struck_back_next(
    a0: Seq<Actor>,
    d0: Seq<Actor>,
    sbacks: Seq<(usize, usize)>,
    k: int,
    ma: Seq<Actor>,
    md: Seq<Actor>,
    a1: Seq<Actor>,
    d1: Seq<Actor>,
    l1: Seq<Seq<char>>,
)
    requires
        0 <= k < sbacks.len(),
        struck_back(a0, d0, sbacks.take(k), ma, md, l1),
        back_hit(ma, md, sbacks[k].0 as int, sbacks[k].1 as int, a1, d1),
    ensures
        struck_back(
            a0,
            d0,
            sbacks.take(k + 1),
            a1,
            d1,
            l1 + back_lines(ma, md, sbacks[k].0 as int, sbacks[k].1 as int, a1),
        ),
{
    let t = sbacks.take(k + 1);
    let bl = back_lines(ma, md, sbacks[k].0 as int, sbacks[k].1 as int, a1);
    let ll = l1 + bl;
    assert(t.drop_last() =~= sbacks.take(k));
    assert(t.last() == sbacks[k]);
    assert(ll.take(ll.len() - bl.len()) =~= l1);
    assert(ll.skip(ll.len() - bl.len()) =~= bl);
}

/// One strike-back: when `def[s]` may answer `atk[a]`'s melee blow, it spends a Tempo and strikes back.
fn strike_back_one(atk: &mut [Actor], def: &mut [Actor], s: usize, a: usize, log: &mut Vec<String>)
    requires
        all_sane(old(atk)@),
        all_sane(old(def)@),
        s < old(def)@.len(),
        a < old(atk)@.len(),
    ensures
        pool_engaged(old(atk)@, final(atk)@),
        pool_engaged(old(def)@, final(def)@),
        back_hit(old(atk)@, old(def)@, s as int, a as int, final(atk)@, final(def)@),
        logged(old(log)@, final(log)@, back_lines(old(atk)@, old(def)@, s as int, a as int, final(atk)@)),
{
    let ghost ca = atk@;
    let ghost cd = def@;
    proof {
        lemma_pool_engaged_refl(ca);
        lemma_pool_engaged_refl(cd);
        assert(sane(ca[a as int]));
        assert(sane(cd[s as int]));
        lemma_sane_fits(ca[a as int]);
        lemma_sane_fits(cd[s as int]);
    }
    if should_strike_back(&def[s], &atk[a]) {
        let t = def[s].tempo;
        def[s].tempo = t - 1;
        let ghost ds = def@[s as int];
        proof {
            assert(ds == (Actor { tempo: (t - 1) as i32, ..cd[s as int] }));
            assert(engaged(cd[s as int], ds));
            assert forall|q: int| 0 <= q < cd.len() implies engaged(cd[q], #[trigger] def@[q]) by {
                if q != s as int {
                    assert(def@[q] == cd[q]);
                    assert(sane(cd[q]));
                }
            }
            lemma_sane_fits(ds);
        }
        let snap = snapshot(&def[s]);
        let sn = def[s].name.clone();
        let ghost x = ca[a as int];
        proof {
            lemma_struck_engaged_pre(x, snap.raw);
        }
        apply_strike(&mut atk[a], snap, sn.as_str(), log);
        proof {
            lemma_struck_engaged(x, atk@[a as int], snap.raw);
            assert forall|q: int| 0 <= q < ca.len() implies engaged(ca[q], #[trigger] atk@[q]) by {
                if q != a as int {
                    assert(atk@[q] == ca[q]);
                    assert(sane(ca[q]));
                }
            }
            assert(def@ =~= cd.update(s as int, ds));
        }
    } else {
        proof {
            lemma_logged_refl(log@);
        }
    }
}

/// Strike-backs: each melee blow's soaker, when it may, spends a Tempo to strike its attacker back.
fn apply_strike_backs(atk: &mut [Actor], def: &mut [Actor], sbacks: &Vec<(usize, usize)>, log: &mut Vec<String>)
    requires
        all_sane(old(atk)@),
        all_sane(old(def)@),
        forall|e: int|
            0 <= e < sbacks@.len() ==> (#[trigger] sbacks@[e]).0 < old(def)@.len() && sbacks@[e].1 < old(atk)@.len(),
    ensures
        pool_engaged(old(atk)@, final(atk)@),
        pool_engaged(old(def)@, final(def)@),
        exists|lines: Seq<Seq<char>>|
            #[trigger] struck_back(old(atk)@, old(def)@, sbacks@, final(atk)@, final(def)@, lines) && logged(
                old(log)@,
                final(log)@,
                lines,
            ),
{
    let ghost a0 = atk@;
    let ghost d0 = def@;
    let ghost mut acc: Seq<Seq<char>> = seq![];
    proof {
        lemma_pool_engaged_refl(a0);
        lemma_pool_engaged_refl(d0);
        lemma_logged_refl(old(log)@);
        assert(sbacks@.take(0) =~= Seq::<(usize, usize)>::empty());
    }
    let mut k: usize = 0;
    while k < sbacks.len()
        invariant
            k <= sbacks@.len(),
            a0 == old(atk)@,
            d0 == old(def)@,
            atk@.len() == a0.len(),
            def@.len() == d0.len(),
            forall|e: int|
                0 <= e < sbacks@.len() ==> (#[trigger] sbacks@[e]).0 < d0.len() && sbacks@[e].1 < a0.len(),
            pool_engaged(a0, atk@),
            pool_engaged(d0, def@),
            struck_back(a0, d0, sbacks@.take(k as int), atk@, def@, acc),
            logged(old(log)@, log@, acc),
        decreases sbacks.len() - k,
    {
        let (s, a) = sbacks[k];
        let ghost ca = atk@;
        let ghost cd = def@;
        let ghost l0 = log@;
        proof {
            assert(sbacks@[k as int].0 < d0.len() && sbacks@[k as int].1 < a0.len());
            lemma_pool_engaged_sane(a0, ca);
            lemma_pool_engaged_sane(d0, cd);
        }
        strike_back_one(atk, def, s, a, log);
        proof {
            lemma_pool_engaged_trans(a0, ca, atk@);
            lemma_pool_engaged_trans(d0, cd, def@);
            lemma_struck_back_next(a0, d0, sbacks@, k as int, ca, cd, atk@, def@, acc);
            let bl = back_lines(ca, cd, s as int, a as int, atk@);
            lemma_logged_trans(old(log)@, l0, log@, acc, bl);
            acc = acc + bl;
        }
        k = k + 1;
    }
    proof {
        assert(sbacks@.take(k as int) =~= sbacks@);
    }
}


/// The names of a pool's bodies, in order.
fn names_of(pool: &[Actor]) -> (v: Vec<String>)
    ensures
        v@.len() == pool@.len(),
        forall|i: int| 0 <= i < pool@.len() ==> (#[trigger] v@[i])@ == pool@[i].name@,
{
    let mut v: Vec<String> = Vec::new();
    let mut i: usize = 0;
    while i < pool.len()
        invariant
            i <= pool@.len(),
            v@.len() == i,
            forall|q: int| 0 <= q < i ==> (#[trigger] v@[q])@ == pool@[q].name@,
        decreases pool.len() - i,
    {
        v.push(pool[i].name.clone());
        i = i + 1;
    }
    v
}

/// One side's committed strikes `decls` applied from pools `(a0, d0)` to `(a1, d1)`, narrated by
/// `lines`: the blows sorted on the defenders as they stand, evades paid, area Might landed, aimed
/// Might spilled down each struck group, Thorns reflected, strike-backs answered — in that order, each
/// narrating in turn.
pub open spec fn side_applied(
    a0: Seq<Actor>,
    d0: Seq<Actor>,
    def_int: Seq<Intention>,
    def_grp: Seq<usize>,
    decls: Seq<Decl>,
    a1: Seq<Actor>,
    d1: Seq<Actor>,
    lines: Seq<Seq<char>>,
) -> bool {
    let b = blows_of(d0, def_int, def_grp, decls);
    exists|de: Seq<Actor>, da: Seq<Actor>, ds: Seq<Actor>, at: Seq<Actor>, ls: Seq<Seq<char>>, lt: Seq<Seq<char>>, lb: Seq<Seq<char>>|
        #![trigger evaded(d0, b.2, de), aoe_landed(de, b.0, da), spilled(da, def_grp, b.1, da.len(), ds, ls), thorned(a0, ds, b.3, at, lt), struck_back(at, ds, b.4, a1, d1, lb)]
        {
            &&& evaded(d0, b.2, de)
            &&& aoe_landed(de, b.0, da)
            &&& spilled(da, def_grp, b.1, da.len(), ds, ls)
            &&& thorned(a0, ds, b.3, at, lt)
            &&& struck_back(at, ds, b.4, a1, d1, lb)
            &&& lines == evade_lines(d0, a0, b.2) + aoe_lines(de, b.0, da, de.len() as int) + ls + lt + lb
        }
}

/// **Apply** one side's committed strikes onto the other: evades pay their bid; area Might lands on
/// every member of the struck group first (unevadable, no spillover); then aimed Might cascades front
/// to back down each struck group. Thorns reflect onto each attacker that landed an aimed blow, and
/// melee soakers strike back. The Might of each strike was captured at declare, so a unit killed
/// earlier this cycle still lands its committed blow.
fn apply_side(
    atk: &mut [Actor],
    def: &mut [Actor],
    def_int: &Vec<Intention>,
    def_grp: &Vec<usize>,
    decls: &Vec<Decl>,
    log: &mut Vec<String>,
)
    requires
        all_sane(old(atk)@),
        all_sane(old(def)@),
        old(def)@.len() <= pool_cap(),
        def_grp@.len() == old(def)@.len(),
        decls@.len() <= pool_cap(),
        forall|k: int| 0 <= k < decls@.len() ==> decl_fits(#[trigger] decls@[k], old(atk)@.len(), old(def)@.len()),
    ensures
        pool_engaged(old(atk)@, final(atk)@),
        pool_engaged(old(def)@, final(def)@),
        exists|lines: Seq<Seq<char>>|
            #[trigger] side_applied(old(atk)@, old(def)@, def_int@, def_grp@, decls@, final(atk)@, final(def)@, lines)
                && logged(old(log)@, final(log)@, lines),
{
    let ghost a0 = atk@;
    let ghost d0 = def@;
    let ghost g0 = log@;
    let an = atk.len();
    let b = collect_blows(def, def_int, def_grp, decls, an);
    let atk_names = names_of(atk);
    apply_evades(def, &b.evades, &atk_names, log, Ghost(a0));
    let ghost d1 = def@;
    let ghost g1 = log@;
    proof {
        lemma_pool_engaged_sane(d0, d1);
        assert forall|m: int| 0 <= m < b.aoe_add@.len() implies #[trigger] b.aoe_add@[m] <= heap_cap() by {
            assert(decls@.len() * 3 * stat_cap() <= 256 * 3 * stat_cap()) by (nonlinear_arith)
                requires
                    decls@.len() <= 256,
            ;
        }
        assert forall|m: int| 0 <= m < b.spill_add@.len() implies #[trigger] b.spill_add@[m] <= heap_cap() by {
            assert(decls@.len() * 3 * stat_cap() <= 256 * 3 * stat_cap()) by (nonlinear_arith)
                requires
                    decls@.len() <= 256,
            ;
        }
    }
    apply_aoe(def, &b.aoe_add, log);
    let ghost d2 = def@;
    let ghost g2 = log@;
    proof {
        lemma_pool_engaged_sane(d1, d2);
    }
    apply_spill(def, def_grp, &b.spill_add, log);
    let ghost d3 = def@;
    let ghost g3 = log@;
    proof {
        lemma_pool_engaged_sane(d2, d3);
        lemma_pool_engaged_trans(d0, d1, d2);
        lemma_pool_engaged_trans(d0, d2, d3);
    }
    apply_thorns(atk, def, &b.hits, log);
    let ghost a1 = atk@;
    let ghost g4 = log@;
    proof {
        lemma_pool_engaged_sane(a0, a1);
    }
    apply_strike_backs(atk, def, &b.sbacks, log);
    proof {
        lemma_pool_engaged_trans(a0, a1, atk@);
        lemma_pool_engaged_trans(d0, d3, def@);
        assert(d2.len() == d0.len());
        let bt = blows_of(d0, def_int@, def_grp@, decls@);
        assert(bt.0 == b.aoe_add@ && bt.1 == b.spill_add@ && bt.2 == b.evades@ && bt.3 == b.hits@ && bt.4 == b.sbacks@);
        let ls = choose|l: Seq<Seq<char>>|
            #[trigger] spilled(d2, def_grp@, b.spill_add@, d2.len(), d3, l) && logged(g2, g3, l);
        let lt = choose|l: Seq<Seq<char>>| #[trigger] thorned(a0, d3, b.hits@, a1, l) && logged(g3, g4, l);
        let lb = choose|l: Seq<Seq<char>>|
            #[trigger] struck_back(a1, d3, b.sbacks@, atk@, def@, l) && logged(g4, log@, l);
        let le = evade_lines(d0, a0, bt.2);
        let la = aoe_lines(d1, bt.0, d2, d1.len() as int);
        lemma_logged_trans(g0, g1, g2, le, la);
        lemma_logged_trans(g0, g2, g3, le + la, ls);
        lemma_logged_trans(g0, g3, g4, le + la + ls, lt);
        lemma_logged_trans(g0, g4, log@, le + la + ls + lt, lb);
        assert(evaded(d0, bt.2, d1) && aoe_landed(d1, bt.0, d2) && spilled(d2, def_grp@, bt.1, d2.len(), d3, ls)
            && thorned(a0, d3, bt.3, a1, lt) && struck_back(a1, d3, bt.4, atk@, def@, lb));
        assert(side_applied(a0, d0, def_int@, def_grp@, decls@, atk@, def@, le + la + ls + lt + lb));
    }
}


/// A legal declared strike carries numbers within the apply caps.
proof fn lemma_decl_fits(
    d: Decl,
    step_idx: usize,
    atk: Seq<Actor>,
    atk_int: Seq<Intention>,
    def: Seq<Actor>,
    def_int: Seq<Intention>,
)
    requires
        decl_ok(d, step_idx, atk, atk_int, def, def_int),
        all_sane(atk),
    ensures
        decl_fits(d, atk.len(), def.len()),
{
    assert(sane(atk[d.ai as int]));
    lemma_sane_fits(atk[d.ai as int]);
}

/// The spendable Tempo left on the whole board.
pub open spec fn tempo_left(s: State) -> nat {
    tempo_pos_sum(s.heroes@) + tempo_pos_sum(s.creatures@)
}

/// `s1` is `s0` after one engagement's blows: only the pools (engaged) and the log (extended) moved.
pub open spec fn board_engaged(s0: State, s1: State) -> bool {
    &&& s1 == State { heroes: s1.heroes, creatures: s1.creatures, log: s1.log, ..s0 }
    &&& pool_engaged(s0.heroes@, s1.heroes@)
    &&& pool_engaged(s0.creatures@, s1.creatures@)
    &&& log_extends(s0.log@, s1.log@)
}

/// A pool with each body's Tempo replaced by the declare pass's working Tempo.
pub open spec fn spent(p: Seq<Actor>, w: Seq<i32>) -> Seq<Actor> {
    Seq::new(p.len(), |m: int| Actor { tempo: w[m], ..p[m] })
}

/// One engagement-cycle from `s0` to `s1` at engagement `step`: the heroes declare, then the
/// creatures declare against the heroes as they now stand; if neither committed a strike the board is
/// untouched and the engagement is exhausted, else the heroes' strikes apply, then the creatures'.
pub open spec fn cycled(s0: State, step: usize, s1: State, progressed: bool) -> bool {
    let hi = s0.plan.hero_intent@;
    let fi = s0.plan.foe_intent@;
    let hg = s0.plan.hero_group@;
    let fg = s0.plan.foe_group@;
    let dh = declared(step, s0.heroes@, hi, hg, s0.creatures@, fi, s0.heroes@.len());
    let h1 = spent(s0.heroes@, dh.1);
    let dc = declared(step, s0.creatures@, fi, fg, h1, hi, s0.creatures@.len());
    let c1 = spent(s0.creatures@, dc.1);
    if dh.0.len() == 0 && dc.0.len() == 0 {
        !progressed && s1 == s0
    } else {
        &&& progressed
        &&& s1 == State { heroes: s1.heroes, creatures: s1.creatures, log: s1.log, ..s0 }
        &&& exists|h2: Seq<Actor>, c2: Seq<Actor>, l1: Seq<Seq<char>>, l2: Seq<Seq<char>>|
            #![trigger side_applied(h1, c1, fi, fg, dh.0, h2, c2, l1), side_applied(c2, h2, hi, hg, dc.0, s1.creatures@, s1.heroes@, l2)]
            {
                &&& side_applied(h1, c1, fi, fg, dh.0, h2, c2, l1)
                &&& side_applied(c2, h2, hi, hg, dc.0, s1.creatures@, s1.heroes@, l2)
                &&& logged(s0.log@, s1.log@, l1 + l2)
            }
        &&& log_extends(s0.log@, s1.log@)
    }
}

/// Resolve **one engagement-cycle** at engagement `step_idx`: both sides declare against the same
/// pre-apply board (a declare spends only the declaring side's Tempo and reads only health), then both
/// sides' strikes apply. Returns `true` when a side committed a strike (the engagement cycles again)
/// and `false`, leaving the board untouched, when the engagement is exhausted. Every committed cycle
/// spends Tempo, so the board's spendable Tempo strictly falls.
fn resolve_engagement_cycle(state: &mut State, step_idx: usize) -> (progressed: bool)
    requires
        board_ok(*old(state)),
        step_idx < schedule_spec().len(),
    ensures
        board_ok(*final(state)),
        board_engaged(*old(state), *final(state)),
        cycled(*old(state), step_idx, *final(state), progressed),
        !progressed ==> *final(state) == *old(state),
        progressed ==> tempo_left(*final(state)) < tempo_left(*old(state)),
{
    let ghost s0 = *state;
    let decls_0 = declare_side(state, 0, step_idx);
    let ghost s1 = *state;
    proof {
        lemma_pool_engaged_sane(s0.heroes@, s1.heroes@);
    }
    let decls_1 = declare_side(state, 1, step_idx);
    let ghost s2 = *state;
    proof {
        lemma_pool_engaged_sane(s1.creatures@, s2.creatures@);
        lemma_engaged_pos_sum(s0.heroes@, s1.heroes@);
        lemma_engaged_pos_sum(s1.creatures@, s2.creatures@);
        lemma_pool_engaged_refl(s0.creatures@);
        lemma_pool_engaged_refl(s2.heroes@);
        lemma_pool_engaged_trans(s0.creatures@, s1.creatures@, s2.creatures@);
    }
    if decls_0.len() == 0 && decls_1.len() == 0 {
        proof {
            lemma_pool_engaged_refl(s0.heroes@);
            assert(s1.heroes@ =~= spent(s0.heroes@, declare_of(s0, 0, step_idx).1));
        }
        return false;
    }
    proof {
        assert forall|k: int| 0 <= k < decls_0@.len() implies decl_fits(
            #[trigger] decls_0@[k],
            s2.heroes@.len(),
            s2.creatures@.len(),
        ) by {
            lemma_decl_fits(decls_0@[k], step_idx, s0.heroes@, s0.plan.hero_intent@, s0.creatures@, s0.plan.foe_intent@);
        }
        assert forall|k: int| 0 <= k < decls_1@.len() implies decl_fits(
            #[trigger] decls_1@[k],
            s2.creatures@.len(),
            s2.heroes@.len(),
        ) by {
            lemma_decl_fits(decls_1@[k], step_idx, s1.creatures@, s1.plan.foe_intent@, s1.heroes@, s1.plan.hero_intent@);
        }
    }
    let mut log: Vec<String> = Vec::new();
    std::mem::swap(&mut log, &mut state.log);
    let ghost g0 = log@;
    apply_side(
        state.heroes.as_mut_slice(),
        state.creatures.as_mut_slice(),
        &state.plan.foe_intent,
        &state.plan.foe_group,
        &decls_0,
        &mut log,
    );
    let ghost s3 = *state;
    let ghost g1 = log@;
    proof {
        lemma_pool_engaged_sane(s2.heroes@, s3.heroes@);
        lemma_pool_engaged_sane(s2.creatures@, s3.creatures@);
    }
    apply_side(
        state.creatures.as_mut_slice(),
        state.heroes.as_mut_slice(),
        &state.plan.hero_intent,
        &state.plan.hero_group,
        &decls_1,
        &mut log,
    );
    std::mem::swap(&mut log, &mut state.log);
    proof {
        let s4 = *state;
        lemma_pool_engaged_trans(s2.heroes@, s3.heroes@, s4.heroes@);
        lemma_pool_engaged_trans(s2.creatures@, s3.creatures@, s4.creatures@);
        lemma_pool_engaged_trans(s0.heroes@, s2.heroes@, s4.heroes@);
        lemma_pool_engaged_trans(s0.creatures@, s2.creatures@, s4.creatures@);
        lemma_pool_engaged_sane(s0.heroes@, s4.heroes@);
        lemma_pool_engaged_sane(s0.creatures@, s4.creatures@);
        lemma_engaged_pos_sum(s2.heroes@, s4.heroes@);
        lemma_engaged_pos_sum(s2.creatures@, s4.creatures@);
        assert(s1.heroes@ =~= spent(s0.heroes@, declare_of(s0, 0, step_idx).1));
        assert(s2.creatures@ =~= spent(s0.creatures@, declare_of(s1, 1, step_idx).1));
        let l1 = choose|l: Seq<Seq<char>>|
            #[trigger] side_applied(
                s2.heroes@,
                s2.creatures@,
                s0.plan.foe_intent@,
                s0.plan.foe_group@,
                decls_0@,
                s3.heroes@,
                s3.creatures@,
                l,
            ) && logged(g0, g1, l);
        let l2 = choose|l: Seq<Seq<char>>|
            #[trigger] side_applied(
                s3.creatures@,
                s3.heroes@,
                s0.plan.hero_intent@,
                s0.plan.hero_group@,
                decls_1@,
                s4.creatures@,
                s4.heroes@,
                l,
            ) && logged(g1, s4.log@, l);
        lemma_logged_trans(g0, g1, s4.log@, l1, l2);
        assert(side_applied(s2.heroes@, s2.creatures@, s0.plan.foe_intent@, s0.plan.foe_group@, decls_0@, s3.heroes@, s3.creatures@, l1));
        assert(side_applied(s3.creatures@, s3.heroes@, s0.plan.hero_intent@, s0.plan.hero_group@, decls_1@, s4.creatures@, s4.heroes@, l2));
        assert(logged(s0.log@, s4.log@, l1 + l2));
    }
    true
}


// ---------------------------------------------------------------------------------------------
// Stepping the schedule.
// ---------------------------------------------------------------------------------------------

/// The boundary fate of one body with its pile wiped: [`tallied`], then the pile cleared.
pub open spec fn crossed(a: Actor, c: Actor) -> bool {
    &&& c.defense.health_pile == 0
    &&& tallied(a, with_defense(c, Defense { health_pile: a.defense.health_pile, ..c.defense }))
}

/// Every body of `p1` is its body of `p0` across an engagement boundary.
pub open spec fn pool_crossed(p0: Seq<Actor>, p1: Seq<Actor>) -> bool {
    &&& p1.len() == p0.len()
    &&& forall|i: int| 0 <= i < p0.len() ==> crossed(p0[i], #[trigger] p1[i])
}

/// What a round may change of a body: its health and pile, its Tempo, its fallen flag (never
/// raised back) and its tokens (only cleared, and only on falling). Its cards' walls stay, and it
/// stays within the caps.
pub open spec fn round_kept(a: Actor, c: Actor) -> bool {
    &&& c == Actor { defense: c.defense, tempo: c.tempo, fallen: c.fallen, tokens: c.tokens, ..a }
    &&& same_walls(a.defense.health@, c.defense.health@)
    &&& a.fallen ==> c.fallen
    &&& c.tokens == a.tokens || (c.fallen && c.tokens@.len() == 0)
    &&& sane(c)
}

/// Every body of `p1` is its body of `p0`, kept by the round.
pub open spec fn pool_kept(p0: Seq<Actor>, p1: Seq<Actor>) -> bool {
    &&& p1.len() == p0.len()
    &&& forall|i: int| 0 <= i < p0.len() ==> round_kept(p0[i], #[trigger] p1[i])
}

proof fn lemma_tokens_cleared(a: Actor)
    requires
        a.tokens@.len() == 0,
    ensures
        forall|k: Tally| token_total(a.tokens@, k) == 0,
{
    assert forall|k: Tally| token_total(a.tokens@, k) == 0 by {
        reveal_with_fuel(token_total, 1);
    }
}

/// Crossing a boundary keeps a sane body sane, and within what a round may change.
pub proof fn lemma_crossed_kept(a: Actor, c: Actor)
    requires
        sane(a),
        crossed(a, c),
    ensures
        round_kept(a, c),
{
    let b = with_defense(c, Defense { health_pile: a.defense.health_pile, ..c.defense });
    if actor_down(a) && !a.fallen {
        if a.cannot_fall {
            let s = a.defense.health@;
            crate::stats::lemma_turn_up(s);
            assert(same_walls(s, c.defense.health@));
        } else {
            lemma_tokens_cleared(c);
            assert(c.tokens@.len() == 0);
        }
    }
    assert forall|i: int| 0 <= i < c.defense.health@.len() implies (#[trigger] c.defense.health@[i]).toughness
        <= stat_cap() by {
        assert(c.defense.health@[i].toughness == a.defense.health@[i].toughness);
    }
}

/// Engagement blows keep a body within what a round may change.
pub proof fn lemma_engaged_kept(a: Actor, c: Actor)
    requires
        engaged(a, c),
    ensures
        round_kept(a, c),
{
}

/// What a round keeps composes.
pub proof fn lemma_kept_trans(a: Actor, b: Actor, c: Actor)
    requires
        round_kept(a, b),
        round_kept(b, c),
    ensures
        round_kept(a, c),
{
}

proof fn lemma_pool_kept_refl(p: Seq<Actor>)
    requires
        all_sane(p),
    ensures
        pool_kept(p, p),
{
    assert forall|i: int| 0 <= i < p.len() implies round_kept(p[i], #[trigger] p[i]) by {
        assert(sane(p[i]));
    }
}

proof fn lemma_pool_kept_engaged(p0: Seq<Actor>, p1: Seq<Actor>, p2: Seq<Actor>)
    requires
        pool_kept(p0, p1),
        pool_engaged(p1, p2),
    ensures
        pool_kept(p0, p2),
        all_sane(p2),
{
    assert forall|i: int| 0 <= i < p0.len() implies round_kept(p0[i], #[trigger] p2[i]) by {
        assert(engaged(p1[i], p2[i]));
        lemma_engaged_kept(p1[i], p2[i]);
        lemma_kept_trans(p0[i], p1[i], p2[i]);
    }
    lemma_pool_engaged_sane(p1, p2);
}

proof fn lemma_pool_kept_crossed(p0: Seq<Actor>, p1: Seq<Actor>, p2: Seq<Actor>)
    requires
        pool_kept(p0, p1),
        pool_crossed(p1, p2),
    ensures
        pool_kept(p0, p2),
        all_sane(p2),
{
    assert forall|i: int| 0 <= i < p0.len() implies round_kept(p0[i], #[trigger] p2[i]) by {
        assert(round_kept(p0[i], p1[i]));
        assert(crossed(p1[i], p2[i]));
        lemma_crossed_kept(p1[i], p2[i]);
        lemma_kept_trans(p0[i], p1[i], p2[i]);
    }
    assert forall|i: int| 0 <= i < p2.len() implies sane(#[trigger] p2[i]) by {
        assert(round_kept(p0[i], p2[i]));
    }
}

/// Finalize deaths and wipe the piles of one pool at an engagement boundary.
fn cross_boundary(pool: &mut [Actor], log: &mut Vec<String>)
    ensures
        pool_crossed(old(pool)@, final(pool)@),
        logged(old(log)@, final(log)@, defeat_lines(old(pool)@)),
{
    let ghost p0 = pool@;
    tally(pool, log);
    let ghost p1 = pool@;
    clear_phase_piles(pool);
    proof {
        assert forall|i: int| 0 <= i < p0.len() implies crossed(p0[i], #[trigger] pool@[i]) by {
            assert(tallied(p0[i], p1[i]));
            assert(pool@[i] == with_defense(p1[i], Defense { health_pile: 0, ..p1[i].defense }));
            if actor_down(p0[i]) && !p0[i].fallen {
                if p0[i].cannot_fall {
                    assert(p1[i].defense.health_pile == p0[i].defense.health_pile);
                } else {
                    assert(p1[i].defense == p0[i].defense);
                }
            }
            assert(with_defense(
                pool@[i],
                Defense { health_pile: p0[i].defense.health_pile, ..pool@[i].defense },
            ) == p1[i]);
        }
    }
}

/// The cursor a step starts from: the one in flight, or a fresh one.
pub open spec fn cursor_of(s: State) -> Resolution {
    match s.resolution {
        Some(r) => r,
        None => Resolution { step: 0, stage: Stage::Cycle },
    }
}

/// One transition of the resolution from `s0` to `s1` (`more` while steps remain). Past the end of
/// the schedule the cursor clears. At a cycle, one engagement-cycle runs ([`cycled`]): if it
/// committed, the cursor stays; else it moves to the boundary. At the boundary, both pools cross it
/// ([`pool_crossed`]) and the cursor moves to the next engagement (clearing after the last).
pub open spec fn stepped(s0: State, s1: State, more: bool) -> bool {
    let cur = cursor_of(s0);
    &&& cur.step >= schedule_spec().len() ==> !more && s1 == State { resolution: None, ..s0 }
    &&& cur.step < schedule_spec().len() && cur.stage == Stage::Cycle ==> {
        &&& more
        &&& board_engaged(s0, State { resolution: s0.resolution, ..s1 })
        &&& exists|p: bool|
            #[trigger] cycled(s0, cur.step, State { resolution: s0.resolution, ..s1 }, p) && s1.resolution == (if p {
                Some(cur)
            } else {
                Some(Resolution { stage: Stage::Boundary, ..cur })
            })
        &&& (s1.resolution == Some(cur) && tempo_left(s1) < tempo_left(s0)) || (s1.resolution == Some(
            Resolution { stage: Stage::Boundary, ..cur },
        ) && s1 == State { resolution: s1.resolution, ..s0 })
    }
    &&& cur.step < schedule_spec().len() && cur.stage == Stage::Boundary ==> {
        &&& more == (cur.step + 1 < schedule_spec().len())
        &&& s1.resolution == (if cur.step + 1 < schedule_spec().len() {
            Some(Resolution { step: (cur.step + 1) as usize, stage: Stage::Cycle })
        } else {
            None
        })
        &&& s1 == State { heroes: s1.heroes, creatures: s1.creatures, log: s1.log, resolution: s1.resolution, ..s0 }
        &&& pool_crossed(s0.heroes@, s1.heroes@)
        &&& pool_crossed(s0.creatures@, s1.creatures@)
        &&& logged(s0.log@, s1.log@, defeat_lines(s0.heroes@) + defeat_lines(s0.creatures@))
    }
}

/// Perform **one atomic transition** of the schedule's resolution, advancing (and, when needed,
/// starting) the cursor. Returns `true` while steps remain and `false` when the resolution is
/// complete (the cursor is then cleared).
///
/// At a cycle, one engagement-cycle runs; if it committed, the engagement cycles again, else the
/// cursor moves to the boundary. At the boundary, deaths finalize and the piles wipe on both pools,
/// and the cursor moves to the next engagement.
pub fn step(state: &mut State) -> (more: bool)
    requires
        board_ok(*old(state)),
    ensures
        board_ok(*final(state)),
        stepped(*old(state), *final(state), more),
{
    let ghost s0 = *state;
    let mut cur = match state.resolution {
        Some(r) => r,
        None => Resolution::start(),
    };
    let n = schedule_len();
    if cur.step >= n {
        state.resolution = None;
        return false;
    }
    match cur.stage {
        Stage::Cycle => {
            if !resolve_engagement_cycle(state, cur.step) {
                cur.stage = Stage::Boundary;
            }
        },
        Stage::Boundary => {
            let mut log: Vec<String> = Vec::new();
            std::mem::swap(&mut log, &mut state.log);
            cross_boundary(state.heroes.as_mut_slice(), &mut log);
            let ghost g1 = log@;
            cross_boundary(state.creatures.as_mut_slice(), &mut log);
            std::mem::swap(&mut log, &mut state.log);
            proof {
                lemma_logged_trans(
                    s0.log@,
                    g1,
                    state.log@,
                    defeat_lines(s0.heroes@),
                    defeat_lines(s0.creatures@),
                );
                lemma_pool_kept_refl(s0.heroes@);
                lemma_pool_kept_refl(s0.creatures@);
                lemma_pool_kept_crossed(s0.heroes@, s0.heroes@, state.heroes@);
                lemma_pool_kept_crossed(s0.creatures@, s0.creatures@, state.creatures@);
            }
            cur.step = cur.step + 1;
            cur.stage = Stage::Cycle;
        },
    }
    if cur.step >= n {
        state.resolution = None;
        false
    } else {
        state.resolution = Some(cur);
        true
    }
}

/// [`step`] on any board: a board outside the resolver's bounds ([`board_ok`]) is reported (`None`)
/// and left untouched; on any other, one transition runs and whether steps remain is returned.
pub fn step_checked(state: &mut State) -> (r: Option<bool>)
    ensures
        r is None <==> !board_ok(*old(state)),
        r is None ==> *final(state) == *old(state),
        r matches Some(more) ==> board_ok(*final(state)) && stepped(*old(state), *final(state), more),
{
    if !board_fits(state) {
        return None;
    }
    Some(step(state))
}

/// How many engagements the cursor has left.
pub open spec fn steps_left(s: State) -> int {
    match s.resolution {
        Some(r) => schedule_spec().len() - r.step,
        None => 0,
    }
}

/// Where the cursor sits within its engagement: cycling ranks above the boundary.
pub open spec fn stage_rank(s: State) -> int {
    match s.resolution {
        Some(r) => if r.stage == Stage::Cycle { 1 } else { 0 },
        None => 0,
    }
}

/// `s1` is where `n` steps from `s0` end: each step is [`stepped`], and the last one reports that no
/// steps remain.
pub open spec fn runs(s0: State, s1: State, n: nat) -> bool
    decreases n,
{
    if n == 0 {
        false
    } else {
        exists|mid: State, more: bool|
            #[trigger] stepped(s0, mid, more) && if more {
                runs(mid, s1, (n - 1) as nat)
            } else {
                s1 == mid
            }
    }
}

/// The board with a fresh cursor at the start of the schedule.
pub open spec fn started(s: State) -> State {
    State { resolution: Some(Resolution { step: 0, stage: Stage::Cycle }), ..s }
}

proof fn lemma_runs_prepend(s0: State, mid: State, s1: State, m: nat)
    requires
        stepped(s0, mid, true),
        runs(mid, s1, m),
    ensures
        runs(s0, s1, m + 1),
{
    assert(((m + 1) - 1) as nat == m);
}

proof fn lemma_runs_last(s0: State, s1: State)
    requires
        stepped(s0, s1, false),
    ensures
        runs(s0, s1, 1),
{
}

/// [`resolve_round`] on any board: a board outside the resolver's bounds ([`board_ok`]: at most 256
/// bodies a side, every stat, tally and Tempo within [`stat_cap`], every pile within [`pile_cap`]) is
/// reported (`false`) and left untouched; any other board resolves its round (`true`).
pub fn resolve_round_checked(state: &mut State) -> (fits: bool)
    ensures
        fits == board_ok(*old(state)),
        !fits ==> *final(state) == *old(state),
        fits ==> {
            &&& board_ok(*final(state))
            &&& *final(state) == (State {
                heroes: final(state).heroes,
                creatures: final(state).creatures,
                log: final(state).log,
                resolution: None,
                ..*old(state)
            })
            &&& pool_kept(old(state).heroes@, final(state).heroes@)
            &&& pool_kept(old(state).creatures@, final(state).creatures@)
            &&& log_extends(old(state).log@, final(state).log@)
            &&& exists|n: nat| #[trigger] runs(started(*old(state)), *final(state), n)
        },
{
    if !board_fits(state) {
        return false;
    }
    resolve_round(state);
    true
}

/// Resolve one round over the engagement schedule, in place: the cursor starts fresh and [`step`]
/// runs until the resolution completes. Every engagement ends at a boundary (deaths finalize, piles
/// wipe). Only the pools and the log change, and each body only as a round may change it.
pub fn resolve_round(state: &mut State)
    requires
        board_ok(*old(state)),
    ensures
        board_ok(*final(state)),
        *final(state) == (State {
            heroes: final(state).heroes,
            creatures: final(state).creatures,
            log: final(state).log,
            resolution: None,
            ..*old(state)
        }),
        pool_kept(old(state).heroes@, final(state).heroes@),
        pool_kept(old(state).creatures@, final(state).creatures@),
        log_extends(old(state).log@, final(state).log@),
        exists|n: nat| #[trigger] runs(started(*old(state)), *final(state), n),
{
    let ghost s0 = *state;
    state.resolution = Some(Resolution::start());
    let ghost start = *state;
    let ghost mut k: nat = 0;
    proof {
        lemma_pool_kept_refl(s0.heroes@);
        lemma_pool_kept_refl(s0.creatures@);
    }
    loop
        invariant_except_break
            (state.resolution matches Some(r) && r.step < schedule_spec().len()),
            forall|sf: State, m: nat| #[trigger] runs(*state, sf, m) ==> runs(start, sf, k + m),
        invariant
            board_ok(*state),
            *state == (State {
                heroes: state.heroes,
                creatures: state.creatures,
                log: state.log,
                resolution: state.resolution,
                ..s0
            }),
            pool_kept(s0.heroes@, state.heroes@),
            pool_kept(s0.creatures@, state.creatures@),
            log_extends(s0.log@, state.log@),
            s0 == *old(state),
            start == started(s0),
        ensures
            state.resolution is None,
            exists|n: nat| #[trigger] runs(start, *state, n),
        decreases steps_left(*state), stage_rank(*state), tempo_left(*state),
    {
        let ghost before = *state;
        let more = step(state);
        proof {
            let after = *state;
            if more {
                assert forall|sf: State, m: nat| #[trigger] runs(after, sf, m) implies runs(start, sf, (k + 1) + m) by {
                    lemma_runs_prepend(before, after, sf, m);
                    assert(k + (m + 1) == (k + 1) + m);
                }
                k = k + 1;
            } else {
                lemma_runs_last(before, after);
                assert(runs(start, after, k + 1));
            }
        }
        proof {
            let after = *state;
            let cur = cursor_of(before);
            if cur.stage == Stage::Cycle {
                lemma_pool_kept_engaged(s0.heroes@, before.heroes@, after.heroes@);
                lemma_pool_kept_engaged(s0.creatures@, before.creatures@, after.creatures@);
            } else {
                lemma_pool_kept_crossed(s0.heroes@, before.heroes@, after.heroes@);
                lemma_pool_kept_crossed(s0.creatures@, before.creatures@, after.creatures@);
            }
        }
        if !more {
            break;
        }
    }
}

} // verus!
