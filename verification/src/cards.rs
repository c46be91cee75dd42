//! Data-driven cards & effects.
//!
//! A Clash **Move** lives in [`crate::duel`]; an **Action card** carries effect(s) played in the round.
//! Each card declares a **zone behavior** ([`ZoneBehavior`]: Return / Spend / Lasting) and optional
//! **tags** (charge/combo interaction). A card's magnitude flows through the [`crate::stats`]
//! pile→bar→pool pipeline (untyped Might).

use vstd::prelude::*;
use vstd::string::*;
use crate::currency::Currency;
use crate::text::{decimal, push_num};

verus! {

/// What a card does to itself after it is played.
#[derive(Clone, Copy, Debug, PartialEq, Eq, Structural)]
pub enum ZoneBehavior {
    /// Back to Hand, playable again (the default).
    Return,
    /// Spent for the rest of the combat.
    Spend,
    /// Stays in play and keeps working.
    Lasting,
}

/// The role-card taxonomy kind. `Stat` cards are [`crate::form::StatCard`]s (Form attachments), not
/// `Card`s, so they are not in this enum.
#[derive(Clone, Copy, Debug, PartialEq, Eq, Structural)]
pub enum RoleKind {
    /// Played from Hand — the track's core effect.
    Base,
    /// Passive — auto-applies to its Base; never separately played (the scaling card).
    Modifier,
    /// Played — an alternative / charged Base.
    Mode,
}

/// A single effect a card can carry. Magnitudes are the card's own printed values.
#[derive(Clone, Copy, Debug)]
pub enum Effect {
    /// Deal `power` untyped **Might** damage, per target.
    Damage { power: u32 },
    /// Add `tempo` to the holder this round — a defensive Guard boost.
    Guard { tempo: u32 },
    /// This round the holder **cannot fall**.
    Lifeline,
    /// On a landed hit, the target loses its action this round.
    Stagger,
    /// Rip a card from the target's hand.
    Disarm,
    /// Break the target out of the line (a Shove).
    Shove,
    /// Drive the target from the line to the Rearguard this round (a Rout).
    Rout,
    /// Turn a face-down card back up (a Recover).
    Recover,
    /// Bank +`amount` Cadence (extra tempo this round).
    BankCadence { amount: u32 },
    /// Restore `vitality` Health cards to the most-wounded ally (a Mend).
    Mend { vitality: u32 },
    /// Grant a melee attack to a defenseless ally for the round (a Ward).
    Ward,
    /// Grant +`tempo` Tempo to an ally (a Haste).
    Haste { tempo: u32 },
    /// Raise allies' **Might** by `might` this round (an Empower).
    Empower { might: u32 },
    /// Strip `tempo` Tempo from a foe (a Suppress).
    Suppress { tempo: u32 },
    /// Cut `cadence` Cadence from a foe (a Slow).
    Slow { cadence: u32 },
    /// Drain `tempo` from a foe (a Confuse).
    Confuse { tempo: u32 },
    /// **Mark**: place a Mark token on each target — −`finesse` Finesse (floor 1) while present.
    Mark { finesse: u32 },
    /// **Mire**: place a Mire token on each target — −`cadence` Cadence (floor 1).
    Mire { cadence: u32 },
    /// **Sunder**: place a Sunder token on each target — −`toughness` Toughness (floor 1).
    Sunder { toughness: u32 },
    /// **Defang**: place a Defang token on each target — −`might` Might (floor 1 when defanged).
    Defang { might: u32 },
    /// **Burn**: place `stacks` Burn tokens (each carrying `power` Might) on each target.
    Burn { stacks: u32, power: u32 },
    /// **Brace**: place a Guard token on self — +`toughness` Toughness this round.
    Brace { toughness: u32 },
    /// **Cover**: this Wall covers allies — single-target damage aimed at them redirects to it.
    Cover,
    /// **Thorns**: place a Thorns token (carrying `power` Might) on an ally.
    Thorns { power: u32 },
    /// **Charge**: bank `amount` Charge tokens on the caster.
    Charge { amount: u32 },
    /// **Smoke**: place a Smoke token on self — the next charge ignores the Volley pre-empt.
    Smoke,
    /// **Silence**: cancel one enemy deferred spell (handled by the round plan).
    Silence,
    /// **Pin**: deny a free enemy Vanguard its charge this round (handled by the round plan).
    Pin,
}

/// The **cast window**: where an ability may be used.
#[derive(Clone, Copy, Debug, PartialEq, Eq, Structural)]
pub enum Cast {
    /// The Standoff — own-side buffs / braces, auto-land before the Fray.
    Standing,
    /// The **Strike window** = the Fray *and* the Volley.
    Strike,
}

/// The **resolution gate**: which phase's pile an ability's effect lands in.
#[derive(Clone, Copy, Debug, PartialEq, Eq, Structural)]
pub enum Resolve {
    /// Resolves in the phase it was used.
    OnCast,
    /// Lands in the Breach (a charge).
    Breach,
    /// Lands in the Reckoning (a deferred spell / a DoT tick).
    Reckoning,
}

/// An Action card: its effect(s), how many foes it hits, its zone behavior, and tags.
#[derive(Clone, Debug)]
pub struct Card {
    pub name: String,
    /// A human rules description.
    pub text: String,
    /// Evocative in-world flavor — prose, not rules.
    pub flavor: String,
    /// Distinct foes hit (AoE). 1 = single target.
    pub targets: u32,
    /// Reach in jumps `[min, max]` (melee `[1,1]`, ranged `[2,2]`).
    pub reach: [u32; 2],
    /// What the card does to itself after it is played.
    pub zone: ZoneBehavior,
    /// Type tags for charge/combo interaction.
    pub tags: Vec<String>,
    /// A passive ability (a power detected by name) rather than a played effect card.
    pub passive: bool,
    pub effects: Vec<Effect>,
    /// The window this ability may be used in.
    pub cast: Cast,
    /// Which phase's pile the effect resolves into.
    pub resolve: Resolve,
    /// A one-shot: flips face-down for the whole combat when used.
    pub one_shot: bool,
    /// The role track this card belongs to — `None` for non-role cards.
    pub role: Option<Currency>,
    /// Which taxonomy kind.
    pub kind: RoleKind,
    /// A **positional** role card — playable only from the matching position.
    pub positional: bool,
    /// A `Modifier` names the Base it auto-applies to when both are owned.
    pub modifies: Option<String>,
}

/// The power of the first `Damage` effect, if any.
pub open spec fn first_damage(s: Seq<Effect>) -> Option<u32>
    decreases s.len(),
{
    if s.len() == 0 {
        None
    } else {
        match s[0] {
            Effect::Damage { power } => Some(power),
            _ => first_damage(s.drop_first()),
        }
    }
}

pub open spec fn is_stagger(e: Effect) -> bool {
    match e {
        Effect::Stagger => true,
        _ => false,
    }
}

/// One effect's phrase in a card summary.
pub open spec fn effect_phrase(e: Effect) -> Seq<char> {
    match e {
        Effect::Damage { power } => "might "@ + decimal(power as nat),
        Effect::Guard { tempo } => "brace +"@ + decimal(tempo as nat) + " tempo"@,
        Effect::Lifeline => "cannot fall"@,
        Effect::Stagger => "stagger"@,
        Effect::Disarm => "disarm"@,
        Effect::Shove => "shove"@,
        Effect::Rout => "rout"@,
        Effect::Recover => "recover"@,
        Effect::BankCadence { amount } => "+"@ + decimal(amount as nat) + " cadence"@,
        Effect::Mend { vitality } => "mend +"@ + decimal(vitality as nat),
        Effect::Ward => "ward (grant melee)"@,
        Effect::Haste { tempo } => "haste +"@ + decimal(tempo as nat),
        Effect::Empower { might } => "empower +"@ + decimal(might as nat) + " might"@,
        Effect::Suppress { tempo } => "suppress -"@ + decimal(tempo as nat) + " tempo"@,
        Effect::Slow { cadence } => "slow -"@ + decimal(cadence as nat) + " cadence"@,
        Effect::Confuse { tempo } => "confuse -"@ + decimal(tempo as nat) + " tempo"@,
        Effect::Mark { finesse } => "mark -"@ + decimal(finesse as nat) + " finesse"@,
        Effect::Mire { cadence } => "mire -"@ + decimal(cadence as nat) + " cadence"@,
        Effect::Sunder { toughness } => "sunder -"@ + decimal(toughness as nat) + " tough"@,
        Effect::Defang { might } => "defang -"@ + decimal(might as nat) + " might"@,
        Effect::Burn { stacks, power } => "burn "@ + decimal(stacks as nat) + "x"@ + decimal(power as nat),
        Effect::Brace { toughness } => "brace +"@ + decimal(toughness as nat) + " tough"@,
        Effect::Cover => "cover an ally"@,
        Effect::Thorns { power } => "thorns "@ + decimal(power as nat),
        Effect::Charge { amount } => "charge +"@ + decimal(amount as nat),
        Effect::Smoke => "smoke"@,
        Effect::Silence => "silence"@,
        Effect::Pin => "pin (deny a charge)"@,
    }
}

/// Join phrases with `", "`.
pub open spec fn join_phrases(p: Seq<Seq<char>>) -> Seq<char>
    decreases p.len(),
{
    if p.len() == 0 {
        Seq::<char>::empty()
    } else if p.len() == 1 {
        p[0]
    } else {
        join_phrases(p.drop_last()) + ", "@ + p.last()
    }
}

/// The phrases of a card summary: one per effect, then the target count if more than one.
pub open spec fn summary_phrases(effects: Seq<Effect>, targets: u32) -> Seq<Seq<char>> {
    let p = effects.map_values(|e: Effect| effect_phrase(e));
    if targets > 1 {
        p.push("x"@ + decimal(targets as nat) + " targets"@)
    } else {
        p
    }
}

/// Append one effect's phrase.
fn push_phrase(s: &mut String, e: Effect)
    ensures
        final(s)@ == old(s)@ + effect_phrase(e),
{
    match e {
        Effect::Damage { power } => {
            s.append("might ");
            push_num(s, power as u64);
        },
        Effect::Guard { tempo } => {
            s.append("brace +");
            push_num(s, tempo as u64);
            s.append(" tempo");
        },
        Effect::Lifeline => s.append("cannot fall"),
        Effect::Stagger => s.append("stagger"),
        Effect::Disarm => s.append("disarm"),
        Effect::Shove => s.append("shove"),
        Effect::Rout => s.append("rout"),
        Effect::Recover => s.append("recover"),
        Effect::BankCadence { amount } => {
            s.append("+");
            push_num(s, amount as u64);
            s.append(" cadence");
        },
        Effect::Mend { vitality } => {
            s.append("mend +");
            push_num(s, vitality as u64);
        },
        Effect::Ward => s.append("ward (grant melee)"),
        Effect::Haste { tempo } => {
            s.append("haste +");
            push_num(s, tempo as u64);
        },
        Effect::Empower { might } => {
            s.append("empower +");
            push_num(s, might as u64);
            s.append(" might");
        },
        Effect::Suppress { tempo } => {
            s.append("suppress -");
            push_num(s, tempo as u64);
            s.append(" tempo");
        },
        Effect::Slow { cadence } => {
            s.append("slow -");
            push_num(s, cadence as u64);
            s.append(" cadence");
        },
        Effect::Confuse { tempo } => {
            s.append("confuse -");
            push_num(s, tempo as u64);
            s.append(" tempo");
        },
        Effect::Mark { finesse } => {
            s.append("mark -");
            push_num(s, finesse as u64);
            s.append(" finesse");
        },
        Effect::Mire { cadence } => {
            s.append("mire -");
            push_num(s, cadence as u64);
            s.append(" cadence");
        },
        Effect::Sunder { toughness } => {
            s.append("sunder -");
            push_num(s, toughness as u64);
            s.append(" tough");
        },
        Effect::Defang { might } => {
            s.append("defang -");
            push_num(s, might as u64);
            s.append(" might");
        },
        Effect::Burn { stacks, power } => {
            s.append("burn ");
            push_num(s, stacks as u64);
            s.append("x");
            push_num(s, power as u64);
        },
        Effect::Brace { toughness } => {
            s.append("brace +");
            push_num(s, toughness as u64);
            s.append(" tough");
        },
        Effect::Cover => s.append("cover an ally"),
        Effect::Thorns { power } => {
            s.append("thorns ");
            push_num(s, power as u64);
        },
        Effect::Charge { amount } => {
            s.append("charge +");
            push_num(s, amount as u64);
        },
        Effect::Smoke => s.append("smoke"),
        Effect::Silence => s.append("silence"),
        Effect::Pin => s.append("pin (deny a charge)"),
    }
}

impl Card {
    /// The card's primary damage (untyped Might power), if it deals damage: the first `Damage`
    /// effect's power.
    pub fn primary_damage(&self) -> (p: Option<u32>)
        ensures
            p == first_damage(self.effects@),
    {
        let mut i: usize = 0;
        assert(self.effects@.skip(0) =~= self.effects@);
        while i < self.effects.len()
            invariant
                i <= self.effects@.len(),
                first_damage(self.effects@) == first_damage(self.effects@.skip(i as int)),
            decreases self.effects.len() - i,
        {
            assert(self.effects@.skip(i as int).drop_first() =~= self.effects@.skip(i + 1));
            match self.effects[i] {
                Effect::Damage { power } => {
                    return Some(power);
                },
                _ => {},
            }
            i = i + 1;
        }
        assert(self.effects@.skip(i as int) =~= Seq::<Effect>::empty());
        None
    }

    /// Does the card carry a Stagger?
    pub fn has_stagger(&self) -> (b: bool)
        ensures
            b == exists|i: int| 0 <= i < self.effects@.len() && is_stagger(self.effects@[i]),
    {
        let mut i: usize = 0;
        while i < self.effects.len()
            invariant
                i <= self.effects@.len(),
                forall|j: int| 0 <= j < i ==> !is_stagger(self.effects@[j]),
            decreases self.effects.len() - i,
        {
            match self.effects[i] {
                Effect::Stagger => {
                    return true;
                },
                _ => {},
            }
            i = i + 1;
        }
        false
    }

    /// A short one-line summary for the card UI: each effect's phrase, then `x{targets} targets` if
    /// the card hits more than one foe, joined with `", "`.
    pub fn summary(&self) -> (s: String)
        ensures
            s@ == join_phrases(summary_phrases(self.effects@, self.targets)),
    {
        let ghost phrases = self.effects@.map_values(|e: Effect| effect_phrase(e));
        let mut s = String::new();
        let mut i: usize = 0;
        while i < self.effects.len()
            invariant
                i <= self.effects@.len(),
                phrases == self.effects@.map_values(|e: Effect| effect_phrase(e)),
                s@ == join_phrases(phrases.take(i as int)),
            decreases self.effects.len() - i,
        {
            assert(phrases.take(i + 1).drop_last() =~= phrases.take(i as int));
            if i > 0 {
                s.append(", ");
            } else {
                assert(phrases.take(0) =~= Seq::<Seq<char>>::empty());
            }
            push_phrase(&mut s, self.effects[i]);
            i = i + 1;
        }
        assert(phrases.take(i as int) =~= phrases);
        if self.targets > 1 {
            let ghost before = phrases;
            if i > 0 {
                s.append(", ");
            }
            s.append("x");
            push_num(&mut s, self.targets as u64);
            s.append(" targets");
            assert(phrases.push("x"@ + decimal(self.targets as nat) + " targets"@).drop_last() =~= phrases);
        }
        s
    }
}

} // verus!
