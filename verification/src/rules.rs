//! The combat **phases and rules as a self-documenting, toggleable registry**.
//!
//! Combat is a sequence of single-purpose **phases** over two accumulators (the per-engagement damage
//! **pile** and **Tempo**) plus a few cross-cutting **behaviors**. Every entry here does **exactly one
//! thing**, carries a human **description** (the source of truth for the rules appendix), and can be
//! switched **on/off** by a [`Ruleset`](crate::ruleset::Ruleset).

use vstd::prelude::*;
use crate::text::str_eq;

verus! {

/// Whether a rule is a round-level **phase**, a **sub-phase** (an engagement of the Engage phase), or
/// a cross-cutting **behavior**.
#[derive(Clone, Copy, PartialEq, Eq, Debug, Structural)]
pub enum RuleKind {
    /// A single-purpose round-level step, run in round order.
    Phase,
    /// A combat sub-step within the Engage phase, resolved on the engagement schedule.
    SubPhase,
    /// A cross-cutting behavior consulted inside phases (not a step of its own).
    Behavior,
}

/// One toggleable combat phase, sub-phase, or behavior. [`all_rules`] lists them in **round order**.
#[derive(Clone, Copy, PartialEq, Eq, Hash, PartialOrd, Ord, Debug, Structural)]
pub enum Rule {
    /// Marshal: secretly assign each unit an intention (Vanguard / Outrider / Rearguard) and group them.
    Marshal,
    /// Reveal: reveal intentions and groups; positions lock. Nobody moves.
    Reveal,
    /// Ready: cast Standing abilities (braces / ally buffs).
    Ready,
    /// Engage: resolve the fixed sub-phase schedule (Intercept → Volley → Raid → Clash → Breach).
    Engage,
    /// Intercept: each Vanguard strikes an enemy Outrider (the front screens the crossers).
    Intercept,
    /// Volley: each Rearguard fires on an enemy Outrider (the back shoots crossers — the pre-empt).
    Volley,
    /// Raid: each surviving Outrider strikes an enemy Rearguard (the flank that got through).
    Raid,
    /// Clash: each Rearguard fires on an enemy Vanguard, and the fronts strike each other.
    Clash,
    /// Breach: the deep / trailing blows land last (Vanguard→Rearguard, Outrider→Vanguard/Outrider).
    Breach,
    /// Clear the per-sub-phase damage pile at each sub-phase boundary.
    WipePile,
    /// The Lull: Tempo resets, Health persists, the round advances (5-round cap).
    Refresh,
    /// The one Tempo contest: attack vs block / slip / evade.
    TempoContest,
    /// Strike-back: a melee attacker may be answered by the defender's own blow.
    StrikeBack,
    /// Area-of-effect: an attack may strike a whole rank at once (bypassing a group's spillover).
    AreaOfEffect,
    /// Grouping: same-side units bind into one unit (spillover to block, weakest-link to slip).
    Grouping,
}

/// Static metadata for a [`Rule`] — its appendix name, one-thing description, and kind.
pub struct RuleInfo {
    pub name: &'static str,
    pub description: &'static str,
    pub kind: RuleKind,
}

/// A rule's appendix name.
pub open spec fn rule_name(r: Rule) -> Seq<char> {
    match r {
        Rule::Marshal => "Marshal"@,
        Rule::Reveal => "Reveal"@,
        Rule::Ready => "Ready"@,
        Rule::Engage => "Engage"@,
        Rule::Intercept => "Intercept"@,
        Rule::Volley => "Volley"@,
        Rule::Raid => "Raid"@,
        Rule::Clash => "Clash"@,
        Rule::Breach => "Breach"@,
        Rule::WipePile => "Wipe pile"@,
        Rule::Refresh => "Refresh (the Lull)"@,
        Rule::TempoContest => "Tempo contest"@,
        Rule::StrikeBack => "Strike back"@,
        Rule::AreaOfEffect => "Area of effect"@,
        Rule::Grouping => "Grouping"@,
    }
}

/// A rule's canonical mechanical description.
pub open spec fn rule_description(r: Rule) -> Seq<char> {
    match r {
        Rule::Marshal => "Each unit is secretly assigned an **intention** — Vanguard (hold the front), Outrider (break the line) or Rearguard (deal from the back) — and may be bound into a group. Re-declared every round; declaring is free and may fail (a misplaced unit is idle, not barred)."@,
        Rule::Reveal => "Intentions and groups are revealed together and positions lock. Nobody moves; everything after resolves in the open."@,
        Rule::Ready => "Standing abilities (a Wall's brace, a Support's ally buff) are cast now. They are ally-targeted, auto-land, and last the round."@,
        Rule::Engage => "The two lines meet and trade blows: the fixed **sub-phase schedule** resolves in order — Intercept → Volley → Raid → Clash → Breach — each sub-phase a boundary. Untyped Might banks into the per-sub-phase pile; clearing a target's Toughness flips a Health card."@,
        Rule::Intercept => "The front screens the flankers: each Vanguard strikes an enemy Outrider as it crosses, before it can raid. An Outrider cut down here never reaches the back."@,
        Rule::Volley => "The back fires on the flankers: each Rearguard shoots an enemy Outrider — before it arrives (the pre-empt). A shot spent here is a shot not fired at the enemy front later."@,
        Rule::Raid => "Surviving Outriders strike the enemy Rearguard they crossed for. The breaker that got through the Intercept and Volley lands on the exposed back."@,
        Rule::Clash => "The lines meet: each Rearguard fires on an enemy Vanguard (the only answer to its Toughness), and each engaging Vanguard strikes an enemy Vanguard. Untyped Might banks into the per-sub-phase pile; clearing the target's Toughness flips a Health card."@,
        Rule::Breach => "The deep, trailing blows land last: a Vanguard crosses to an enemy Rearguard whose own front has fallen, and Outriders with no reachable back fall on the enemy front or each other."@,
        Rule::WipePile => "At each sub-phase boundary the per-sub-phase damage pile is cleared: sub-threshold damage that did not turn a Health card does not carry into the next sub-phase. Only Health persists."@,
        Rule::Refresh => "Round end: all spent Tempo resets, Health carries over, and the round advances. A battle not decided within five rounds is a draw."@,
        Rule::TempoContest => "The one attack-vs-defense mechanic: a single simultaneous Tempo bid (cards x Finesse); the defender must strictly exceed it (a tie lands the hit) to block a melee blow, slip a blocker, or evade ranged fire. Defending is Tempo-negative, so blows eventually land."@,
        Rule::StrikeBack => "A melee attacker may be answered: the defender spends a Tempo card to deal its own Might back — but only when that blow can crack the attacker's Toughness, and only if the defender is still alive (a corpse cannot react)."@,
        Rule::AreaOfEffect => "An attack may strike a whole rank at once instead of a single target — width that cannot whiff against a crowd and **bypasses a group's spillover** (hits every member), at the price of not concentrating its force."@,
        Rule::Grouping => "Same-side units may be bound at form-up into one unit (one position, one shared target, distinct Health): single-target damage **spills** through the front member in declared order (a bodyguard soaks for the squishies), a group sums its members' Tempo to block but needs every member to beat the attacker to slip — a superb wall and a hopeless slipper."@,
    }
}

/// A rule's kind.
pub open spec fn rule_kind(r: Rule) -> RuleKind {
    match r {
        Rule::Marshal => RuleKind::Phase,
        Rule::Reveal => RuleKind::Phase,
        Rule::Ready => RuleKind::Phase,
        Rule::Engage => RuleKind::Phase,
        Rule::Intercept => RuleKind::SubPhase,
        Rule::Volley => RuleKind::SubPhase,
        Rule::Raid => RuleKind::SubPhase,
        Rule::Clash => RuleKind::SubPhase,
        Rule::Breach => RuleKind::SubPhase,
        Rule::WipePile => RuleKind::Behavior,
        Rule::Refresh => RuleKind::Phase,
        Rule::TempoContest => RuleKind::Behavior,
        Rule::StrikeBack => RuleKind::Behavior,
        Rule::AreaOfEffect => RuleKind::Behavior,
        Rule::Grouping => RuleKind::Behavior,
    }
}

/// A rule's position in round order.
pub open spec fn rule_index(r: Rule) -> nat {
    match r {
        Rule::Marshal => 0,
        Rule::Reveal => 1,
        Rule::Ready => 2,
        Rule::Engage => 3,
        Rule::Intercept => 4,
        Rule::Volley => 5,
        Rule::Raid => 6,
        Rule::Clash => 7,
        Rule::Breach => 8,
        Rule::WipePile => 9,
        Rule::Refresh => 10,
        Rule::TempoContest => 11,
        Rule::StrikeBack => 12,
        Rule::AreaOfEffect => 13,
        Rule::Grouping => 14,
    }
}

/// A rule's variant identifier (the key a data file names it by).
pub open spec fn rule_ident(r: Rule) -> Seq<char> {
    match r {
        Rule::Marshal => "Marshal"@,
        Rule::Reveal => "Reveal"@,
        Rule::Ready => "Ready"@,
        Rule::Engage => "Engage"@,
        Rule::Intercept => "Intercept"@,
        Rule::Volley => "Volley"@,
        Rule::Raid => "Raid"@,
        Rule::Clash => "Clash"@,
        Rule::Breach => "Breach"@,
        Rule::WipePile => "WipePile"@,
        Rule::Refresh => "Refresh"@,
        Rule::TempoContest => "TempoContest"@,
        Rule::StrikeBack => "StrikeBack"@,
        Rule::AreaOfEffect => "AreaOfEffect"@,
        Rule::Grouping => "Grouping"@,
    }
}

/// Every rule, in round order (the phases), with the cross-cutting behaviors last.
pub open spec fn all_rules_spec() -> Seq<Rule> {
    seq![Rule::Marshal, Rule::Reveal, Rule::Ready, Rule::Engage, Rule::Intercept, Rule::Volley, Rule::Raid, Rule::Clash, Rule::Breach, Rule::WipePile, Rule::Refresh, Rule::TempoContest, Rule::StrikeBack, Rule::AreaOfEffect, Rule::Grouping]
}

impl Rule {
    /// The appendix name, description, and kind for this rule.
    pub fn info(self) -> (i: RuleInfo)
        ensures
            i.name@ == rule_name(self),
            i.description@ == rule_description(self),
            i.kind == rule_kind(self),
    {
        let (name, description, kind) = match self {
            Rule::Marshal => (
                "Marshal",
                "Each unit is secretly assigned an **intention** — Vanguard (hold the front), Outrider (break the line) or Rearguard (deal from the back) — and may be bound into a group. Re-declared every round; declaring is free and may fail (a misplaced unit is idle, not barred).",
                RuleKind::Phase,
            ),
            Rule::Reveal => (
                "Reveal",
                "Intentions and groups are revealed together and positions lock. Nobody moves; everything after resolves in the open.",
                RuleKind::Phase,
            ),
            Rule::Ready => (
                "Ready",
                "Standing abilities (a Wall's brace, a Support's ally buff) are cast now. They are ally-targeted, auto-land, and last the round.",
                RuleKind::Phase,
            ),
            Rule::Engage => (
                "Engage",
                "The two lines meet and trade blows: the fixed **sub-phase schedule** resolves in order — Intercept → Volley → Raid → Clash → Breach — each sub-phase a boundary. Untyped Might banks into the per-sub-phase pile; clearing a target's Toughness flips a Health card.",
                RuleKind::Phase,
            ),
            Rule::Intercept => (
                "Intercept",
                "The front screens the flankers: each Vanguard strikes an enemy Outrider as it crosses, before it can raid. An Outrider cut down here never reaches the back.",
                RuleKind::SubPhase,
            ),
            Rule::Volley => (
                "Volley",
                "The back fires on the flankers: each Rearguard shoots an enemy Outrider — before it arrives (the pre-empt). A shot spent here is a shot not fired at the enemy front later.",
                RuleKind::SubPhase,
            ),
            Rule::Raid => (
                "Raid",
                "Surviving Outriders strike the enemy Rearguard they crossed for. The breaker that got through the Intercept and Volley lands on the exposed back.",
                RuleKind::SubPhase,
            ),
            Rule::Clash => (
                "Clash",
                "The lines meet: each Rearguard fires on an enemy Vanguard (the only answer to its Toughness), and each engaging Vanguard strikes an enemy Vanguard. Untyped Might banks into the per-sub-phase pile; clearing the target's Toughness flips a Health card.",
                RuleKind::SubPhase,
            ),
            Rule::Breach => (
                "Breach",
                "The deep, trailing blows land last: a Vanguard crosses to an enemy Rearguard whose own front has fallen, and Outriders with no reachable back fall on the enemy front or each other.",
                RuleKind::SubPhase,
            ),
            Rule::WipePile => (
                "Wipe pile",
                "At each sub-phase boundary the per-sub-phase damage pile is cleared: sub-threshold damage that did not turn a Health card does not carry into the next sub-phase. Only Health persists.",
                RuleKind::Behavior,
            ),
            Rule::Refresh => (
                "Refresh (the Lull)",
                "Round end: all spent Tempo resets, Health carries over, and the round advances. A battle not decided within five rounds is a draw.",
                RuleKind::Phase,
            ),
            Rule::TempoContest => (
                "Tempo contest",
                "The one attack-vs-defense mechanic: a single simultaneous Tempo bid (cards x Finesse); the defender must strictly exceed it (a tie lands the hit) to block a melee blow, slip a blocker, or evade ranged fire. Defending is Tempo-negative, so blows eventually land.",
                RuleKind::Behavior,
            ),
            Rule::StrikeBack => (
                "Strike back",
                "A melee attacker may be answered: the defender spends a Tempo card to deal its own Might back — but only when that blow can crack the attacker's Toughness, and only if the defender is still alive (a corpse cannot react).",
                RuleKind::Behavior,
            ),
            Rule::AreaOfEffect => (
                "Area of effect",
                "An attack may strike a whole rank at once instead of a single target — width that cannot whiff against a crowd and **bypasses a group's spillover** (hits every member), at the price of not concentrating its force.",
                RuleKind::Behavior,
            ),
            Rule::Grouping => (
                "Grouping",
                "Same-side units may be bound at form-up into one unit (one position, one shared target, distinct Health): single-target damage **spills** through the front member in declared order (a bodyguard soaks for the squishies), a group sums its members' Tempo to block but needs every member to beat the attacker to slip — a superb wall and a hopeless slipper.",
                RuleKind::Behavior,
            ),
        };
        RuleInfo { name, description, kind }
    }

    pub fn name(self) -> (s: &'static str)
        ensures
            s@ == rule_name(self),
    {
        self.info().name
    }

    pub fn is_phase(self) -> (b: bool)
        ensures
            b == (rule_kind(self) == RuleKind::Phase),
    {
        self.info().kind == RuleKind::Phase
    }

    /// This rule's position in round order.
    pub fn index(self) -> (i: u16)
        ensures
            i as nat == rule_index(self),
            i < 15,
    {
        match self {
            Rule::Marshal => 0,
            Rule::Reveal => 1,
            Rule::Ready => 2,
            Rule::Engage => 3,
            Rule::Intercept => 4,
            Rule::Volley => 5,
            Rule::Raid => 6,
            Rule::Clash => 7,
            Rule::Breach => 8,
            Rule::WipePile => 9,
            Rule::Refresh => 10,
            Rule::TempoContest => 11,
            Rule::StrikeBack => 12,
            Rule::AreaOfEffect => 13,
            Rule::Grouping => 14,
        }
    }

    /// This rule's bit in a [`Ruleset`](crate::ruleset::Ruleset) enabled-mask: `1 << index`.
    pub fn bit(self) -> (b: u16)
        ensures
            b as nat == vstd::arithmetic::power2::pow2(rule_index(self)),
            b == 1u16 << (rule_index(self) as u16),
    {
        let i: u16 = self.index();
        proof {
            vstd::arithmetic::power2::lemma2_to64();
            vstd::bits::lemma_u16_shl_is_mul(1u16, i);
        }
        1u16 << i
    }

    /// Parse a [`Rule`] from its **variant identifier** (e.g. `"Grouping"`, `"AreaOfEffect"`); `None` if
    /// no variant matches.
    pub fn from_ident(s: &str) -> (r: Option<Rule>)
        ensures
            r matches Some(x) ==> rule_ident(x) == s@,
            r is None ==> forall|x: Rule| rule_ident(x) != s@,
    {
        let all = all_rules();
        let mut k: usize = 0;
        while k < 15
            invariant
                k <= 15,
                all@ == all_rules_spec(),
                forall|q: int| 0 <= q < k ==> rule_ident(all_rules_spec()[q]) != s@,
            decreases 15 - k,
        {
            let r = all[k];
            if str_eq(r.ident(), s) {
                return Some(r);
            }
            k = k + 1;
        }
        assert forall|x: Rule| rule_ident(x) != s@ by {
            assert(all_rules_spec()[rule_index(x) as int] == x);
        }
        None
    }

    /// The variant identifier.
    fn ident(self) -> (s: &'static str)
        ensures
            s@ == rule_ident(self),
    {
        match self {
            Rule::Marshal => "Marshal",
            Rule::Reveal => "Reveal",
            Rule::Ready => "Ready",
            Rule::Engage => "Engage",
            Rule::Intercept => "Intercept",
            Rule::Volley => "Volley",
            Rule::Raid => "Raid",
            Rule::Clash => "Clash",
            Rule::Breach => "Breach",
            Rule::WipePile => "WipePile",
            Rule::Refresh => "Refresh",
            Rule::TempoContest => "TempoContest",
            Rule::StrikeBack => "StrikeBack",
            Rule::AreaOfEffect => "AreaOfEffect",
            Rule::Grouping => "Grouping",
        }
    }
}

/// Distinct rules sit at distinct positions, all below 15.
pub proof fn lemma_rule_index_injective(x: Rule, y: Rule)
    ensures
        rule_index(x) < 15,
        rule_index(x) == rule_index(y) ==> x == y,
{
}

/// Every combat rule, in **round order** for the phases (the engagements of Engage in schedule order),
/// with the cross-cutting behaviors last.
pub fn all_rules() -> (v: [Rule; 15])
    ensures
        v@ == all_rules_spec(),
{
    let v = [Rule::Marshal, Rule::Reveal, Rule::Ready, Rule::Engage, Rule::Intercept, Rule::Volley, Rule::Raid, Rule::Clash, Rule::Breach, Rule::WipePile, Rule::Refresh, Rule::TempoContest, Rule::StrikeBack, Rule::AreaOfEffect, Rule::Grouping];
    assert(v@ =~= all_rules_spec());
    v
}

} // verus!
