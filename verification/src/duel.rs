//! The Clash — the card-based tactical core.
//!
//! Each beat both fighters pick one [`Move`]; [`resolve`] settles a single beat: any hit that lands,
//! how each side's **Charges** change (the durable ×2 escalation), and a note. Pure and deterministic.
//!
//! It is built to guarantee three invariants under last-word reads:
//! 1. **Avoid** — a complete, standing defense (Parry answers Strike, Evade answers Throw).
//! 2. **Land** — a complete offense (an attack lands on every move).
//! 3. **Not both, free** — landing on a committed Strike means trading a hit.
//! The three are proved below as [`law_avoid`], [`law_land`] and [`law_not_both_free`].

use vstd::prelude::*;
use vstd::string::*;

verus! {

/// A move in the Clash.
#[derive(Clone, Copy, Debug, PartialEq, Eq, Structural)]
pub enum Move {
    /// Offense. Beaten by Parry; clips Throw; trades with Strike.
    Strike,
    /// Offense. Beaten by Evade and by Strike; beats Parry.
    Throw,
    /// Defense. Negates a Strike (and flips that attacker's Charges down).
    Parry,
    /// Defense. Negates a Throw (and flips that attacker's Charges down).
    Evade,
    /// Setup. Place one active Charge (durable ×2 to your attacks). Exposed.
    Charge,
    /// Setup. Flip your face-down Charges back up. Exposed.
    Recover,
    /// Setup. Gather Force for the next blow (the scripted dummies' wind-up). Exposed; it moves no
    /// Charge.
    Gather,
}

/// The display name of a move.
pub open spec fn move_name(m: Move) -> Seq<char> {
    match m {
        Move::Strike => "Strike"@,
        Move::Throw => "Throw"@,
        Move::Parry => "Parry"@,
        Move::Evade => "Evade"@,
        Move::Charge => "Charge"@,
        Move::Recover => "Recover"@,
        Move::Gather => "Gather"@,
    }
}

/// The two standing attacks.
pub open spec fn is_attack_spec(m: Move) -> bool {
    m == Move::Strike || m == Move::Throw
}

/// The two standing defenses.
pub open spec fn is_defense_spec(m: Move) -> bool {
    m == Move::Parry || m == Move::Evade
}

impl Move {
    pub fn name(self) -> (s: &'static str)
        ensures
            s@ == move_name(self),
    {
        match self {
            Move::Strike => "Strike",
            Move::Throw => "Throw",
            Move::Parry => "Parry",
            Move::Evade => "Evade",
            Move::Charge => "Charge",
            Move::Recover => "Recover",
            Move::Gather => "Gather",
        }
    }

    /// Strike and Throw are the attacks.
    pub fn is_attack(self) -> (b: bool)
        ensures
            b == is_attack_spec(self),
    {
        match self {
            Move::Strike | Move::Throw => true,
            _ => false,
        }
    }
}

/// One side entering a beat: its base attack power, its Charge state (`up` active, `down` flipped,
/// `max` capacity), and a name for narration.
#[derive(Clone, Copy, Debug)]
pub struct Side<'a> {
    pub power: u32,
    pub up: u32,
    pub down: u32,
    pub max: u32,
    pub name: &'a str,
}

/// A hit that landed: the caller routes `raw` through the target's defense.
#[derive(Clone, Copy, Debug, PartialEq, Eq, Structural)]
pub struct Strike {
    pub raw: u32,
}

/// A side's Charge state after a beat.
#[derive(Clone, Copy, Debug, PartialEq, Eq, Structural)]
pub struct Charges {
    pub up: u32,
    pub down: u32,
}

/// The result of one beat of the Clash.
#[derive(Clone, Debug)]
pub struct Clash {
    /// A hit landing **on A** (from B), if any.
    pub on_a: Option<Strike>,
    /// A hit landing **on B** (from A), if any.
    pub on_b: Option<Strike>,
    pub a: Charges,
    pub b: Charges,
    /// At least one hit landed this beat.
    pub connected: bool,
    pub note: String,
}

/// `2^e`.
pub open spec fn pow2(e: nat) -> nat
    decreases e,
{
    if e == 0 {
        1
    } else {
        2 * pow2((e - 1) as nat)
    }
}

/// Damage of an attack: `power × 2^up` (each active Charge doubles, counted up to 16), saturating at
/// `u32::MAX`.
pub open spec fn damage_spec(power: u32, up: u32) -> u32 {
    let e: nat = if up < 16 {
        up as nat
    } else {
        16
    };
    let p = power * pow2(e);
    if p > u32::MAX {
        u32::MAX
    } else {
        p as u32
    }
}

/// Does `atk` connect through `def`? Strike connects unless Parried; Throw connects unless Evaded or
/// out-struck.
pub open spec fn connects_spec(atk: Move, def: Move) -> bool {
    match atk {
        Move::Strike => def != Move::Parry,
        Move::Throw => def != Move::Evade && def != Move::Strike,
        _ => false,
    }
}

/// Did `their` move *defend* my attack (flipping my Charges face-down)? Only a matching defense.
pub open spec fn defended_spec(my_atk: Move, their: Move) -> bool {
    (my_atk == Move::Strike && their == Move::Parry) || (my_atk == Move::Throw && their == Move::Evade)
}

/// A side's Charges after a beat: a defended attack flips its active Charges down; then, unless a hit
/// landed on it, a Charge adds one active Charge (within capacity) and a Recover turns every
/// face-down Charge back up.
pub open spec fn charges_after(up: u32, down: u32, max: u32, mine: Move, theirs: Move, hit: bool) -> Charges {
    let (u1, d1) = if defended_spec(mine, theirs) {
        (0int, up + down)
    } else {
        (up as int, down as int)
    };
    if hit {
        Charges { up: u1 as u32, down: d1 as u32 }
    } else if mine == Move::Charge && u1 + d1 < max {
        Charges { up: (u1 + 1) as u32, down: d1 as u32 }
    } else if mine == Move::Recover {
        Charges { up: (u1 + d1) as u32, down: 0 }
    } else {
        Charges { up: u1 as u32, down: d1 as u32 }
    }
}

/// The narration of a beat.
pub open spec fn clash_note_spec(an: Seq<char>, am: Move, bn: Seq<char>, bm: Move, hit_a: bool, hit_b: bool) -> Seq<char> {
    if hit_a && hit_b {
        an + " and "@ + bn + " trade blows!"@
    } else if hit_b {
        an + "'s "@ + move_name(am) + " lands on "@ + bn + "."@
    } else if hit_a {
        bn + "'s "@ + move_name(bm) + " lands on "@ + an + "."@
    } else {
        an + " "@ + move_name(am) + " / "@ + bn + " "@ + move_name(bm) + " — nothing lands."@
    }
}

/// The exec `pow2` for exponents up to 16.
fn pow2_exec(e: u32) -> (r: u32)
    requires
        e <= 16,
    ensures
        r == pow2(e as nat),
        r <= 65536,
{
    let mut r: u32 = 1;
    let mut i: u32 = 0;
    proof {
        lemma_pow2_16();
        lemma_pow2_mono(e as nat, 16);
    }
    while i < e
        invariant
            i <= e <= 16,
            r == pow2(i as nat),
            pow2(16) == 65536,
        decreases e - i,
    {
        proof {
            lemma_pow2_mono((i + 1) as nat, 16);
        }
        r = r * 2;
        i = i + 1;
    }
    r
}

proof fn lemma_pow2_16()
    ensures
        pow2(16) == 65536,
{
    reveal_with_fuel(pow2, 17);
}

proof fn lemma_pow2_mono(a: nat, b: nat)
    requires
        a <= b,
    ensures
        1 <= pow2(a) <= pow2(b),
    decreases b,
{
    if b > a {
        lemma_pow2_mono(a, (b - 1) as nat);
    } else if a > 0 {
        lemma_pow2_mono((a - 1) as nat, (a - 1) as nat);
    }
}

/// Damage of an attack: `power × 2^up` (each active Charge doubles), saturating.
fn damage(power: u32, up: u32) -> (d: u32)
    ensures
        d == damage_spec(power, up),
{
    let e = if up < 16 {
        up
    } else {
        16
    };
    let mult = pow2_exec(e);
    assert(power as int * mult as int <= 0xffff_ffff * 65536) by (nonlinear_arith)
        requires
            power <= 0xffff_ffff,
            mult <= 65536,
    ;
    let p: u64 = (power as u64) * (mult as u64);
    if p > u32::MAX as u64 {
        u32::MAX
    } else {
        p as u32
    }
}

fn connects(atk: Move, def: Move) -> (b: bool)
    ensures
        b == connects_spec(atk, def),
{
    match atk {
        Move::Strike => def != Move::Parry,
        Move::Throw => def != Move::Evade && def != Move::Strike,
        _ => false,
    }
}

fn defended(my_atk: Move, their: Move) -> (b: bool)
    ensures
        b == defended_spec(my_atk, their),
{
    (my_atk == Move::Strike && their == Move::Parry) || (my_atk == Move::Throw && their == Move::Evade)
}

/// Whether settling a side's Charges adds its active and face-down Charges: a defended attack
/// turns its active Charges face down, and an uninterrupted Charge or Recover weighs or merges both.
pub open spec fn sums_charges(mine: Move, theirs: Move, hit: bool) -> bool {
    defended_spec(mine, theirs) || (!hit && (mine == Move::Charge || mine == Move::Recover))
}

/// One side's Charges after the beat (see [`charges_after`]).
fn settle_charges(up: u32, down: u32, max: u32, mine: Move, theirs: Move, hit: bool) -> (c: Charges)
    requires
        sums_charges(mine, theirs, hit) ==> up + down <= u32::MAX,
    ensures
        c == charges_after(up, down, max, mine, theirs, hit),
{
    let (mut u, mut d) = (up, down);
    if defended(mine, theirs) {
        d = d + u;
        u = 0;
    }
    if !hit {
        match mine {
            Move::Charge => {
                if u + d < max {
                    u = u + 1;
                }
            },
            Move::Recover => {
                u = u + d;
                d = 0;
            },
            _ => {},
        }
    }
    Charges { up: u, down: d }
}

fn clash_note(an: &str, am: Move, bn: &str, bm: Move, hit_a: bool, hit_b: bool) -> (s: String)
    ensures
        s@ == clash_note_spec(an@, am, bn@, bm, hit_a, hit_b),
{
    let mut s = String::from_str(an);
    if hit_a && hit_b {
        s.append(" and ");
        s.append(bn);
        s.append(" trade blows!");
    } else if hit_b {
        s.append("'s ");
        s.append(am.name());
        s.append(" lands on ");
        s.append(bn);
        s.append(".");
    } else if hit_a {
        s = String::from_str(bn);
        s.append("'s ");
        s.append(bm.name());
        s.append(" lands on ");
        s.append(an);
        s.append(".");
    } else {
        s.append(" ");
        s.append(am.name());
        s.append(" / ");
        s.append(bn);
        s.append(" ");
        s.append(bm.name());
        s.append(" — nothing lands.");
    }
    s
}

/// Resolve one beat: side `a` plays `am`, side `b` plays `bm`. Hits land off the *current* (pre-flip)
/// Charges; a defended attack loses its active Charges to face-down; a setup resolves only if no
/// attack connected on its player this beat.
pub fn resolve(a: &Side, am: Move, b: &Side, bm: Move) -> (r: Clash)
    requires
        sums_charges(am, bm, connects_spec(bm, am)) ==> a.up + a.down <= u32::MAX,
        sums_charges(bm, am, connects_spec(am, bm)) ==> b.up + b.down <= u32::MAX,
    ensures
        r.on_b == (if connects_spec(am, bm) {
            Some(Strike { raw: damage_spec(a.power, a.up) })
        } else {
            None
        }),
        r.on_a == (if connects_spec(bm, am) {
            Some(Strike { raw: damage_spec(b.power, b.up) })
        } else {
            None
        }),
        r.a == charges_after(a.up, a.down, a.max, am, bm, connects_spec(bm, am)),
        r.b == charges_after(b.up, b.down, b.max, bm, am, connects_spec(am, bm)),
        r.connected == (connects_spec(am, bm) || connects_spec(bm, am)),
        r.note@ == clash_note_spec(a.name@, am, b.name@, bm, connects_spec(bm, am), connects_spec(am, bm)),
{
    let on_b = if connects(am, bm) {
        Some(Strike { raw: damage(a.power, a.up) })
    } else {
        None
    };
    let on_a = if connects(bm, am) {
        Some(Strike { raw: damage(b.power, b.up) })
    } else {
        None
    };
    let hit_a = on_a.is_some();
    let hit_b = on_b.is_some();
    let ca = settle_charges(a.up, a.down, a.max, am, bm, hit_a);
    let cb = settle_charges(b.up, b.down, b.max, bm, am, hit_b);
    let note = clash_note(a.name, am, b.name, bm, hit_a, hit_b);
    Clash { on_a, on_b, a: ca, b: cb, connected: hit_a || hit_b, note }
}

// ---------------------------------------------------------------------------------------------
// The three Clash invariants.
// ---------------------------------------------------------------------------------------------

/// **Avoid**: every attack has a standing defense that negates it — Parry answers Strike, Evade
/// answers Throw.
pub proof fn law_avoid(am: Move)
    requires
        is_attack_spec(am),
    ensures
        exists|dm: Move| is_defense_spec(dm) && !connects_spec(am, dm),
{
    if am == Move::Strike {
        assert(is_defense_spec(Move::Parry) && !connects_spec(am, Move::Parry));
    } else {
        assert(is_defense_spec(Move::Evade) && !connects_spec(am, Move::Evade));
    }
}

/// **Land**: whatever the opponent plays, some attack lands on it.
pub proof fn law_land(bm: Move)
    ensures
        exists|am: Move| is_attack_spec(am) && connects_spec(am, bm),
{
    if bm == Move::Parry {
        assert(is_attack_spec(Move::Throw) && connects_spec(Move::Throw, bm));
    } else {
        assert(is_attack_spec(Move::Strike) && connects_spec(Move::Strike, bm));
    }
}

/// **Not both, free**: any move that lands on a committed Strike is itself struck by it.
pub proof fn law_not_both_free(am: Move)
    ensures
        connects_spec(am, Move::Strike) ==> connects_spec(Move::Strike, am),
        connects_spec(am, Move::Strike) <==> am == Move::Strike,
{
}

/// Defense never connects and never hurts: a defense lands no hit, and a side that defends without
/// being hit keeps its Charges exactly (defense never depletes).
pub proof fn law_defense_is_standing(dm: Move, theirs: Move, up: u32, down: u32, max: u32)
    requires
        is_defense_spec(dm),
    ensures
        forall|x: Move| !connects_spec(dm, x),
        charges_after(up, down, max, dm, theirs, false) == (Charges { up, down }),
{
}

/// Charges are durable: an attack that is not defended keeps its Charges, hit or not.
pub proof fn law_charges_persist(am: Move, theirs: Move, up: u32, down: u32, max: u32, hit: bool)
    requires
        is_attack_spec(am),
        !defended_spec(am, theirs),
    ensures
        charges_after(up, down, max, am, theirs, hit) == (Charges { up, down }),
{
}

/// **Setups resolve unless interrupted**: a Charge adds one active Charge within capacity and a
/// Recover turns every face-down Charge back up — but only when no attack connected on their player
/// this beat; an interrupted setup leaves the Charges as they were.
pub proof fn law_setups_resolve_unless_interrupted(up: u32, down: u32, max: u32, theirs: Move, hit: bool)
    ensures
        hit ==> charges_after(up, down, max, Move::Charge, theirs, hit) == (Charges { up, down }),
        hit ==> charges_after(up, down, max, Move::Recover, theirs, hit) == (Charges { up, down }),
        !hit ==> charges_after(up, down, max, Move::Charge, theirs, hit) == (if up + down < max {
            Charges { up: (up + 1) as u32, down }
        } else {
            Charges { up, down }
        }),
        !hit ==> charges_after(up, down, max, Move::Recover, theirs, hit) == (Charges {
            up: (up + down) as u32,
            down: 0,
        }),
{
}

/// **Each active Charge doubles the blow, up to sixteen**: a blow from `up + 1` active Charges is
/// twice the blow from `up` (saturating at the `u32` ceiling) while `up` is under sixteen; from sixteen
/// on, more Charges add nothing; with none the blow is the bare power.
pub proof fn law_charges_double_the_blow(power: u32, up: u32)
    ensures
        damage_spec(power, 0) == power,
        up < 16 ==> damage_spec(power, (up + 1) as u32) == (if 2 * damage_spec(power, up) > u32::MAX {
            u32::MAX as int
        } else {
            2 * damage_spec(power, up)
        }),
        up >= 16 ==> damage_spec(power, up) == damage_spec(power, 16),
{
    assert(pow2(0) == 1);
    assert(power * pow2(0) == power);
    if up < 16 {
        let e = up as nat;
        assert(pow2((e + 1) as nat) == 2 * pow2(e));
        let p = power * pow2(e);
        assert(power * pow2((e + 1) as nat) == 2 * p) by (nonlinear_arith)
            requires
                pow2((e + 1) as nat) == 2 * pow2(e),
                p == power * pow2(e),
        ;
    }
}

} // verus!
