//! **The decision policy** — how a unit chooses among legal moves: which target it aims at, whether a
//! defender evades, whether it strikes back. The resolver applies the rules; the policy decides.
//!
//! - **Role priority lists**: a Vanguard targets `O→V→R`, an Outrider `R→V→O`, a Rearguard `V→O→R`.
//!   A unit holds its Tempo for a higher-priority engagement still to come rather than spend it on a
//!   lower one now.
//! - **Positive-effect rule, judged at the target**: commit a strike only when it would flip a card —
//!   alone, *or* via focus-fire (the combined Might of the team that can reach this target, plus what is
//!   already banked in its pile, crosses its Toughness).
//! - **Back-access gate**: a Rearguard is reachable only by an Outrider's raid, or once its own side's
//!   Vanguard has fallen.
//! - **Evade**: a defender spends Tempo to dodge only a blow that would flip a card, and only if it can
//!   afford the bid.
//! - **Strike-back**: only against a melee attacker, only by a melee-capable defender, and only when it
//!   can crack the attacker.

use vstd::prelude::*;
use crate::actor::{Actor, Intention, Range, actor_down, attack_has, eff_finesse_of, eff_might_of, eff_toughness_of, tokens_fit};
use crate::combat::{actor_fits, base_strike, base_strike_of, rem_of, schedule_len, schedule_spec, schedule_step};

verus! {

/// The role priority list: each role's ordered target preference.
pub open spec fn priorities_spec(role: Intention) -> Seq<Intention> {
    match role {
        Intention::Vanguard => seq![Intention::Outrider, Intention::Vanguard, Intention::Rearguard],
        Intention::Outrider => seq![Intention::Rearguard, Intention::Vanguard, Intention::Outrider],
        Intention::Rearguard => seq![Intention::Vanguard, Intention::Outrider, Intention::Rearguard],
    }
}

/// The role priority list: the Outrider alone puts the back first (its raid); every other role puts
/// it last.
pub fn priorities(role: Intention) -> (p: [Intention; 3])
    ensures
        p@ == priorities_spec(role),
{
    let p = match role {
        Intention::Vanguard => [Intention::Outrider, Intention::Vanguard, Intention::Rearguard],
        Intention::Outrider => [Intention::Rearguard, Intention::Vanguard, Intention::Outrider],
        Intention::Rearguard => [Intention::Vanguard, Intention::Outrider, Intention::Rearguard],
    };
    assert(p@ =~= priorities_spec(role));
    p
}

/// Body `j` of `def` stands and is declared a Vanguard.
pub open spec fn is_living_vanguard(def: Seq<Actor>, def_int: Seq<Intention>, j: int) -> bool {
    &&& !actor_down(def[j])
    &&& j < def_int.len()
    &&& def_int[j] == Intention::Vanguard
}

pub open spec fn vanguard_alive_spec(def: Seq<Actor>, def_int: Seq<Intention>) -> bool {
    exists|j: int| 0 <= j < def.len() && is_living_vanguard(def, def_int, j)
}

/// Does the pool still field a **living Vanguard**? (`def_int` is each unit's intention.)
pub fn vanguard_alive(def: &[Actor], def_int: &[Intention]) -> (b: bool)
    ensures
        b == vanguard_alive_spec(def@, def_int@),
{
    let mut j: usize = 0;
    while j < def.len()
        invariant
            j <= def@.len(),
            forall|k: int| 0 <= k < j ==> !is_living_vanguard(def@, def_int@, k),
        decreases def.len() - j,
    {
        if !def[j].is_down() && j < def_int.len() && def_int[j] == Intention::Vanguard {
            assert(is_living_vanguard(def@, def_int@, j as int));
            return true;
        }
        j = j + 1;
    }
    false
}

pub open spec fn can_reach_spec(attacker_is_outrider: bool, tgt_role: Intention, def: Seq<Actor>, def_int: Seq<Intention>) -> bool {
    tgt_role != Intention::Rearguard || attacker_is_outrider || !vanguard_alive_spec(def, def_int)
}

/// **Back-access gate**: a Rearguard target is reachable only by an **Outrider**'s raid, or once the
/// defending side has **no living Vanguard**. Any other target is always reachable.
pub fn can_reach(attacker_is_outrider: bool, tgt_role: Intention, def: &[Actor], def_int: &[Intention]) -> (b: bool)
    ensures
        b == can_reach_spec(attacker_is_outrider, tgt_role, def@, def_int@),
{
    if tgt_role != Intention::Rearguard {
        return true;
    }
    attacker_is_outrider || !vanguard_alive(def, def_int)
}

/// The pair `(a → t)` is one of an engagement's pairs.
pub open spec fn pair_in(pairs: Seq<(Intention, Intention)>, a: Intention, t: Intention) -> bool {
    exists|k: int| 0 <= k < pairs.len() && pairs[k] == (a, t)
}

/// The pair `(a → t)` resolves somewhere in the schedule.
pub open spec fn role_can_attack_spec(a: Intention, t: Intention) -> bool {
    exists|s: int| 0 <= s < schedule_spec().len() && pair_in(schedule_spec()[s], a, t)
}

/// Does engagement `pairs` hold the pair `(a → t)`?
fn holds_pair(pairs: &Vec<(Intention, Intention)>, a: Intention, t: Intention) -> (b: bool)
    ensures
        b == pair_in(pairs@, a, t),
{
    let mut k: usize = 0;
    while k < pairs.len()
        invariant
            k <= pairs@.len(),
            forall|q: int| 0 <= q < k ==> pairs@[q] != (a, t),
        decreases pairs.len() - k,
    {
        let (x, y) = pairs[k];
        if x == a && y == t {
            assert(pairs@[k as int] == (a, t));
            return true;
        }
        k = k + 1;
    }
    false
}

/// The engagement index in which `(a → t)` first resolves.
pub open spec fn step_of_spec(a: Intention, t: Intention) -> Option<usize> {
    if role_can_attack_spec(a, t) {
        Some(
            (choose|s: int|
                0 <= s < schedule_spec().len() && pair_in(schedule_spec()[s], a, t) && forall|r: int|
                    0 <= r < s ==> !pair_in(schedule_spec()[r], a, t)) as usize,
        )
    } else {
        None
    }
}

/// The schedule step index in which the pair `(atk_role → tgt_role)` resolves (its first), or `None`
/// if it is never a legal pair.
pub fn step_of(atk_role: Intention, tgt_role: Intention) -> (r: Option<usize>)
    ensures
        r == step_of_spec(atk_role, tgt_role),
{
    let n = schedule_len();
    let mut s: usize = 0;
    while s < n
        invariant
            n == schedule_spec().len(),
            s <= n,
            forall|q: int| 0 <= q < s ==> !pair_in(schedule_spec()[q], atk_role, tgt_role),
        decreases n - s,
    {
        let pairs = schedule_step(s);
        if holds_pair(&pairs, atk_role, tgt_role) {
            let ghost w = choose|w: int|
                0 <= w < schedule_spec().len() && pair_in(schedule_spec()[w], atk_role, tgt_role) && forall|r: int|
                    0 <= r < w ==> !pair_in(schedule_spec()[r], atk_role, tgt_role);
            assert(w == s as int) by {
                if w < s {
                } else if w > s {
                }
            }
            return Some(s);
        }
        s = s + 1;
    }
    None
}

/// Does the pair resolve somewhere in the schedule?
fn role_can_attack(a: Intention, t: Intention) -> (b: bool)
    ensures
        b == role_can_attack_spec(a, t),
{
    step_of(a, t).is_some()
}

// ---------------------------------------------------------------------------------------------
// Focus fire.
// ---------------------------------------------------------------------------------------------

/// The combined effective Might of the living members of `pool` (the first `n`) whose declared role
/// can reach `tgt_role`.
/// The focus-fire sum is at most `n` times the largest effective Might.
pub proof fn lemma_crack_sum_bound(pool: Seq<Actor>, ints: Seq<Intention>, tgt_role: Intention, n: int, cap: int)
    requires
        0 <= n <= pool.len(),
        cap >= 1,
        forall|j: int| 0 <= j < pool.len() ==> eff_might_of(#[trigger] pool[j]) <= cap,
    ensures
        crack_sum(pool, ints, tgt_role, n) <= n * cap,
    decreases n,
{
    if n > 0 {
        lemma_crack_sum_bound(pool, ints, tgt_role, n - 1, cap);
        assert(eff_might_of(pool[n - 1]) <= cap);
        assert((n - 1) * cap + cap == n * cap) by (nonlinear_arith);
    }
}

pub open spec fn crack_sum(pool: Seq<Actor>, ints: Seq<Intention>, tgt_role: Intention, n: int) -> nat
    decreases n,
{
    if n <= 0 {
        0
    } else {
        let j = n - 1;
        let here: nat = if !actor_down(pool[j]) && j < ints.len() && role_can_attack_spec(ints[j], tgt_role) {
            eff_might_of(pool[j]) as nat
        } else {
            0
        };
        crack_sum(pool, ints, tgt_role, n - 1) + here
    }
}

/// Every body's tokens fit.
pub open spec fn tallies_fit(p: Seq<Actor>) -> bool {
    forall|j: int| 0 <= j < p.len() ==> tokens_fit(#[trigger] p[j].tokens@)
}

pub open spec fn team_can_crack_spec(pool: Seq<Actor>, ints: Seq<Intention>, target: Actor, tgt_role: Intention) -> bool {
    crack_sum(pool, ints, tgt_role, pool.len() as int) + target.defense.health_pile >= eff_toughness_of(target)
}

/// **Focus-fire test**: a strike that cannot flip a card alone is still worth committing if the
/// **combined** effective Might of the team that can reach this target's role — plus what is already
/// banked in its pile — crosses its effective Toughness.
pub fn team_can_crack(atk_pool: &[Actor], atk_int: &[Intention], target: &Actor, tgt_role: Intention) -> (b: bool)
    requires
        tallies_fit(atk_pool@),
        tokens_fit(target.tokens@),
        crack_sum(atk_pool@, atk_int@, tgt_role, atk_pool@.len() as int) + target.defense.health_pile <= u32::MAX,
    ensures
        b == team_can_crack_spec(atk_pool@, atk_int@, *target, tgt_role),
{
    let tough = target.eff_toughness();
    let pile = target.defense.health_pile;
    let mut sum: u32 = 0;
    let mut j: usize = 0;
    proof {
        lemma_crack_sum_mono(atk_pool@, atk_int@, tgt_role, 0, atk_pool@.len() as int);
    }
    while j < atk_pool.len()
        invariant
            j <= atk_pool@.len(),
            tallies_fit(atk_pool@),
            sum == crack_sum(atk_pool@, atk_int@, tgt_role, j as int),
            crack_sum(atk_pool@, atk_int@, tgt_role, atk_pool@.len() as int) <= u32::MAX,
        decreases atk_pool.len() - j,
    {
        proof {
            lemma_crack_sum_mono(atk_pool@, atk_int@, tgt_role, j + 1, atk_pool@.len() as int);
        }
        let u = &atk_pool[j];
        if !u.is_down() && j < atk_int.len() && role_can_attack(atk_int[j], tgt_role) {
            assert(tokens_fit(atk_pool@[j as int].tokens@));
            sum = sum + u.eff_might();
        }
        j = j + 1;
    }
    sum + pile >= tough
}

proof fn lemma_crack_sum_mono(pool: Seq<Actor>, ints: Seq<Intention>, tgt_role: Intention, a: int, b: int)
    requires
        a <= b,
    ensures
        crack_sum(pool, ints, tgt_role, a) <= crack_sum(pool, ints, tgt_role, b),
    decreases b - a,
{
    if a < b {
        lemma_crack_sum_mono(pool, ints, tgt_role, a, b - 1);
    }
}

// ---------------------------------------------------------------------------------------------
// Targeting.
// ---------------------------------------------------------------------------------------------

/// Enemy `j` is a fair target for an attacker of effective Might `might`: standing, declared `tgt_role`,
/// and crackable — by this strike alone given its banked pile, or by the team's combined Might.
pub open spec fn candidate(
    might: u32,
    atk_pool: Seq<Actor>,
    atk_int: Seq<Intention>,
    tgt_role: Intention,
    def: Seq<Actor>,
    def_int: Seq<Intention>,
    j: int,
) -> bool {
    &&& 0 <= j < def.len()
    &&& !actor_down(def[j])
    &&& j < def_int.len()
    &&& def_int[j] == tgt_role
    &&& (might + def[j].defense.health_pile >= eff_toughness_of(def[j]) || team_can_crack_spec(
        atk_pool,
        atk_int,
        def[j],
        tgt_role,
    ))
}

/// Candidate `j` has the fewest remaining health cards, the lowest index among ties.
pub open spec fn is_best(
    might: u32,
    atk_pool: Seq<Actor>,
    atk_int: Seq<Intention>,
    tgt_role: Intention,
    def: Seq<Actor>,
    def_int: Seq<Intention>,
    j: int,
) -> bool {
    &&& candidate(might, atk_pool, atk_int, tgt_role, def, def_int, j)
    &&& forall|k: int|
        #[trigger] candidate(might, atk_pool, atk_int, tgt_role, def, def_int, k) ==> rem_of(def[j]) < rem_of(def[k])
            || (rem_of(def[j]) == rem_of(def[k]) && j <= k)
}

/// The target an attacker chooses: nothing when the target role is out of reach; otherwise the best
/// candidate, if any.
pub open spec fn chosen(
    attacker: Actor,
    attacker_is_outrider: bool,
    atk_pool: Seq<Actor>,
    atk_int: Seq<Intention>,
    tgt_role: Intention,
    def: Seq<Actor>,
    def_int: Seq<Intention>,
) -> Option<usize> {
    let might = eff_might_of(attacker);
    if !can_reach_spec(attacker_is_outrider, tgt_role, def, def_int) {
        None
    } else if exists|j: int| is_best(might, atk_pool, atk_int, tgt_role, def, def_int, j) {
        Some((choose|j: int| is_best(might, atk_pool, atk_int, tgt_role, def, def_int, j)) as usize)
    } else {
        None
    }
}

/// The numbers a targeting decision reads all fit.
pub open spec fn targeting_fits(attacker: Actor, atk_pool: Seq<Actor>, atk_int: Seq<Intention>, tgt_role: Intention, def: Seq<Actor>) -> bool {
    &&& tokens_fit(attacker.tokens@)
    &&& tallies_fit(atk_pool)
    &&& tallies_fit(def)
    &&& forall|j: int|
        0 <= j < def.len() && !actor_down(#[trigger] def[j]) ==> eff_might_of(attacker) + def[j].defense.health_pile
            <= u32::MAX && crack_sum(atk_pool, atk_int, tgt_role, atk_pool.len() as int) + def[j].defense.health_pile
            <= u32::MAX
}

/// Pick the best target for `attacker` among living enemies of `tgt_role`: reachable (back-access
/// gate), crackable (alone given the banked pile, or by focus-fire), fewest remaining health cards
/// first (ties to the front-most). Returns the chosen enemy's index in `def`.
pub fn choose_target(
    attacker: &Actor,
    attacker_is_outrider: bool,
    atk_pool: &[Actor],
    atk_int: &[Intention],
    tgt_role: Intention,
    def: &[Actor],
    def_int: &[Intention],
) -> (r: Option<usize>)
    requires
        targeting_fits(*attacker, atk_pool@, atk_int@, tgt_role, def@),
    ensures
        r == chosen(*attacker, attacker_is_outrider, atk_pool@, atk_int@, tgt_role, def@, def_int@),
{
    if !can_reach(attacker_is_outrider, tgt_role, def, def_int) {
        return None;
    }
    let might = attacker.eff_might();
    let ghost ap = atk_pool@;
    let ghost ai = atk_int@;
    let ghost dp = def@;
    let ghost di = def_int@;
    let mut best: Option<usize> = None;
    let mut j: usize = 0;
    while j < def.len()
        invariant
            j <= dp.len(),
            dp == def@,
            might == eff_might_of(*attacker),
            targeting_fits(*attacker, ap, ai, tgt_role, dp),
            ap == atk_pool@,
            ai == atk_int@,
            di == def_int@,
            match best {
                None => forall|k: int| 0 <= k < j ==> !candidate(might, ap, ai, tgt_role, dp, di, k),
                Some(b) => {
                    &&& b < j
                    &&& candidate(might, ap, ai, tgt_role, dp, di, b as int)
                    &&& forall|k: int|
                        0 <= k < j && #[trigger] candidate(might, ap, ai, tgt_role, dp, di, k) ==> rem_of(dp[b as int])
                            < rem_of(dp[k]) || (rem_of(dp[b as int]) == rem_of(dp[k]) && b <= k)
                },
            },
        decreases def.len() - j,
    {
        let u = &def[j];
        let is_cand = if !u.is_down() && j < def_int.len() && def_int[j] == tgt_role {
            assert(tokens_fit(dp[j as int].tokens@));
            let pile = u.defense.health_pile;
            let tough = u.eff_toughness();
            might + pile >= tough || team_can_crack(atk_pool, atk_int, u, tgt_role)
        } else {
            false
        };
        assert(is_cand == candidate(might, ap, ai, tgt_role, dp, di, j as int));
        if is_cand {
            let r = u.defense.health.remaining();
            match best {
                None => {
                    best = Some(j);
                },
                Some(b) => {
                    let rb = def[b].defense.health.remaining();
                    if r < rb {
                        best = Some(j);
                    }
                },
            }
        }
        j = j + 1;
    }
    proof {
        match best {
            None => {
                assert forall|k: int| !is_best(might, ap, ai, tgt_role, dp, di, k) by {
                    if is_best(might, ap, ai, tgt_role, dp, di, k) {
                        assert(candidate(might, ap, ai, tgt_role, dp, di, k));
                    }
                }
            },
            Some(b) => {
                assert(is_best(might, ap, ai, tgt_role, dp, di, b as int));
                let w = choose|w: int| is_best(might, ap, ai, tgt_role, dp, di, w);
                assert(candidate(might, ap, ai, tgt_role, dp, di, w));
                assert(w == b as int);
            },
        }
    }
    best
}

// ---------------------------------------------------------------------------------------------
// The governing target.
// ---------------------------------------------------------------------------------------------

/// Walk an attacker's priorities from the `k`-th on: the first priority with a chosen target decides —
/// strike it if its engagement is `step_idx`, hold (nothing) if its engagement is still to come, skip
/// to the next priority if its engagement has passed.
pub open spec fn governing_from(
    step_idx: usize,
    attacker: Actor,
    atk_role: Intention,
    atk_pool: Seq<Actor>,
    atk_int: Seq<Intention>,
    def: Seq<Actor>,
    def_int: Seq<Intention>,
    k: int,
) -> Option<(Intention, usize)>
    decreases 3 - k,
{
    if k >= 3 || k < 0 {
        None
    } else {
        let role = priorities_spec(atk_role)[k];
        match step_of_spec(atk_role, role) {
            None => governing_from(step_idx, attacker, atk_role, atk_pool, atk_int, def, def_int, k + 1),
            Some(st) => match chosen(
                attacker,
                atk_role == Intention::Outrider,
                atk_pool,
                atk_int,
                role,
                def,
                def_int,
            ) {
                None => governing_from(step_idx, attacker, atk_role, atk_pool, atk_int, def, def_int, k + 1),
                Some(ti) => if st == step_idx {
                    Some((role, ti))
                } else if st > step_idx {
                    None
                } else {
                    governing_from(step_idx, attacker, atk_role, atk_pool, atk_int, def, def_int, k + 1)
                },
            },
        }
    }
}

/// A governing target is a standing enemy of the role it was chosen for.
pub proof fn lemma_governing_target(
    step_idx: usize,
    attacker: Actor,
    atk_role: Intention,
    atk_pool: Seq<Actor>,
    atk_int: Seq<Intention>,
    def: Seq<Actor>,
    def_int: Seq<Intention>,
    k: int,
)
    requires
        def.len() <= usize::MAX,
    ensures
        governing_from(step_idx, attacker, atk_role, atk_pool, atk_int, def, def_int, k) matches Some((r, ti)) ==> {
            &&& ti < def.len()
            &&& !actor_down(def[ti as int])
            &&& ti < def_int.len()
            &&& def_int[ti as int] == r
        },
    decreases 3 - k,
{
    if 0 <= k < 3 {
        lemma_governing_target(step_idx, attacker, atk_role, atk_pool, atk_int, def, def_int, k + 1);
        let role = priorities_spec(atk_role)[k];
        let c = chosen(attacker, atk_role == Intention::Outrider, atk_pool, atk_int, role, def, def_int);
        if c is Some {
            let might = eff_might_of(attacker);
            let j = choose|j: int| is_best(might, atk_pool, atk_int, role, def, def_int, j);
            assert(candidate(might, atk_pool, atk_int, role, def, def_int, j));
        }
    }
}

/// The numbers every targeting decision of an attacker reads fit, whatever role it aims at.
pub open spec fn governing_fits(attacker: Actor, atk_pool: Seq<Actor>, atk_int: Seq<Intention>, def: Seq<Actor>) -> bool {
    &&& targeting_fits(attacker, atk_pool, atk_int, Intention::Vanguard, def)
    &&& targeting_fits(attacker, atk_pool, atk_int, Intention::Outrider, def)
    &&& targeting_fits(attacker, atk_pool, atk_int, Intention::Rearguard, def)
}

/// **The governing target for `attacker` this engagement step**, by the role priority list timed
/// against the schedule. Returns the chosen target's role and its index in `def`.
pub fn governing_target(
    step_idx: usize,
    attacker: &Actor,
    atk_role: Intention,
    atk_pool: &[Actor],
    atk_int: &[Intention],
    def: &[Actor],
    def_int: &[Intention],
) -> (r: Option<(Intention, usize)>)
    requires
        governing_fits(*attacker, atk_pool@, atk_int@, def@),
    ensures
        r == governing_from(step_idx, *attacker, atk_role, atk_pool@, atk_int@, def@, def_int@, 0),
{
    let is_outrider = atk_role == Intention::Outrider;
    let prios = priorities(atk_role);
    let mut k: usize = 0;
    while k < 3
        invariant
            k <= 3,
            prios@ == priorities_spec(atk_role),
            is_outrider == (atk_role == Intention::Outrider),
            governing_fits(*attacker, atk_pool@, atk_int@, def@),
            governing_from(step_idx, *attacker, atk_role, atk_pool@, atk_int@, def@, def_int@, 0)
                == governing_from(step_idx, *attacker, atk_role, atk_pool@, atk_int@, def@, def_int@, k as int),
        decreases 3 - k,
    {
        let role = prios[k];
        let st = step_of(atk_role, role);
        match st {
            None => {},
            Some(st) => {
                let pick = choose_target(attacker, is_outrider, atk_pool, atk_int, role, def, def_int);
                match pick {
                    None => {},
                    Some(ti) => {
                        if st == step_idx {
                            return Some((role, ti));
                        }
                        if st > step_idx {
                            return None;
                        }
                    },
                }
            },
        }
        k = k + 1;
    }
    None
}

// ---------------------------------------------------------------------------------------------
// Evade and strike-back.
// ---------------------------------------------------------------------------------------------

/// The contest's card count `floor(fa / max(fd, 1)) + 1`: the fewest cards whose Finesse strictly
/// exceeds the attacker's.
pub open spec fn avoid_cost_spec(fa: u32, fd: u32) -> int {
    fa as int / (if fd >= 1 { fd as int } else { 1 }) + 1
}

/// Does a body of this role evade aimed blows? A **Vanguard endures** — it holds the line and takes
/// the blow, keeping its Tempo for offense; an Outrider or Rearguard evades.
pub fn role_evades(r: Intention) -> (b: bool)
    ensures
        b == (r != Intention::Vanguard),
{
    r != Intention::Vanguard
}

/// Tempo a defender must commit to **avoid** one attack: `cards × Fd` must strictly exceed `Fa`, so
/// the minimum cards is `floor(Fa / Fd) + 1` (a Finesse of 0 counts as 1).
pub fn avoid_cost(attacker_finesse: u32, defender_finesse: u32) -> (c: i32)
    requires
        attacker_finesse as int / (if defender_finesse >= 1 { defender_finesse as int } else { 1 }) < i32::MAX,
    ensures
        c as int == avoid_cost_spec(attacker_finesse, defender_finesse),
{
    let fd = if defender_finesse < 1 {
        1
    } else {
        defender_finesse
    };
    let q: u32 = attacker_finesse / fd;
    (q as i32) + 1
}

pub open spec fn should_avoid_spec(defender: Actor, might: u32, attacker_finesse: u32) -> bool {
    might >= eff_toughness_of(defender) && defender.tempo >= avoid_cost_spec(
        attacker_finesse,
        eff_finesse_of(defender),
    )
}

/// **Should the soaker evade this aimed blow?** Only a blow that would flip a card (Might ≥ effective
/// Toughness — sub-threshold hits wipe harmlessly at the boundary), and only if it can afford the bid.
pub fn should_avoid(defender: &Actor, might: u32, attacker_finesse: u32) -> (b: bool)
    requires
        tokens_fit(defender.tokens@),
        attacker_finesse as int / (eff_finesse_of(*defender) as int) < i32::MAX,
    ensures
        b == should_avoid_spec(*defender, might, attacker_finesse),
{
    let bar = defender.eff_toughness();
    let cost = avoid_cost(attacker_finesse, defender.eff_finesse());
    might >= bar && defender.tempo >= cost
}

pub open spec fn should_strike_back_spec(soaker: Actor, atk: Actor) -> bool {
    &&& attack_has(soaker.attack, Range::Melee)
    &&& !actor_down(soaker)
    &&& !actor_down(atk)
    &&& soaker.tempo >= 1
    &&& base_strike_of(soaker) + atk.defense.health_pile >= eff_toughness_of(atk)
}

/// **Should `soaker` strike back at the melee attacker `atk`?** Only by a melee-capable, standing
/// defender with Tempo to spend, at a standing attacker, and only when its blow plus the attacker's
/// banked pile cracks the attacker's Toughness.
pub fn should_strike_back(soaker: &Actor, atk: &Actor) -> (b: bool)
    requires
        actor_fits(*soaker),
        tokens_fit(atk.tokens@),
        !actor_down(*atk) ==> base_strike_of(*soaker) + atk.defense.health_pile <= u32::MAX,
    ensures
        b == should_strike_back_spec(*soaker, *atk),
{
    soaker.attack.has(Range::Melee) && !soaker.is_down() && !atk.is_down() && soaker.tempo >= 1
        && base_strike(soaker) + atk.defense.health_pile >= atk.eff_toughness()
}


/// `t` cards of grade `g` strictly out-bid `x` exactly when there are more than `floor(x / g)` of them;
/// the floor itself does not.
pub proof fn lemma_strict_bid(x: int, g: int, t: int)
    requires
        x >= 0,
        g >= 1,
    ensures
        (x / g) * g <= x,
        (x / g + 1) * g > x,
        t * g > x <==> t >= x / g + 1,
{
    vstd::arithmetic::div_mod::lemma_fundamental_div_mod(x, g);
    vstd::arithmetic::div_mod::lemma_mod_pos_bound(x, g);
    let q = x / g;
    let r = x % g;
    assert(q * g == g * q) by (nonlinear_arith);
    assert((q + 1) * g == q * g + g) by (nonlinear_arith);
    if t >= q + 1 {
        assert(t * g >= (q + 1) * g) by (nonlinear_arith)
            requires
                t >= q + 1,
                g >= 1,
        ;
    } else {
        assert(t * g <= q * g) by (nonlinear_arith)
            requires
                t <= q,
                g >= 1,
        ;
    }
}

/// **An evade is a strict out-bid**: the cost of avoiding an attacker of Finesse `fa` is the fewest
/// Tempo cards of the defender's grade (a Finesse of 0 counting as 1) whose combined Finesse strictly
/// exceeds `fa` — one card fewer does not (a tie lands the blow).
pub proof fn law_avoid_cost_is_the_least_strict_bid(fa: u32, fd: u32)
    ensures
        ({
            let g = if fd >= 1 { fd as int } else { 1 };
            let c = avoid_cost_spec(fa, fd);
            &&& c * g > fa
            &&& (c - 1) * g <= fa
        }),
{
    let g = if fd >= 1 { fd as int } else { 1 };
    lemma_strict_bid(fa as int, g, 0);
}

/// **A defender evades only a blow that would flip a card, and only with a strict out-bid**: it
/// evades exactly when the blow's Might reaches its effective Toughness and its Tempo cards, at its
/// effective Finesse, strictly exceed the attacker's Finesse.
pub proof fn law_evade_only_harmful_blows(defender: Actor, might: u32, attacker_finesse: u32)
    ensures
        should_avoid_spec(defender, might, attacker_finesse) <==> (might >= eff_toughness_of(defender)
            && defender.tempo * eff_finesse_of(defender) > attacker_finesse),
        should_avoid_spec(defender, might, attacker_finesse) ==> might >= eff_toughness_of(defender),
{
    let g = eff_finesse_of(defender) as int;
    assert(g >= 1);
    lemma_strict_bid(attacker_finesse as int, g, defender.tempo as int);
}

/// **A strike-back is taken only when it cracks the attacker**: a soaker answers only when its base
/// strike plus the attacker's banked pile reaches the attacker's effective Toughness, and then only
/// a standing, melee-capable soaker with Tempo to spend, at a standing attacker.
pub proof fn law_strike_back_only_cracks(soaker: Actor, atk: Actor)
    ensures
        should_strike_back_spec(soaker, atk) ==> base_strike_of(soaker) + atk.defense.health_pile >= eff_toughness_of(atk),
        should_strike_back_spec(soaker, atk) ==> soaker.tempo >= 1 && !actor_down(soaker) && !actor_down(atk)
            && attack_has(soaker.attack, Range::Melee),
        base_strike_of(soaker) + atk.defense.health_pile < eff_toughness_of(atk) ==> !should_strike_back_spec(soaker, atk),
{
}

/// **The back-access gate**: a Vanguard or an Outrider is always within reach; a Rearguard is
/// within reach exactly when the attacker is an Outrider or every body declared a Vanguard is down.
pub proof fn law_back_gate(attacker_is_outrider: bool, tgt_role: Intention, def: Seq<Actor>, def_int: Seq<Intention>)
    ensures
        tgt_role != Intention::Rearguard ==> can_reach_spec(attacker_is_outrider, tgt_role, def, def_int),
        tgt_role == Intention::Rearguard ==> (can_reach_spec(attacker_is_outrider, tgt_role, def, def_int) <==> (
        attacker_is_outrider || forall|j: int|
            0 <= j < def.len() && j < def_int.len() && def_int[j] == Intention::Vanguard ==> actor_down(
                #[trigger] def[j],
            ))),
{
    if tgt_role == Intention::Rearguard && !attacker_is_outrider {
        if vanguard_alive_spec(def, def_int) {
            let j = choose|j: int| 0 <= j < def.len() && is_living_vanguard(def, def_int, j);
            assert(!actor_down(def[j]));
        } else {
            assert forall|j: int|
                0 <= j < def.len() && j < def_int.len() && def_int[j] == Intention::Vanguard implies actor_down(
                    #[trigger] def[j],
                ) by {
                assert(!is_living_vanguard(def, def_int, j));
            }
        }
    }
}

/// **Focus fire counts every reaching member**: the team's combined Might against a role is at least
/// the effective Might of each standing member whose role reaches it, and it is nothing when no
/// standing member's role reaches it.
pub proof fn law_focus_fire_sums_the_team(pool: Seq<Actor>, ints: Seq<Intention>, tgt_role: Intention)
    ensures
        forall|j: int|
            0 <= j < pool.len() && !actor_down(#[trigger] pool[j]) && j < ints.len() && role_can_attack_spec(ints[j], tgt_role)
                ==> crack_sum(pool, ints, tgt_role, pool.len() as int) >= eff_might_of(pool[j]),
        (forall|j: int|
            0 <= j < pool.len() && !actor_down(#[trigger] pool[j]) && j < ints.len() ==> !role_can_attack_spec(
                ints[j],
                tgt_role,
            )) ==> crack_sum(pool, ints, tgt_role, pool.len() as int) == 0,
{
    lemma_focus_fire_prefix(pool, ints, tgt_role, pool.len() as int);
}

proof fn lemma_focus_fire_prefix(pool: Seq<Actor>, ints: Seq<Intention>, tgt_role: Intention, n: int)
    requires
        0 <= n <= pool.len(),
    ensures
        forall|j: int|
            0 <= j < n && !actor_down(#[trigger] pool[j]) && j < ints.len() && role_can_attack_spec(ints[j], tgt_role)
                ==> crack_sum(pool, ints, tgt_role, n) >= eff_might_of(pool[j]),
        (forall|j: int|
            0 <= j < n && !actor_down(#[trigger] pool[j]) && j < ints.len() ==> !role_can_attack_spec(ints[j], tgt_role))
            ==> crack_sum(pool, ints, tgt_role, n) == 0,
    decreases n,
{
    if n > 0 {
        lemma_focus_fire_prefix(pool, ints, tgt_role, n - 1);
    }
}

/// The role each role first hunts: the one it counters on the cycle (the Vanguard runs down the
/// flanking Outrider, the Outrider raids the back, the Rearguard shoots the front).
pub open spec fn prey(r: Intention) -> Intention {
    match r {
        Intention::Vanguard => Intention::Outrider,
        Intention::Outrider => Intention::Rearguard,
        Intention::Rearguard => Intention::Vanguard,
    }
}

/// **Each role hunts its prey first, then the front, and the back last**: every priority list names
/// each role once; it opens with the role its owner counters; of the other two, the Vanguard comes
/// before the rest and the Rearguard after.
pub proof fn law_priorities_hunt_the_prey_first(r: Intention)
    ensures
        priorities_spec(r).len() == 3,
        forall|t: Intention| #[trigger] priorities_spec(r).contains(t),
        priorities_spec(r)[0] == prey(r),
        forall|i: int, j: int|
            1 <= i < j < 3 ==> (priorities_spec(r)[i] == Intention::Vanguard || priorities_spec(r)[j] == Intention::Rearguard),
{
    assert forall|t: Intention| #[trigger] priorities_spec(r).contains(t) by {
        let p = priorities_spec(r);
        if p[0] == t {
        } else if p[1] == t {
        } else {
            assert(p[2] == t);
        }
    }
}

/// **The fewest health cards first**: a chosen target is a fair candidate (standing, of the aimed
/// role, crackable), it has no more remaining health cards than any other candidate, and among those
/// with as few it is the front-most; with no reachable candidate there is no target.
pub proof fn law_target_has_fewest_cards(
    attacker: Actor,
    attacker_is_outrider: bool,
    atk_pool: Seq<Actor>,
    atk_int: Seq<Intention>,
    tgt_role: Intention,
    def: Seq<Actor>,
    def_int: Seq<Intention>,
)
    requires
        def.len() <= usize::MAX,
    ensures
        chosen(attacker, attacker_is_outrider, atk_pool, atk_int, tgt_role, def, def_int) matches Some(j) ==> {
            let m = eff_might_of(attacker);
            &&& candidate(m, atk_pool, atk_int, tgt_role, def, def_int, j as int)
            &&& forall|k: int|
                #[trigger] candidate(m, atk_pool, atk_int, tgt_role, def, def_int, k) ==> rem_of(def[j as int]) <= rem_of(def[k])
                    && (rem_of(def[j as int]) == rem_of(def[k]) ==> j <= k)
        },
        can_reach_spec(attacker_is_outrider, tgt_role, def, def_int) && (exists|k: int|
            #[trigger] candidate(eff_might_of(attacker), atk_pool, atk_int, tgt_role, def, def_int, k)) ==> chosen(
            attacker,
            attacker_is_outrider,
            atk_pool,
            atk_int,
            tgt_role,
            def,
            def_int,
        ) is Some,
        !can_reach_spec(attacker_is_outrider, tgt_role, def, def_int) ==> chosen(
            attacker,
            attacker_is_outrider,
            atk_pool,
            atk_int,
            tgt_role,
            def,
            def_int,
        ) is None,
{
    let m = eff_might_of(attacker);
    if exists|j: int| is_best(m, atk_pool, atk_int, tgt_role, def, def_int, j) {
        let j = choose|j: int| is_best(m, atk_pool, atk_int, tgt_role, def, def_int, j);
        assert(0 <= j < def.len());
        assert(j as usize as int == j);
    }
    if exists|k: int| #[trigger] candidate(m, atk_pool, atk_int, tgt_role, def, def_int, k) {
        let k0 = choose|k: int| #[trigger] candidate(m, atk_pool, atk_int, tgt_role, def, def_int, k);
        lemma_best_exists(m, atk_pool, atk_int, tgt_role, def, def_int, k0, def.len() as int);
    }
}

/// Among the candidates below `n` (one of them `k0`), one is best among all candidates below `n`.
proof fn lemma_best_below(
    m: u32,
    atk_pool: Seq<Actor>,
    atk_int: Seq<Intention>,
    tgt_role: Intention,
    def: Seq<Actor>,
    def_int: Seq<Intention>,
    k0: int,
    n: int,
) -> (b: int)
    requires
        candidate(m, atk_pool, atk_int, tgt_role, def, def_int, k0),
        k0 < n,
    ensures
        candidate(m, atk_pool, atk_int, tgt_role, def, def_int, b),
        b < n,
        forall|k: int|
            k < n && #[trigger] candidate(m, atk_pool, atk_int, tgt_role, def, def_int, k) ==> rem_of(def[b]) < rem_of(def[k])
                || (rem_of(def[b]) == rem_of(def[k]) && b <= k),
    decreases n,
{
    if n - 1 == k0 {
        if exists|k: int| k < n - 1 && #[trigger] candidate(m, atk_pool, atk_int, tgt_role, def, def_int, k) {
            let k1 = choose|k: int| k < n - 1 && #[trigger] candidate(m, atk_pool, atk_int, tgt_role, def, def_int, k);
            let b1 = lemma_best_below(m, atk_pool, atk_int, tgt_role, def, def_int, k1, n - 1);
            if rem_of(def[b1]) <= rem_of(def[k0]) {
                b1
            } else {
                k0
            }
        } else {
            k0
        }
    } else {
        let b1 = lemma_best_below(m, atk_pool, atk_int, tgt_role, def, def_int, k0, n - 1);
        if candidate(m, atk_pool, atk_int, tgt_role, def, def_int, n - 1) && rem_of(def[n - 1]) < rem_of(def[b1]) {
            n - 1
        } else {
            b1
        }
    }
}

proof fn lemma_best_exists(
    m: u32,
    atk_pool: Seq<Actor>,
    atk_int: Seq<Intention>,
    tgt_role: Intention,
    def: Seq<Actor>,
    def_int: Seq<Intention>,
    k0: int,
    n: int,
)
    requires
        candidate(m, atk_pool, atk_int, tgt_role, def, def_int, k0),
        n == def.len(),
    ensures
        exists|j: int| is_best(m, atk_pool, atk_int, tgt_role, def, def_int, j),
{
    let b = lemma_best_below(m, atk_pool, atk_int, tgt_role, def, def_int, k0, n);
    assert(is_best(m, atk_pool, atk_int, tgt_role, def, def_int, b));
}

/// `d1` is `d0` with (at most) its bodies' Tempo changed.
pub open spec fn same_but_tempo(d0: Seq<Actor>, d1: Seq<Actor>) -> bool {
    &&& d1.len() == d0.len()
    &&& forall|j: int| 0 <= j < d0.len() ==> #[trigger] d1[j] == (Actor { tempo: d1[j].tempo, ..d0[j] })
}

proof fn lemma_best_unique(
    might: u32,
    atk_pool: Seq<Actor>,
    atk_int: Seq<Intention>,
    tgt_role: Intention,
    def: Seq<Actor>,
    def_int: Seq<Intention>,
    i: int,
    j: int,
)
    requires
        is_best(might, atk_pool, atk_int, tgt_role, def, def_int, i),
        is_best(might, atk_pool, atk_int, tgt_role, def, def_int, j),
    ensures
        i == j,
{
    assert(candidate(might, atk_pool, atk_int, tgt_role, def, def_int, j));
    assert(candidate(might, atk_pool, atk_int, tgt_role, def, def_int, i));
}

/// A targeting decision reads no Tempo of the defending bodies.
pub proof fn lemma_chosen_ignores_tempo(
    attacker: Actor,
    outrider: bool,
    atk_pool: Seq<Actor>,
    atk_int: Seq<Intention>,
    tgt_role: Intention,
    d0: Seq<Actor>,
    d1: Seq<Actor>,
    def_int: Seq<Intention>,
)
    requires
        same_but_tempo(d0, d1),
    ensures
        chosen(attacker, outrider, atk_pool, atk_int, tgt_role, d1, def_int) == chosen(
            attacker,
            outrider,
            atk_pool,
            atk_int,
            tgt_role,
            d0,
            def_int,
        ),
{
    let might = eff_might_of(attacker);
    assert forall|j: int| #[trigger] candidate(might, atk_pool, atk_int, tgt_role, d1, def_int, j) == candidate(
        might,
        atk_pool,
        atk_int,
        tgt_role,
        d0,
        def_int,
        j,
    ) by {
        if 0 <= j < d0.len() {
            assert(d1[j] == (Actor { tempo: d1[j].tempo, ..d0[j] }));
        }
    }
    assert forall|k: int| 0 <= k < d0.len() implies rem_of(#[trigger] d1[k]) == rem_of(d0[k]) by {
        assert(d1[k] == (Actor { tempo: d1[k].tempo, ..d0[k] }));
    }
    assert forall|j: int| #[trigger] is_best(might, atk_pool, atk_int, tgt_role, d1, def_int, j) == is_best(
        might,
        atk_pool,
        atk_int,
        tgt_role,
        d0,
        def_int,
        j,
    ) by {
        if is_best(might, atk_pool, atk_int, tgt_role, d1, def_int, j) {
            assert forall|k: int| #[trigger] candidate(might, atk_pool, atk_int, tgt_role, d0, def_int, k) implies rem_of(
                d0[j],
            ) < rem_of(d0[k]) || (rem_of(d0[j]) == rem_of(d0[k]) && j <= k) by {
                assert(candidate(might, atk_pool, atk_int, tgt_role, d1, def_int, k));
            }
        }
        if is_best(might, atk_pool, atk_int, tgt_role, d0, def_int, j) {
            assert forall|k: int| #[trigger] candidate(might, atk_pool, atk_int, tgt_role, d1, def_int, k) implies rem_of(
                d1[j],
            ) < rem_of(d1[k]) || (rem_of(d1[j]) == rem_of(d1[k]) && j <= k) by {
                assert(candidate(might, atk_pool, atk_int, tgt_role, d0, def_int, k));
            }
        }
    }
    assert forall|j: int| 0 <= j < d0.len() implies is_living_vanguard(d1, def_int, j) == is_living_vanguard(
        d0,
        def_int,
        j,
    ) by {
        assert(d1[j] == (Actor { tempo: d1[j].tempo, ..d0[j] }));
    }
    assert(vanguard_alive_spec(d1, def_int) == vanguard_alive_spec(d0, def_int));
    if exists|j: int| is_best(might, atk_pool, atk_int, tgt_role, d0, def_int, j) {
        let a = choose|j: int| is_best(might, atk_pool, atk_int, tgt_role, d0, def_int, j);
        let b = choose|j: int| is_best(might, atk_pool, atk_int, tgt_role, d1, def_int, j);
        assert(is_best(might, atk_pool, atk_int, tgt_role, d1, def_int, a));
        assert(is_best(might, atk_pool, atk_int, tgt_role, d0, def_int, b));
        lemma_best_unique(might, atk_pool, atk_int, tgt_role, d0, def_int, a, b);
    }
}

/// The governing target reads no Tempo of the defending bodies.
pub proof fn lemma_governing_ignores_tempo(
    step_idx: usize,
    attacker: Actor,
    atk_role: Intention,
    atk_pool: Seq<Actor>,
    atk_int: Seq<Intention>,
    d0: Seq<Actor>,
    d1: Seq<Actor>,
    def_int: Seq<Intention>,
    k: int,
)
    requires
        same_but_tempo(d0, d1),
    ensures
        governing_from(step_idx, attacker, atk_role, atk_pool, atk_int, d1, def_int, k) == governing_from(
            step_idx,
            attacker,
            atk_role,
            atk_pool,
            atk_int,
            d0,
            def_int,
            k,
        ),
    decreases 3 - k,
{
    if 0 <= k < 3 {
        let role = priorities_spec(atk_role)[k];
        lemma_chosen_ignores_tempo(attacker, atk_role == Intention::Outrider, atk_pool, atk_int, role, d0, d1, def_int);
        lemma_governing_ignores_tempo(step_idx, attacker, atk_role, atk_pool, atk_int, d0, d1, def_int, k + 1);
    }
}

} // verus!
