//! **Groups**: same-side Actors bound at form-up into one unit (one position, one shared target,
//! **distinct** Health). The mechanical core as pure functions over a group's member values:
//!
//! - **Sum to block, weakest-link to slip** ([`block_bid`] / [`group_slips`]).
//! - **Spillover in declared order** ([`spillover`]) — single-target damage applies point-by-point
//!   down the declared order, overflowing to the next member once the current is spent.
//! - **AoE hits every member** ([`aoe`]) — at full value, bypassing the spillover queue.
//! - **Acting costs one Tempo per member** ([`group_can_act`]).
//! - **Hoard X** ([`hoard_bodies`]) — a swarm authored as one card: X one-Health bodies.

use vstd::prelude::*;
use vstd::slice::*;

verus! {

/// The sum of a sequence of `u32`s.
pub open spec fn total(s: Seq<u32>) -> int
    decreases s.len(),
{
    if s.len() == 0 {
        0
    } else {
        s[0] + total(s.drop_first())
    }
}

/// The sum of a sequence of `i32`s is never needed; a group acts when every member has Tempo.
pub open spec fn all_positive(s: Seq<i32>) -> bool {
    forall|i: int| 0 <= i < s.len() ==> s[i] > 0
}

/// Spillover: damage applied point-by-point front to back; each member absorbs up to its Health and
/// the walk stops once the damage is spent. Returns the new Health values and the leftover.
pub open spec fn spill_spec(damage: nat, s: Seq<u32>) -> (Seq<u32>, nat)
    decreases s.len(),
{
    if s.len() == 0 {
        (s, damage)
    } else {
        let a = vstd::math::min(damage as int, s[0] as int);
        let d = (damage - a) as nat;
        let h = (s[0] - a) as u32;
        if d == 0 {
            (s.update(0, h), 0)
        } else {
            let rest = spill_spec(d, s.drop_first());
            (seq![h] + rest.0, rest.1)
        }
    }
}

/// `x - v` floored at 0.
pub open spec fn sat_sub(x: u32, v: u32) -> u32 {
    if x >= v {
        (x - v) as u32
    } else {
        0
    }
}

proof fn lemma_total_nonneg(s: Seq<u32>)
    ensures
        total(s) >= 0,
    decreases s.len(),
{
    if s.len() > 0 {
        lemma_total_nonneg(s.drop_first());
    }
}

/// **Sum to block**: a group pools its members' Tempo bids into one summed hold.
pub fn block_bid(member_bids: &[u32]) -> (b: u32)
    requires
        total(member_bids@) <= u32::MAX,
    ensures
        b == total(member_bids@),
{
    let mut acc: u32 = 0;
    let mut i: usize = 0;
    assert(member_bids@.skip(0) =~= member_bids@);
    while i < member_bids.len()
        invariant
            i <= member_bids@.len(),
            total(member_bids@) <= u32::MAX,
            acc + total(member_bids@.skip(i as int)) == total(member_bids@),
        decreases member_bids.len() - i,
    {
        proof {
            assert(member_bids@.skip(i as int).drop_first() =~= member_bids@.skip(i + 1));
            lemma_total_nonneg(member_bids@.skip(i + 1));
        }
        acc = acc + member_bids[i];
        i = i + 1;
    }
    acc
}

/// **Weakest-link to slip / evade**: a group avoids the strike only if **every** member's bid
/// **strictly exceeds** the attacker's (a tie lands). An empty group cannot slip.
pub fn group_slips(member_bids: &[u32], attacker_bid: u32) -> (b: bool)
    ensures
        b == (member_bids@.len() > 0 && forall|i: int|
            0 <= i < member_bids@.len() ==> member_bids@[i] > attacker_bid),
{
    if member_bids.len() == 0 {
        return false;
    }
    let mut i: usize = 0;
    while i < member_bids.len()
        invariant
            i <= member_bids@.len(),
            forall|j: int| 0 <= j < i ==> member_bids@[j] > attacker_bid,
        decreases member_bids.len() - i,
    {
        if member_bids[i] <= attacker_bid {
            return false;
        }
        i = i + 1;
    }
    true
}

/// **Spillover**: apply `damage` to the members **point-by-point in declared order**, overflowing to
/// the next member once the current can no longer absorb it. Returns the **leftover** damage wasted
/// past the last member.
pub fn spillover(damage: u32, members_health: &mut [u32]) -> (left: u32)
    ensures
        final(members_health)@ == spill_spec(damage as nat, old(members_health)@).0,
        left == spill_spec(damage as nat, old(members_health)@).1,
{
    let ghost s0 = old(members_health)@;
    let mut d = damage;
    let mut i: usize = 0;
    let mut done = false;
    assert(s0.skip(0) =~= s0);
    assert(members_health@.take(0) =~= Seq::<u32>::empty());
    while i < members_health.len() && !done
        invariant
            i <= members_health@.len() == s0.len(),
            !done ==> members_health@.skip(i as int) == s0.skip(i as int),
            !done ==> spill_spec(damage as nat, s0).0 == members_health@.take(i as int)
                + spill_spec(d as nat, s0.skip(i as int)).0,
            !done ==> spill_spec(damage as nat, s0).1 == spill_spec(d as nat, s0.skip(i as int)).1,
            done ==> spill_spec(damage as nat, s0).0 == members_health@,
            done ==> spill_spec(damage as nat, s0).1 == 0,
            done ==> d == 0,
        decreases members_health.len() - i,
    {
        let ghost rest = s0.skip(i as int);
        let ghost before = members_health@;
        assert(rest.drop_first() =~= s0.skip(i + 1));
        assert(rest[0] == members_health@[i as int]);
        let h = members_health[i];
        let ghost d_old = d;
        let absorbed = if d < h {
            d
        } else {
            h
        };
        members_health.set(i, h - absorbed);
        d = d - absorbed;
        if d == 0 {
            assert(spill_spec(d_old as nat, rest) == (rest.update(0, (h - absorbed) as u32), 0nat));
            assert(members_health@ =~= before.take(i as int) + rest.update(0, (h - absorbed) as u32));
            done = true;
        } else {
            assert(spill_spec(d_old as nat, rest) == (seq![(h - absorbed) as u32] + spill_spec(d as nat, s0.skip(i + 1)).0, spill_spec(d as nat, s0.skip(i + 1)).1));
            assert(members_health@.take(i + 1) =~= before.take(i as int) + seq![(h - absorbed) as u32]);
            assert(members_health@.skip(i + 1) =~= s0.skip(i + 1));
        }
        i = i + 1;
    }
    if !done {
        assert(members_health@.skip(i as int) =~= Seq::<u32>::empty());
        assert(members_health@.take(i as int) =~= members_health@);
    }
    d
}

/// **AoE hits every member**: width strikes each body at full `value`, bypassing the spillover queue.
/// Saturating at 0 per body.
pub fn aoe(value: u32, members_health: &mut [u32])
    ensures
        final(members_health)@.len() == old(members_health)@.len(),
        forall|i: int|
            0 <= i < old(members_health)@.len() ==> #[trigger] final(members_health)@[i] == sat_sub(
                old(members_health)@[i],
                value,
            ),
{
    let ghost s0 = old(members_health)@;
    let mut i: usize = 0;
    while i < members_health.len()
        invariant
            i <= members_health@.len() == s0.len(),
            forall|j: int| 0 <= j < i ==> #[trigger] members_health@[j] == sat_sub(s0[j], value),
            forall|j: int| i <= j < s0.len() ==> #[trigger] members_health@[j] == s0[j],
        decreases members_health.len() - i,
    {
        let h = members_health[i];
        let v = if h >= value {
            h - value
        } else {
            0
        };
        members_health.set(i, v);
        i = i + 1;
    }
}

/// **Acting costs one Tempo per member**: a group acts only when **every** member can spend a Tempo
/// card (`tempo > 0`). An empty group cannot act.
pub fn group_can_act(member_tempo: &[i32]) -> (b: bool)
    ensures
        b == (member_tempo@.len() > 0 && all_positive(member_tempo@)),
{
    if member_tempo.len() == 0 {
        return false;
    }
    let mut i: usize = 0;
    while i < member_tempo.len()
        invariant
            i <= member_tempo@.len(),
            forall|j: int| 0 <= j < i ==> member_tempo@[j] > 0,
        decreases member_tempo.len() - i,
    {
        if member_tempo[i] <= 0 {
            return false;
        }
        i = i + 1;
    }
    true
}

/// **Hoard X**: a swarm authored as one card expands to **X one-Health bodies**.
pub fn hoard_bodies(x: u32) -> (v: Vec<u32>)
    ensures
        v@ == Seq::new(x as nat, |i: int| 1u32),
{
    let mut v: Vec<u32> = Vec::new();
    let mut i: u32 = 0;
    while i < x
        invariant
            i <= x,
            v@ =~= Seq::new(i as nat, |k: int| 1u32),
        decreases x - i,
    {
        v.push(1);
        i = i + 1;
    }
    v
}

// ---------------------------------------------------------------------------------------------
// Laws of the group primitives.
// ---------------------------------------------------------------------------------------------

/// **Spillover conserves damage**: the members lose exactly the damage that was not wasted, the
/// leftover is positive only once every member is spent, and the leftover is the damage beyond the
/// group's whole Health.
pub proof fn law_spillover_conserves(damage: nat, s: Seq<u32>)
    ensures
        spill_spec(damage, s).0.len() == s.len(),
        total(s) - total(spill_spec(damage, s).0) + spill_spec(damage, s).1 == damage,
        spill_spec(damage, s).1 > 0 ==> forall|i: int|
            0 <= i < s.len() ==> #[trigger] spill_spec(damage, s).0[i] == 0,
        spill_spec(damage, s).1 == (if damage > total(s) {
            damage - total(s)
        } else {
            0
        }),
    decreases s.len(),
{
    lemma_total_nonneg(s);
    if s.len() > 0 {
        let a = vstd::math::min(damage as int, s[0] as int);
        let d = (damage - a) as nat;
        let h = (s[0] - a) as u32;
        lemma_total_nonneg(s.drop_first());
        if d == 0 {
            assert(s.update(0, h).drop_first() =~= s.drop_first());
        } else {
            law_spillover_conserves(d, s.drop_first());
            let rest = spill_spec(d, s.drop_first());
            assert((seq![h] + rest.0).drop_first() =~= rest.0);
            assert forall|i: int| 0 <= i < s.len() && rest.1 > 0 implies #[trigger] (seq![h]
                + rest.0)[i] == 0 by {
                if i > 0 {
                    assert((seq![h] + rest.0)[i] == rest.0[i - 1]);
                }
            }
        }
    }
}

/// **AoE needs no victim and cannot whiff**: every member with Health at or below the blow is spent,
/// and every other member loses exactly the blow's value — regardless of order.
pub proof fn law_aoe_hits_every_member(value: u32, s: Seq<u32>, i: int)
    requires
        0 <= i < s.len(),
    ensures
        s[i] <= value ==> sat_sub(s[i], value) == 0,
        s[i] > value ==> sat_sub(s[i], value) == s[i] - value,
{
}

} // verus!
