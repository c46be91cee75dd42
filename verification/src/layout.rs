//! A **derived 2D combat layout**: a pure, read-only view of the board as *side × rank × slot*,
//! computed from a side's pool, its per-unit intentions and its per-unit group ids — never
//! authoritative state that could desync.
//!
//! - Two **sides**: 0 = heroes, 1 = creatures.
//! - Each side has three **ranks**, one per [`Intention`]: a rank's units are exactly the side's units
//!   whose declared intention is that rank.
//! - Each rank is an ordered list of **slots**, in pool order — the front-to-back / spillover order.
//! - **Group adjacency:** two slots in the same rank are adjacent group members iff they carry the same
//!   group id ([`Rank::group_runs`] returns the contiguous runs of equal group id).
//!
//! **Downed actors are included** (each [`Slot`] carries `down`), so the layout describes the full
//! declared formation.

use vstd::prelude::*;
use core::ops::Range;
use crate::actor::{Actor, Intention, actor_down};

verus! {

/// One unit's place in a rank: its index in its side's pool, its group id, and whether it is down.
#[derive(Clone, Copy, Debug, PartialEq, Eq, Structural)]
pub struct Slot {
    /// The unit's index in its side's pool.
    pub unit: usize,
    /// The unit's group id this round (units sharing an id are one group).
    pub group: usize,
    /// Whether the unit is currently down (all health cards face down). Included, not skipped.
    pub down: bool,
}

/// One rank of one side: the ordered slots of all units that declared a given [`Intention`].
#[derive(Clone, Debug)]
pub struct Rank {
    /// Which intention this rank holds.
    pub intention: Intention,
    /// The rank's units, in pool order.
    pub slots: Vec<Slot>,
}

/// `runs` are the maximal runs of equal group id over `slots`: consecutive, non-empty, covering every
/// slot in order, each holding one group id, and neighbouring runs differing in it.
pub open spec fn group_runs_of(slots: Seq<Slot>, runs: Seq<(int, int)>) -> bool {
    &&& (slots.len() == 0 <==> runs.len() == 0)
    &&& runs.len() > 0 ==> runs[0].0 == 0 && runs.last().1 == slots.len()
    &&& forall|k: int| 0 <= k < runs.len() ==> (#[trigger] runs[k]).0 < runs[k].1
    &&& forall|k: int| 0 <= k < runs.len() - 1 ==> (#[trigger] runs[k]).1 == runs[k + 1].0
    &&& forall|k: int, i: int|
        #![trigger runs[k], slots[i]]
        0 <= k < runs.len() && runs[k].0 <= i < runs[k].1 ==> slots[i].group == slots[runs[k].0].group
    &&& forall|k: int|
        0 <= k < runs.len() - 1 ==> slots[(#[trigger] runs[k]).1 - 1].group != slots[runs[k].1].group
}

/// The `(start, end)` of each range.
pub open spec fn bounds(rs: Seq<Range<usize>>) -> Seq<(int, int)> {
    Seq::new(rs.len(), |k: int| (rs[k].start as int, rs[k].end as int))
}

impl Rank {
    /// The contiguous runs of equal group id within this rank, as ranges of indices into the slots.
    /// Each run is a maximal block of adjacent group members; ungrouped (distinct-id) units form
    /// singleton runs.
    pub fn group_runs(&self) -> (runs: Vec<Range<usize>>)
        ensures
            group_runs_of(self.slots@, bounds(runs@)),
    {
        let s = &self.slots;
        let mut runs: Vec<Range<usize>> = Vec::new();
        let mut i: usize = 0;
        while i < s.len()
            invariant
                i <= s@.len(),
                (i == 0 <==> runs@.len() == 0),
                runs@.len() > 0 ==> runs@[0].start == 0 && runs@.last().end == i,
                forall|k: int| 0 <= k < runs@.len() ==> (#[trigger] runs@[k]).start < runs@[k].end,
                forall|k: int| 0 <= k < runs@.len() - 1 ==> (#[trigger] runs@[k]).end == runs@[k + 1].start,
                forall|k: int, j: int|
                    #![trigger runs@[k], s@[j]]
                    0 <= k < runs@.len() && runs@[k].start <= j < runs@[k].end ==> s@[j].group
                        == s@[runs@[k].start as int].group,
                forall|k: int|
                    0 <= k < runs@.len() - 1 ==> s@[(#[trigger] runs@[k]).end - 1].group != s@[runs@[k].end as int].group,
                i < s@.len() && runs@.len() > 0 ==> s@[i - 1].group != s@[i as int].group,
            decreases s.len() - i,
        {
            let g = s[i].group;
            let start = i;
            i = i + 1;
            while i < s.len() && s[i].group == g
                invariant
                    start < s@.len(),
                    start <= i <= s@.len(),
                    i > start,
                    g == s@[start as int].group,
                    forall|j: int| start <= j < i ==> (#[trigger] s@[j]).group == g,
                decreases s.len() - i,
            {
                i = i + 1;
            }
            let ghost before = runs@;
            runs.push(start..i);
            assert(runs@[runs@.len() - 1] == (start..i));
            assert forall|k: int, j: int|
                #![trigger runs@[k], s@[j]]
                0 <= k < runs@.len() && runs@[k].start <= j < runs@[k].end implies s@[j].group
                    == s@[runs@[k].start as int].group by {
                if k < before.len() {
                    assert(runs@[k] == before[k]);
                }
            }
            assert forall|k: int|
                0 <= k < runs@.len() - 1 implies s@[(#[trigger] runs@[k]).end - 1].group != s@[runs@[k].end as int].group by {
                if k < before.len() - 1 {
                    assert(runs@[k] == before[k]);
                }
            }
        }
        proof {
            let b = bounds(runs@);
            assert forall|k: int, j: int|
                #![trigger b[k], s@[j]]
                0 <= k < b.len() && b[k].0 <= j < b[k].1 implies s@[j].group == s@[b[k].0].group by {
                assert(runs@[k].start <= j < runs@[k].end);
            }
            assert forall|k: int| 0 <= k < b.len() - 1 implies s@[(#[trigger] b[k]).1 - 1].group != s@[b[k].1].group by {
                assert(b[k].1 == runs@[k].end);
            }
            assert forall|k: int| 0 <= k < b.len() - 1 implies (#[trigger] b[k]).1 == b[k + 1].0 by {
                assert(runs@[k].end == runs@[k + 1].start);
            }
            assert forall|k: int| 0 <= k < b.len() implies (#[trigger] b[k]).0 < b[k].1 by {
                assert(runs@[k].start < runs@[k].end);
            }
        }
        runs
    }
}

/// One side of the board: its three ranks in fixed Vanguard / Outrider / Rearguard order.
#[derive(Clone, Debug)]
pub struct SideLayout {
    /// 0 = heroes, 1 = creatures.
    pub side: u8,
    pub vanguard: Rank,
    pub outrider: Rank,
    pub rearguard: Rank,
}

impl SideLayout {
    /// The rank holding a given intention.
    pub fn rank(&self, intention: Intention) -> (r: &Rank)
        ensures
            r == (match intention {
                Intention::Vanguard => &self.vanguard,
                Intention::Outrider => &self.outrider,
                Intention::Rearguard => &self.rearguard,
            }),
    {
        match intention {
            Intention::Vanguard => &self.vanguard,
            Intention::Outrider => &self.outrider,
            Intention::Rearguard => &self.rearguard,
        }
    }
}

/// The full derived 2D combat layout: both sides, each as three ranks of ordered slots.
#[derive(Clone, Debug)]
pub struct CombatLayout {
    /// Index 0 = heroes, index 1 = creatures.
    pub sides: [SideLayout; 2],
}

impl CombatLayout {
    /// The layout of a board: each side built from its pool, intentions and group ids.
    pub fn of(
        heroes: &[Actor],
        hero_intent: &[Intention],
        hero_group: &[usize],
        creatures: &[Actor],
        foe_intent: &[Intention],
        foe_group: &[usize],
    ) -> (l: Self)
        ensures
            side_matches(l.sides@[0], 0, heroes@, hero_intent@, hero_group@),
            side_matches(l.sides@[1], 1, creatures@, foe_intent@, foe_group@),
    {
        let h = build_side(0, heroes, hero_intent, hero_group);
        let c = build_side(1, creatures, foe_intent, foe_group);
        CombatLayout { sides: [h, c] }
    }

    /// The layout for one side.
    pub fn side(&self, side: u8) -> (s: &SideLayout)
        requires
            side < 2,
        ensures
            *s == self.sides@[side as int],
    {
        &self.sides[side as usize]
    }
}

/// Unit `i`'s declared intention (Vanguard when the plan is short).
pub open spec fn intent_at(intent: Seq<Intention>, i: int) -> Intention {
    if i < intent.len() {
        intent[i]
    } else {
        Intention::Vanguard
    }
}

/// Unit `i`'s group id (its own index when the plan is short).
pub open spec fn group_at(group: Seq<usize>, i: int) -> usize {
    if i < group.len() {
        group[i]
    } else {
        i as usize
    }
}

/// The slots, in pool order, of the units of `pool` (the first `n`) that declared `rank`.
pub open spec fn rank_slots(pool: Seq<Actor>, intent: Seq<Intention>, group: Seq<usize>, rank: Intention, n: int) -> Seq<Slot>
    decreases n,
{
    if n <= 0 {
        seq![]
    } else {
        let rest = rank_slots(pool, intent, group, rank, n - 1);
        let i = n - 1;
        if intent_at(intent, i) == rank {
            rest.push(Slot { unit: i as usize, group: group_at(group, i), down: actor_down(pool[i]) })
        } else {
            rest
        }
    }
}

/// A side's layout: each rank holds, in pool order, the units that declared it.
pub open spec fn side_matches(l: SideLayout, side: u8, pool: Seq<Actor>, intent: Seq<Intention>, group: Seq<usize>) -> bool {
    &&& l.side == side
    &&& l.vanguard.intention == Intention::Vanguard
    &&& l.outrider.intention == Intention::Outrider
    &&& l.rearguard.intention == Intention::Rearguard
    &&& l.vanguard.slots@ == rank_slots(pool, intent, group, Intention::Vanguard, pool.len() as int)
    &&& l.outrider.slots@ == rank_slots(pool, intent, group, Intention::Outrider, pool.len() as int)
    &&& l.rearguard.slots@ == rank_slots(pool, intent, group, Intention::Rearguard, pool.len() as int)
}

/// Build one side's three ranks from its pool, intentions, and group ids, preserving pool order.
pub fn build_side(side: u8, pool: &[Actor], intent: &[Intention], group: &[usize]) -> (l: SideLayout)
    ensures
        side_matches(l, side, pool@, intent@, group@),
{
    let mut sl = SideLayout {
        side,
        vanguard: Rank { intention: Intention::Vanguard, slots: Vec::new() },
        outrider: Rank { intention: Intention::Outrider, slots: Vec::new() },
        rearguard: Rank { intention: Intention::Rearguard, slots: Vec::new() },
    };
    let mut i: usize = 0;
    while i < pool.len()
        invariant
            i <= pool@.len(),
            sl.side == side,
            sl.vanguard.intention == Intention::Vanguard,
            sl.outrider.intention == Intention::Outrider,
            sl.rearguard.intention == Intention::Rearguard,
            sl.vanguard.slots@ == rank_slots(pool@, intent@, group@, Intention::Vanguard, i as int),
            sl.outrider.slots@ == rank_slots(pool@, intent@, group@, Intention::Outrider, i as int),
            sl.rearguard.slots@ == rank_slots(pool@, intent@, group@, Intention::Rearguard, i as int),
        decreases pool.len() - i,
    {
        let intention = if i < intent.len() {
            intent[i]
        } else {
            Intention::Vanguard
        };
        let g = if i < group.len() {
            group[i]
        } else {
            i
        };
        let slot = Slot { unit: i, group: g, down: pool[i].is_down() };
        match intention {
            Intention::Vanguard => sl.vanguard.slots.push(slot),
            Intention::Outrider => sl.outrider.slots.push(slot),
            Intention::Rearguard => sl.rearguard.slots.push(slot),
        }
        i = i + 1;
    }
    sl
}

} // verus!
