//! Stats and the **pile → bar → pool** defense model.
//!
//! Combat has **one damage channel**: every attack deals untyped **Might** into the **health pile**;
//! each time the pile clears the **bar** (Toughness) one Health card flips face down. Empty the health
//! pool and the Actor is **down** — the game's single kill-condition.

use vstd::prelude::*;

verus! {

/// A single **Health card** in the pool. A card is **face-up** while it is still absorbing blows and
/// **face-down** (`down`) once a pile clears its bar and flips it. `toughness` is this card's per-card
/// bar — the magnitude the pile must clear to flip *it*.
#[derive(Clone, Copy, Debug)]
pub struct HealthCard {
    /// This card's per-card bar (the damage the pile must clear to flip it).
    pub toughness: u32,
    /// Facing: `false` = face-up (intact), `true` = face-down (flipped/spent).
    pub down: bool,
}

// ---------------------------------------------------------------------------------------------
// The mathematical model of a health deck: a sequence of cards, front (index 0) to back.
// ---------------------------------------------------------------------------------------------

/// The number of face-up cards in a deck.
pub open spec fn count_up(s: Seq<HealthCard>) -> nat
    decreases s.len(),
{
    if s.len() == 0 {
        0
    } else {
        (if s[0].down { 0nat } else { 1nat }) + count_up(s.drop_first())
    }
}

/// The number of face-down cards in a deck.
pub open spec fn count_down(s: Seq<HealthCard>) -> nat
    decreases s.len(),
{
    if s.len() == 0 {
        0
    } else {
        (if s[0].down { 1nat } else { 0nat }) + count_down(s.drop_first())
    }
}

/// The index of the front-most face-up card, or `s.len()` when every card is face down.
pub open spec fn first_up(s: Seq<HealthCard>) -> int
    decreases s.len(),
{
    if s.len() == 0 {
        0
    } else if !s[0].down {
        0
    } else {
        1 + first_up(s.drop_first())
    }
}

/// The index of the front-most face-down card, or `s.len()` when every card is face up.
pub open spec fn first_down(s: Seq<HealthCard>) -> int
    decreases s.len(),
{
    if s.len() == 0 {
        0
    } else if s[0].down {
        0
    } else {
        1 + first_down(s.drop_first())
    }
}

/// The deck after flipping its front-most face-up card face down (unchanged if none is up).
pub open spec fn flip_down_spec(s: Seq<HealthCard>) -> Seq<HealthCard> {
    let i = first_up(s);
    if i < s.len() {
        s.update(i, HealthCard { toughness: s[i].toughness, down: true })
    } else {
        s
    }
}

/// The deck after turning its front-most face-down card face up (unchanged if none is down).
pub open spec fn turn_up_spec(s: Seq<HealthCard>) -> Seq<HealthCard> {
    let i = first_down(s);
    if i < s.len() {
        s.update(i, HealthCard { toughness: s[i].toughness, down: false })
    } else {
        s
    }
}

/// The deck after `k` successive front-first flips.
pub open spec fn flip_times(s: Seq<HealthCard>, k: nat) -> Seq<HealthCard>
    decreases k,
{
    if k == 0 {
        s
    } else {
        flip_down_spec(flip_times(s, (k - 1) as nat))
    }
}

/// The deck after `k` successive front-first recoveries.
pub open spec fn turn_up_times(s: Seq<HealthCard>, k: nat) -> Seq<HealthCard>
    decreases k,
{
    if k == 0 {
        s
    } else {
        turn_up_spec(turn_up_times(s, (k - 1) as nat))
    }
}

/// The bar of a deck: the toughness of its front-most face-up card, else its front card, else 1 —
/// floored at 1.
pub open spec fn bar_of(s: Seq<HealthCard>) -> u32 {
    let i = first_up(s);
    let t = if i < s.len() {
        s[i].toughness
    } else if s.len() > 0 {
        s[0].toughness
    } else {
        1u32
    };
    if t < 1 {
        1u32
    } else {
        t
    }
}

/// The toughness new cards take: the front card's (or 1 if the deck is empty), floored at 1.
pub open spec fn front_toughness(s: Seq<HealthCard>) -> u32 {
    let t = if s.len() > 0 {
        s[0].toughness
    } else {
        1u32
    };
    if t < 1 {
        1u32
    } else {
        t
    }
}

/// A deck of `count` face-up cards of the given toughness.
pub open spec fn fresh_deck(count: nat, toughness: u32) -> Seq<HealthCard> {
    Seq::new(count, |i: int| HealthCard { toughness, down: false })
}

/// `max(x, 1)`.
pub open spec fn floor1(x: u32) -> u32 {
    if x < 1 {
        1u32
    } else {
        x
    }
}


// ---------------------------------------------------------------------------------------------
// Lemmas about the deck model.
// ---------------------------------------------------------------------------------------------

pub proof fn lemma_counts(s: Seq<HealthCard>)
    ensures
        count_up(s) + count_down(s) == s.len(),
        count_up(s) <= s.len(),
        count_down(s) <= s.len(),
    decreases s.len(),
{
    if s.len() > 0 {
        lemma_counts(s.drop_first());
    }
}

pub proof fn lemma_first_up(s: Seq<HealthCard>)
    ensures
        0 <= first_up(s) <= s.len(),
        forall|j: int| 0 <= j < first_up(s) ==> s[j].down,
        first_up(s) < s.len() ==> !s[first_up(s)].down,
        (first_up(s) == s.len()) <==> (count_up(s) == 0),
    decreases s.len(),
{
    if s.len() > 0 {
        lemma_first_up(s.drop_first());
        assert forall|j: int| 0 <= j < first_up(s) implies s[j].down by {
            if j > 0 {
                assert(s[j] == s.drop_first()[j - 1]);
            }
        }
    }
}

pub proof fn lemma_first_down(s: Seq<HealthCard>)
    ensures
        0 <= first_down(s) <= s.len(),
        forall|j: int| 0 <= j < first_down(s) ==> !s[j].down,
        first_down(s) < s.len() ==> s[first_down(s)].down,
        (first_down(s) == s.len()) <==> (count_down(s) == 0),
    decreases s.len(),
{
    if s.len() > 0 {
        lemma_first_down(s.drop_first());
        assert forall|j: int| 0 <= j < first_down(s) implies !s[j].down by {
            if j > 0 {
                assert(s[j] == s.drop_first()[j - 1]);
            }
        }
    }
}

/// Setting one card's facing changes the counts by exactly that card.
pub proof fn lemma_count_update(s: Seq<HealthCard>, i: int, c: HealthCard)
    requires
        0 <= i < s.len(),
    ensures
        count_up(s.update(i, c)) + (if s[i].down { 0int } else { 1int }) == count_up(s) + (if c.down {
            0int
        } else {
            1int
        }),
        count_down(s.update(i, c)) + (if s[i].down { 1int } else { 0int }) == count_down(s) + (
        if c.down {
            1int
        } else {
            0int
        }),
    decreases s.len(),
{
    let t = s.update(i, c);
    if i == 0 {
        assert(t.drop_first() =~= s.drop_first());
    } else {
        lemma_count_update(s.drop_first(), i - 1, c);
        assert(t.drop_first() =~= s.drop_first().update(i - 1, c));
    }
}

pub proof fn lemma_flip_down(s: Seq<HealthCard>)
    ensures
        flip_down_spec(s).len() == s.len(),
        count_up(s) > 0 ==> count_up(flip_down_spec(s)) + 1 == count_up(s),
        count_up(s) > 0 ==> count_down(flip_down_spec(s)) == count_down(s) + 1,
        count_up(s) == 0 ==> flip_down_spec(s) == s,
        forall|j: int| 0 <= j < s.len() ==> #[trigger] flip_down_spec(s)[j].toughness == s[j].toughness,
{
    lemma_first_up(s);
    let i = first_up(s);
    if i < s.len() {
        lemma_count_update(s, i, HealthCard { toughness: s[i].toughness, down: true });
    }
}

pub proof fn lemma_turn_up(s: Seq<HealthCard>)
    ensures
        turn_up_spec(s).len() == s.len(),
        count_down(s) > 0 ==> count_down(turn_up_spec(s)) + 1 == count_down(s),
        count_down(s) > 0 ==> count_up(turn_up_spec(s)) == count_up(s) + 1,
        count_down(s) == 0 ==> turn_up_spec(s) == s,
        forall|j: int| 0 <= j < s.len() ==> #[trigger] turn_up_spec(s)[j].toughness == s[j].toughness,
{
    lemma_first_down(s);
    let i = first_down(s);
    if i < s.len() {
        lemma_count_update(s, i, HealthCard { toughness: s[i].toughness, down: false });
    }
}

pub proof fn lemma_flip_times(s: Seq<HealthCard>, k: nat)
    requires
        k <= count_up(s),
    ensures
        flip_times(s, k).len() == s.len(),
        count_up(flip_times(s, k)) + k == count_up(s),
    decreases k,
{
    if k > 0 {
        lemma_flip_times(s, (k - 1) as nat);
        lemma_flip_down(flip_times(s, (k - 1) as nat));
    }
}

pub proof fn lemma_turn_up_times(s: Seq<HealthCard>, k: nat)
    requires
        k <= count_down(s),
    ensures
        turn_up_times(s, k).len() == s.len(),
        count_down(turn_up_times(s, k)) + k == count_down(s),
        count_up(turn_up_times(s, k)) == count_up(s) + k,
    decreases k,
{
    if k > 0 {
        lemma_turn_up_times(s, (k - 1) as nat);
        lemma_turn_up(turn_up_times(s, (k - 1) as nat));
    }
}

/// A fresh deck is all face up.
pub proof fn lemma_fresh_deck(count: nat, toughness: u32)
    ensures
        count_up(fresh_deck(count, toughness)) == count,
        count_down(fresh_deck(count, toughness)) == 0,
    decreases count,
{
    let s = fresh_deck(count, toughness);
    if count > 0 {
        lemma_fresh_deck((count - 1) as nat, toughness);
        assert(s.drop_first() =~= fresh_deck((count - 1) as nat, toughness));
    }
}

// ---------------------------------------------------------------------------------------------
// The health pool.
// ---------------------------------------------------------------------------------------------

/// The **health pool**: a deck of [`HealthCard`]s, front-to-back. Flips happen **front-first** (the
/// front-most face-up card flips down); Recover turns the front-most face-down card back up.
/// Vitality is the card *count*, Toughness the per-card *bar*.
#[derive(Clone, Debug)]
pub struct Health {
    /// The deck, front (index 0) to back. Damage flips face-up cards front-first.
    pub cards: Vec<HealthCard>,
}

impl View for Health {
    type V = Seq<HealthCard>;

    open spec fn view(&self) -> Seq<HealthCard> {
        self.cards@
    }
}

impl Health {
    /// `count` face-up cards, each with `toughness` (floored at 1).
    pub fn new(count: u32, toughness: u32) -> (h: Self)
        ensures
            h@ == fresh_deck(count as nat, floor1(toughness)),
            count_up(h@) == count,
            count_down(h@) == 0,
    {
        let t = if toughness < 1 {
            1u32
        } else {
            toughness
        };
        let mut cards: Vec<HealthCard> = Vec::new();
        let mut i: u32 = 0;
        while i < count
            invariant
                i <= count,
                cards@ =~= fresh_deck(i as nat, t),
            decreases count - i,
        {
            cards.push(HealthCard { toughness: t, down: false });
            i = i + 1;
        }
        proof {
            lemma_fresh_deck(count as nat, t);
        }
        Health { cards }
    }

    /// **Vitality** count still standing — the number of face-up cards (as a `u32`).
    pub fn remaining(&self) -> (r: u32)
        ensures
            r == count_up(self@) as u32,
    {
        let mut n: usize = 0;
        let mut i: usize = 0;
        assert(self@.subrange(0, self@.len() as int) =~= self@);
        while i < self.cards.len()
            invariant
                i <= self.cards.len(),
                n <= i,
                n + count_up(self@.subrange(i as int, self@.len() as int)) == count_up(self@),
            decreases self.cards.len() - i,
        {
            let ghost rest = self@.subrange(i as int, self@.len() as int);
            assert(rest.drop_first() =~= self@.subrange(i + 1, self@.len() as int));
            if !self.cards[i].down {
                n = n + 1;
            }
            i = i + 1;
        }
        assert(self@.subrange(i as int, self@.len() as int) =~= Seq::<HealthCard>::empty());
        #[verifier::truncate]
        (n as u32)
    }

    /// Total deck size (as a `u32`).
    pub fn max(&self) -> (r: u32)
        ensures
            r == self@.len() as u32,
    {
        self.cards.len() as u32
    }

    /// The front-most face-up card's index, or the deck length when none is up.
    fn first_up_index(&self) -> (i: usize)
        ensures
            i == first_up(self@),
    {
        proof {
            lemma_first_up(self@);
        }
        let mut i: usize = 0;
        while i < self.cards.len()
            invariant
                i <= self.cards.len(),
                i <= first_up(self@),
                0 <= first_up(self@) <= self@.len(),
                forall|j: int| 0 <= j < first_up(self@) ==> self@[j].down,
                first_up(self@) < self@.len() ==> !self@[first_up(self@)].down,
            decreases self.cards.len() - i,
        {
            if !self.cards[i].down {
                return i;
            }
            i = i + 1;
        }
        i
    }

    /// The front-most face-down card's index, or the deck length when none is down.
    fn first_down_index(&self) -> (i: usize)
        ensures
            i == first_down(self@),
    {
        proof {
            lemma_first_down(self@);
        }
        let mut i: usize = 0;
        while i < self.cards.len()
            invariant
                i <= self.cards.len(),
                i <= first_down(self@),
                0 <= first_down(self@) <= self@.len(),
                forall|j: int| 0 <= j < first_down(self@) ==> !self@[j].down,
                first_down(self@) < self@.len() ==> self@[first_down(self@)].down,
            decreases self.cards.len() - i,
        {
            if self.cards[i].down {
                return i;
            }
            i = i + 1;
        }
        i
    }

    /// The current **bar** (Toughness): the toughness of the front-most **face-up** card; if none is
    /// face-up, the front card's; if the deck is empty, 1 — always floored at 1.
    pub fn toughness(&self) -> (t: u32)
        ensures
            t == bar_of(self@),
            t >= 1,
    {
        let i = self.first_up_index();
        let t = if i < self.cards.len() {
            self.cards[i].toughness
        } else if self.cards.len() > 0 {
            self.cards[0].toughness
        } else {
            1u32
        };
        if t < 1 {
            1
        } else {
            t
        }
    }

    /// No face-up card is left (by the `u32` count of [`remaining`](Health::remaining)).
    pub fn is_empty(&self) -> (b: bool)
        ensures
            b == (count_up(self@) as u32 == 0),
    {
        self.remaining() == 0
    }

    /// Turn the front-most **face-up** card **face-down** (a flip). Returns whether one was flipped.
    pub fn flip_down(&mut self) -> (b: bool)
        ensures
            final(self)@ == flip_down_spec(old(self)@),
            b == (count_up(old(self)@) > 0),
    {
        proof {
            lemma_first_up(self@);
        }
        let i = self.first_up_index();
        if i < self.cards.len() {
            let t = self.cards[i].toughness;
            self.cards.set(i, HealthCard { toughness: t, down: true });
            true
        } else {
            false
        }
    }

    /// Turn the front-most **face-down** card **face-up** (Recover). Returns whether one was turned.
    pub fn turn_up(&mut self) -> (b: bool)
        ensures
            final(self)@ == turn_up_spec(old(self)@),
            b == (count_down(old(self)@) > 0),
    {
        proof {
            lemma_first_down(self@);
        }
        let i = self.first_down_index();
        if i < self.cards.len() {
            let t = self.cards[i].toughness;
            self.cards.set(i, HealthCard { toughness: t, down: false });
            true
        } else {
            false
        }
    }

    /// Turn up to `amt` face-down cards back up (front-first); returns how many were turned. A heal that
    /// exceeds the down cards simply stops.
    pub fn heal(&mut self, amt: u32) -> (turned: u32)
        ensures
            turned as nat == vstd::math::min(amt as int, count_down(old(self)@) as int),
            final(self)@ == turn_up_times(old(self)@, turned as nat),
    {
        let ghost s0 = self@;
        let mut turned: u32 = 0;
        loop
            invariant_except_break
                turned <= amt,
                turned <= count_down(s0),
                self@ == turn_up_times(s0, turned as nat),
            ensures
                turned as nat == vstd::math::min(amt as int, count_down(s0) as int),
                self@ == turn_up_times(s0, turned as nat),
            decreases amt - turned,
        {
            proof {
                lemma_turn_up_times(s0, turned as nat);
            }
            if turned >= amt {
                break;
            }
            let ghost before = self@;
            let up = self.turn_up();
            proof {
                lemma_turn_up(before);
            }
            if !up {
                break;
            }
            turned = turned + 1;
        }
        turned
    }

    /// Replace the deck with `count` face-up cards, each at this pool's current front toughness (or 1
    /// if empty).
    pub fn set_count(&mut self, count: u32)
        ensures
            final(self)@ == fresh_deck(count as nat, front_toughness(old(self)@)),
    {
        let t = if self.cards.len() > 0 {
            self.cards[0].toughness
        } else {
            1u32
        };
        let t = if t < 1 {
            1u32
        } else {
            t
        };
        *self = Health::new(count, t);
    }

    /// Set **every** card's per-card bar to `toughness` (floored at 1); facings are kept.
    pub fn set_toughness(&mut self, toughness: u32)
        ensures
            final(self)@.len() == old(self)@.len(),
            forall|j: int|
                0 <= j < old(self)@.len() ==> #[trigger] final(self)@[j] == (HealthCard {
                    toughness: floor1(toughness),
                    down: old(self)@[j].down,
                }),
    {
        let t = if toughness < 1 {
            1u32
        } else {
            toughness
        };
        let ghost s0 = self@;
        let mut i: usize = 0;
        while i < self.cards.len()
            invariant
                i <= self.cards.len(),
                self@.len() == s0.len(),
                forall|j: int|
                    0 <= j < i ==> #[trigger] self@[j] == (HealthCard {
                        toughness: t,
                        down: s0[j].down,
                    }),
                forall|j: int| i <= j < s0.len() ==> #[trigger] self@[j] == s0[j],
            decreases self.cards.len() - i,
        {
            let d = self.cards[i].down;
            self.cards.set(i, HealthCard { toughness: t, down: d });
            i = i + 1;
        }
    }

    /// Append `n` face-up cards at the current front toughness (or 1 if empty).
    pub fn add_cards(&mut self, n: u32)
        ensures
            final(self)@ == old(self)@ + fresh_deck(n as nat, front_toughness(old(self)@)),
    {
        let t = if self.cards.len() > 0 {
            self.cards[0].toughness
        } else {
            1u32
        };
        let t = if t < 1 {
            1u32
        } else {
            t
        };
        let ghost s0 = self@;
        let mut k: u32 = 0;
        while k < n
            invariant
                k <= n,
                self@ =~= s0 + fresh_deck(k as nat, t),
            decreases n - k,
        {
            self.cards.push(HealthCard { toughness: t, down: false });
            k = k + 1;
        }
    }

    /// Add `extra` to **every** card's per-card bar.
    pub fn add_toughness(&mut self, extra: u32)
        requires
            forall|j: int| 0 <= j < old(self)@.len() ==> old(self)@[j].toughness + extra <= u32::MAX,
        ensures
            final(self)@.len() == old(self)@.len(),
            forall|j: int|
                0 <= j < old(self)@.len() ==> #[trigger] final(self)@[j] == (HealthCard {
                    toughness: (old(self)@[j].toughness + extra) as u32,
                    down: old(self)@[j].down,
                }),
    {
        let ghost s0 = self@;
        let mut i: usize = 0;
        while i < self.cards.len()
            invariant
                i <= self.cards.len(),
                self@.len() == s0.len(),
                forall|j: int| 0 <= j < s0.len() ==> s0[j].toughness + extra <= u32::MAX,
                forall|j: int|
                    0 <= j < i ==> #[trigger] self@[j] == (HealthCard {
                        toughness: (s0[j].toughness + extra) as u32,
                        down: s0[j].down,
                    }),
                forall|j: int| i <= j < s0.len() ==> #[trigger] self@[j] == s0[j],
            decreases self.cards.len() - i,
        {
            let c = self.cards[i];
            self.cards.set(i, HealthCard { toughness: c.toughness + extra, down: c.down });
            i = i + 1;
        }
    }
}

// ---------------------------------------------------------------------------------------------
// Defense.
// ---------------------------------------------------------------------------------------------

/// Everything that defends an Actor. Only the **health pool** is a maintained meter; `health_pile`
/// is a **per-phase** accumulator: a landed hit banks its Might here, the pile flips a Health card
/// each time it clears Toughness, and the pile **wipes at every phase boundary**.
#[derive(Clone, Debug)]
pub struct Defense {
    pub health: Health,
    /// The Might banked toward the next Health flip in the **current phase**.
    pub health_pile: u32,
}

/// What a single hit did.
#[derive(Clone, Copy, Debug)]
pub struct HitOutcome {
    /// Damage that accumulated into the pile (no cut today, so this equals the raw blow).
    pub through: u32,
    /// Health cards turned **face down** by this hit.
    pub cards_flipped: u32,
    /// The health pool emptied — the Actor is knocked out.
    pub down: bool,
}

/// How many cards a hit flips: one per whole bar the accumulated pile clears, but never more than the
/// face-up cards left.
pub open spec fn flips_for(total: int, bar: int, up: nat) -> nat {
    vstd::math::min(total / bar, up as int) as nat
}

impl Defense {
    pub fn new(vitality: u32, toughness: u32) -> (d: Self)
        ensures
            d.health@ == fresh_deck(vitality as nat, floor1(toughness)),
            d.health_pile == 0,
            count_up(d.health@) == vitality,
    {
        Defense { health: Health::new(vitality, toughness), health_pile: 0 }
    }

    /// Health gone → out of the fight.
    pub fn is_down(&self) -> (b: bool)
        ensures
            b == (count_up(self.health@) as u32 == 0),
    {
        self.health.is_empty()
    }

    /// Apply one `raw`-magnitude (untyped Might) hit against the current bar (Toughness).
    pub fn take(&mut self, raw: u32) -> (out: HitOutcome)
        requires
            old(self).health_pile + raw <= u32::MAX,
        ensures
            ({
                let total = old(self).health_pile + raw;
                let bar = bar_of(old(self).health@);
                let k = flips_for(total, bar as int, count_up(old(self).health@));
                &&& out.through == raw
                &&& out.cards_flipped == k
                &&& final(self).health@ == flip_times(old(self).health@, k)
                &&& final(self).health_pile == total - k * bar
                &&& out.down == (count_up(final(self).health@) as u32 == 0)
            }),
    {
        let bar = self.health.toughness();
        self.take_with_toughness(raw, bar)
    }

    /// As [`take`](Defense::take), but the per-card **wall** is `bar` rather than the bare Toughness
    /// (the call site folds in any Guard tokens). `bar` is floored at 1.
    pub fn take_with_toughness(&mut self, raw: u32, bar: u32) -> (out: HitOutcome)
        requires
            old(self).health_pile + raw <= u32::MAX,
        ensures
            ({
                let total = old(self).health_pile + raw;
                let b = floor1(bar);
                let k = flips_for(total, b as int, count_up(old(self).health@));
                &&& out.through == raw
                &&& out.cards_flipped == k
                &&& final(self).health@ == flip_times(old(self).health@, k)
                &&& final(self).health_pile == total - k * b
                &&& out.down == (count_up(final(self).health@) as u32 == 0)
            }),
    {
        let b = if bar < 1 {
            1u32
        } else {
            bar
        };
        let ghost s0 = self.health@;
        let ghost total: int = self.health_pile + raw;
        let mut flipped: u32 = 0;
        self.health_pile = self.health_pile + raw;
        loop
            invariant_except_break
                flipped <= count_up(s0),
                self.health@ == flip_times(s0, flipped as nat),
                total == self.health_pile + flipped * b,
                total <= u32::MAX,
                b >= 1,
            ensures
                flipped <= count_up(s0),
                self.health@ == flip_times(s0, flipped as nat),
                total == self.health_pile + flipped * b,
                self.health_pile < b || flipped == count_up(s0),
            decreases self.health_pile,
        {
            proof {
                lemma_flip_times(s0, flipped as nat);
            }
            if self.health_pile < b {
                break;
            }
            let ghost before = self.health@;
            let flipped_one = self.health.flip_down();
            proof {
                lemma_flip_down(before);
            }
            if !flipped_one {
                break;
            }
            proof {
                let f = flipped as int;
                let bb = b as int;
                assert((f + 1) * bb == f * bb + bb) by (nonlinear_arith);
                assert(f + 1 <= total) by (nonlinear_arith)
                    requires
                        total == self.health_pile + f * bb,
                        self.health_pile >= bb,
                        bb >= 1,
                        f >= 0;
            }
            self.health_pile = self.health_pile - b;
            flipped = flipped + 1;
        }
        proof {
            let up = count_up(s0);
            let f = flipped as int;
            let p = self.health_pile as int;
            let bb = b as int;
            if p < bb {
                vstd::arithmetic::div_mod::lemma_fundamental_div_mod_converse(total, bb, f, p);
            } else {
                // Every face-up card flipped and the pile still clears a bar: total / b >= flipped.
                vstd::arithmetic::div_mod::lemma_div_is_ordered(f * bb, total, bb);
                vstd::arithmetic::mul::lemma_mul_is_commutative(f, bb);
                vstd::arithmetic::div_mod::lemma_div_by_multiple(f, bb);
            }
        }
        let down = self.health.is_empty();
        HitOutcome { through: raw, cards_flipped: flipped, down }
    }

    /// **Recover**: clear the current sub-card pile, then turn one face-down Health card back up if any
    /// are down. Returns the number of cards turned back up (0 or 1).
    pub fn recover_card(&mut self) -> (n: u32)
        ensures
            final(self).health_pile == 0,
            final(self).health@ == turn_up_spec(old(self).health@),
            n == (if count_down(old(self).health@) > 0 { 1u32 } else { 0u32 }),
    {
        self.health_pile = 0;
        if self.health.turn_up() {
            1
        } else {
            0
        }
    }

    /// Phase boundary: the sub-threshold pile wipes.
    pub fn clear_pile(&mut self)
        ensures
            final(self).health_pile == 0,
            final(self).health == old(self).health,
    {
        self.health_pile = 0;
    }

    /// Round end (the Lull): partial (sub-bar) damage clears — identical to
    /// [`clear_pile`](Defense::clear_pile).
    pub fn end_round(&mut self)
        ensures
            final(self).health_pile == 0,
            final(self).health == old(self).health,
    {
        self.clear_pile();
    }
}

/// The offensive stats: the flat strike force **Might**, the Tempo **count** (Cadence), and the
/// per-Tempo-card **grade** (Finesse).
#[derive(Clone, Copy, Debug)]
pub struct Offense {
    /// Flat strike force (Power-only magnitude).
    pub might: u32,
    /// The **count** of Tempo cards: how many you start each round with.
    pub cadence: u32,
    /// The **grade** of each Tempo card: its Finesse.
    pub finesse: u32,
}

} // verus!
