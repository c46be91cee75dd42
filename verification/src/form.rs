//! **Stats-as-deck**: a character's stat block is *read off its Form*, not authored on the actor. A
//! [`StatCard`] carries one card's stat contribution over the **five** stats; a [`Form`] is the
//! fundamental (`base`) card + its attachments, summed into the [`Offense`] / [`Defense`] the rest of
//! the engine reads. Combination is **commutative** ([`law_form_is_commutative`]).

use vstd::prelude::*;
use crate::stats::{Defense, Offense, fresh_deck, floor1, count_up};

verus! {

/// One card's contribution to the Form stat block over the **five** stats: `might`, `vitality`
/// (Health-card count), `toughness` (per-card bar), `cadence` (Tempo count), `finesse` (per-Tempo-card
/// grade).
#[derive(Clone, Debug)]
pub struct StatCard {
    pub name: String,
    /// Flat strike force (Power-only magnitude).
    pub might: u32,
    /// Health-pool **count**: how many Health cards.
    pub vitality: u32,
    /// Per-Health-card **bar**: the magnitude a hit must clear to flip a card.
    pub toughness: u32,
    /// Tempo-pool **count**: how many Tempo cards.
    pub cadence: u32,
    /// Tempo-card **grade**: the per-card magnitude weighed in a contest.
    pub finesse: u32,
}

impl Default for StatCard {
    /// A blank card: no name, every stat 0.
    fn default() -> (c: Self)
        ensures
            c.name@ == Seq::<char>::empty(),
            c.might == 0,
            c.vitality == 0,
            c.toughness == 0,
            c.cadence == 0,
            c.finesse == 0,
    {
        StatCard { name: String::new(), might: 0, vitality: 0, toughness: 0, cadence: 0, finesse: 0 }
    }
}

/// Which of a stat card's five numbers a sum reads.
#[derive(Clone, Copy, Debug, PartialEq, Eq, Structural)]
pub enum Field {
    Might,
    Vitality,
    Toughness,
    Cadence,
    Finesse,
}

pub open spec fn field_of(c: StatCard, f: Field) -> u32 {
    match f {
        Field::Might => c.might,
        Field::Vitality => c.vitality,
        Field::Toughness => c.toughness,
        Field::Cadence => c.cadence,
        Field::Finesse => c.finesse,
    }
}

/// The sum of one stat over a sequence of stat cards.
pub open spec fn sum_field(s: Seq<StatCard>, f: Field) -> int
    decreases s.len(),
{
    if s.len() == 0 {
        0
    } else {
        field_of(s[0], f) + sum_field(s.drop_first(), f)
    }
}

/// Every stat of the Form sums within a `u32`.
pub open spec fn sums_fit(s: Seq<StatCard>) -> bool {
    &&& sum_field(s, Field::Might) <= u32::MAX
    &&& sum_field(s, Field::Vitality) <= u32::MAX
    &&& sum_field(s, Field::Toughness) <= u32::MAX
    &&& sum_field(s, Field::Cadence) <= u32::MAX
    &&& sum_field(s, Field::Finesse) <= u32::MAX
}

/// A character's **Form**: the fundamental (`base`) card + attachments.
#[derive(Clone, Debug)]
pub struct Form {
    pub cards: Vec<StatCard>,
}

pub proof fn lemma_sum_field_nonneg(s: Seq<StatCard>, f: Field)
    ensures
        sum_field(s, f) >= 0,
    decreases s.len(),
{
    if s.len() > 0 {
        lemma_sum_field_nonneg(s.drop_first(), f);
    }
}

proof fn lemma_sum_field_step(s: Seq<StatCard>, i: int, f: Field)
    requires
        0 <= i < s.len(),
    ensures
        sum_field(s.skip(i), f) == field_of(s[i], f) + sum_field(s.skip(i + 1), f),
        sum_field(s.skip(i + 1), f) >= 0,
{
    assert(s.skip(i).drop_first() =~= s.skip(i + 1));
    lemma_sum_field_nonneg(s.skip(i + 1), f);
}

impl Form {
    pub fn new(cards: Vec<StatCard>) -> (f: Self)
        ensures
            f.cards@ == cards@,
    {
        Form { cards }
    }

    /// The offensive stats, summed across the Form.
    pub fn offense(&self) -> (o: Offense)
        requires
            sums_fit(self.cards@),
        ensures
            o.might == sum_field(self.cards@, Field::Might),
            o.cadence == sum_field(self.cards@, Field::Cadence),
            o.finesse == sum_field(self.cards@, Field::Finesse),
    {
        let ghost s = self.cards@;
        let mut o = Offense { might: 0, cadence: 0, finesse: 0 };
        let mut i: usize = 0;
        assert(s.skip(0) =~= s);
        while i < self.cards.len()
            invariant
                i <= s.len(),
                s == self.cards@,
                sums_fit(s),
                o.might + sum_field(s.skip(i as int), Field::Might) == sum_field(s, Field::Might),
                o.cadence + sum_field(s.skip(i as int), Field::Cadence) == sum_field(s, Field::Cadence),
                o.finesse + sum_field(s.skip(i as int), Field::Finesse) == sum_field(s, Field::Finesse),
            decreases s.len() - i,
        {
            proof {
                lemma_sum_field_step(s, i as int, Field::Might);
                lemma_sum_field_step(s, i as int, Field::Cadence);
                lemma_sum_field_step(s, i as int, Field::Finesse);
            }
            let c = &self.cards[i];
            o.might = o.might + c.might;
            o.cadence = o.cadence + c.cadence;
            o.finesse = o.finesse + c.finesse;
            i = i + 1;
        }
        proof {
            assert(s.skip(s.len() as int) =~= Seq::<StatCard>::empty());
        }
        o
    }

    /// Sum one stat across the Form.
    fn sum(&self, f: Field) -> (t: u32)
        requires
            sum_field(self.cards@, f) <= u32::MAX,
        ensures
            t == sum_field(self.cards@, f),
    {
        let ghost s = self.cards@;
        let mut t: u32 = 0;
        let mut i: usize = 0;
        assert(s.skip(0) =~= s);
        while i < self.cards.len()
            invariant
                i <= s.len(),
                s == self.cards@,
                sum_field(s, f) <= u32::MAX,
                t + sum_field(s.skip(i as int), f) == sum_field(s, f),
            decreases s.len() - i,
        {
            proof {
                lemma_sum_field_step(s, i as int, f);
            }
            let c = &self.cards[i];
            let v = match f {
                Field::Might => c.might,
                Field::Vitality => c.vitality,
                Field::Toughness => c.toughness,
                Field::Cadence => c.cadence,
                Field::Finesse => c.finesse,
            };
            t = t + v;
            i = i + 1;
        }
        proof {
            assert(s.skip(s.len() as int) =~= Seq::<StatCard>::empty());
        }
        t
    }

    /// The defensive stats, summed across the Form: Vitality (count) × Toughness (bar).
    pub fn defense(&self) -> (d: Defense)
        requires
            sums_fit(self.cards@),
        ensures
            d.health@ == fresh_deck(
                sum_field(self.cards@, Field::Vitality) as nat,
                floor1(sum_field(self.cards@, Field::Toughness) as u32),
            ),
            count_up(d.health@) == sum_field(self.cards@, Field::Vitality),
            d.health_pile == 0,
    {
        let vitality = self.sum(Field::Vitality);
        let toughness = self.sum(Field::Toughness);
        Defense::new(vitality, toughness)
    }
}

proof fn lemma_sum_field_remove(s: Seq<StatCard>, j: int, f: Field)
    requires
        0 <= j < s.len(),
    ensures
        sum_field(s, f) == field_of(s[j], f) + sum_field(s.remove(j), f),
    decreases s.len(),
{
    if j > 0 {
        lemma_sum_field_remove(s.drop_first(), j - 1, f);
        assert(s.remove(j).drop_first() =~= s.drop_first().remove(j - 1));
        assert(s.remove(j)[0] == s[0]);
    } else {
        assert(s.remove(0) =~= s.drop_first());
    }
}

/// **Combination is commutative**: any reordering of a Form's cards (the same cards, as a multiset)
/// sums to the same value in every stat — so the same Offense and Defense.
pub proof fn law_form_is_commutative(s: Seq<StatCard>, t: Seq<StatCard>, f: Field)
    requires
        s.to_multiset() =~= t.to_multiset(),
    ensures
        sum_field(s, f) == sum_field(t, f),
    decreases s.len(),
{
    broadcast use vstd::seq_lib::group_to_multiset_ensures;

    s.to_multiset_ensures();
    t.to_multiset_ensures();
    if s.len() == 0 {
        assert(t.to_multiset().len() == 0);
    } else {
        let x = s[0];
        assert(s.to_multiset().count(x) > 0) by {
            assert(s.contains(x));
        }
        assert(t.contains(x));
        let j = choose|j: int| 0 <= j < t.len() && t[j] == x;
        lemma_sum_field_remove(t, j, f);
        lemma_sum_field_remove(s, 0, f);
        assert(s.remove(0).to_multiset() =~= s.to_multiset().remove(x));
        assert(t.remove(j).to_multiset() =~= t.to_multiset().remove(x));
        law_form_is_commutative(s.remove(0), t.remove(j), f);
    }
}

} // verus!
