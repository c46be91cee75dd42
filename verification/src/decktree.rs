//! **Stats-as-deck, the positional tree.** A character's [`Form`] *renders* as a **tree of decks**
//! whose leaves are **base-2 denomination cards**, and a leaf's meaning is its **path**.
//!
//! Three locked rules it realizes:
//! - **Two suits** — every stat is **Quantity** (a count) or **Power** (a per-card magnitude).
//! - **Base-2 denominations** — suit cards come in 1, 2, 4, 8, … with **at most one of each**, so every
//!   value has **exactly one** representation (its binary expansion) and costs **popcount(value)**
//!   cards ([`law_denominations_are_the_binary_expansion`]).
//! - **Positional notation** — root → **stat decks** (Health · Tempo · Might) → **suit decks**
//!   (Quantity · Power) → denomination **leaves**; a deck's face is the **sum** of its contents.

use vstd::prelude::*;
use crate::form::{Form, Field, sum_field, sums_fit};
use crate::stats::{bar_of, fresh_deck, floor1};

verus! {

/// The two suits. **Quantity** = breadth (how many cards); **Power** = depth (per-card magnitude).
#[derive(Clone, Copy, Debug, PartialEq, Eq, Structural)]
pub enum Suit {
    Quantity,
    Power,
}

/// A **stat deck**: the middle tier of the Form tree.
#[derive(Clone, Copy, Debug, PartialEq, Eq, Structural)]
pub enum Deck {
    /// Health = Vitality (Quantity) × Toughness (Power).
    Health,
    /// Tempo = Cadence (Quantity) × Finesse (Power).
    Tempo,
    /// Might — the lone flat magnitude: a Power-only deck.
    Might,
}

/// The five named stats. Each is a **(deck × suit)** cell; **Might** is the lone Power-only flat.
#[derive(Clone, Copy, Debug, PartialEq, Eq, Structural)]
pub enum Stat {
    Vitality,
    Toughness,
    Cadence,
    Finesse,
    Might,
}

pub open spec fn cell_of(s: Stat) -> (Deck, Suit) {
    match s {
        Stat::Vitality => (Deck::Health, Suit::Quantity),
        Stat::Toughness => (Deck::Health, Suit::Power),
        Stat::Cadence => (Deck::Tempo, Suit::Quantity),
        Stat::Finesse => (Deck::Tempo, Suit::Power),
        Stat::Might => (Deck::Might, Suit::Power),
    }
}

pub open spec fn stat_label(s: Stat) -> Seq<char> {
    match s {
        Stat::Vitality => "Vitality"@,
        Stat::Toughness => "Toughness"@,
        Stat::Cadence => "Cadence"@,
        Stat::Finesse => "Finesse"@,
        Stat::Might => "Might"@,
    }
}

impl Stat {
    /// The **(deck, suit)** cell this stat occupies — the path that gives a leaf its meaning.
    pub fn cell(self) -> (c: (Deck, Suit))
        ensures
            c == cell_of(self),
    {
        match self {
            Stat::Vitality => (Deck::Health, Suit::Quantity),
            Stat::Toughness => (Deck::Health, Suit::Power),
            Stat::Cadence => (Deck::Tempo, Suit::Quantity),
            Stat::Finesse => (Deck::Tempo, Suit::Power),
            Stat::Might => (Deck::Might, Suit::Power),
        }
    }

    pub fn label(self) -> (s: &'static str)
        ensures
            s@ == stat_label(self),
    {
        match self {
            Stat::Vitality => "Vitality",
            Stat::Toughness => "Toughness",
            Stat::Cadence => "Cadence",
            Stat::Finesse => "Finesse",
            Stat::Might => "Might",
        }
    }
}

/// The binary leaves of `v`, each scaled by `p`, ascending: one leaf `p·2^i` for every set bit `i`.
pub open spec fn leaves_from(v: nat, p: nat) -> Seq<u32>
    decreases v,
{
    if v == 0 {
        seq![]
    } else {
        let rest = leaves_from(v / 2, 2 * p);
        if v % 2 == 1 {
            seq![p as u32] + rest
        } else {
            rest
        }
    }
}

/// The denomination leaves of a value: its binary expansion, ascending.
pub open spec fn leaves_of(v: nat) -> Seq<u32> {
    leaves_from(v, 1)
}

/// The number of set bits.
pub open spec fn popcount(v: nat) -> nat
    decreases v,
{
    if v == 0 {
        0
    } else {
        v % 2 + popcount(v / 2)
    }
}

/// Is `x` a power of two?
pub open spec fn is_pow2(x: nat) -> bool
    decreases x,
{
    if x == 1 {
        true
    } else if x >= 2 && x % 2 == 0 {
        is_pow2(x / 2)
    } else {
        false
    }
}

/// The sum of a sequence of `u32`s.
pub open spec fn seq_sum(s: Seq<u32>) -> int
    decreases s.len(),
{
    if s.len() == 0 {
        0
    } else {
        s[0] + seq_sum(s.drop_first())
    }
}

/// The **base-2 denomination leaves** of a value: its binary expansion, ascending (1, 2, 4,
/// …), at most one of each. `0` → no leaves.
pub fn denominations(value: u32) -> (leaves: Vec<u32>)
    ensures
        leaves@ == leaves_of(value as nat),
{
    let mut out: Vec<u32> = Vec::new();
    let mut bit: u32 = 1;
    let mut v = value;
    while v != 0
        invariant
            out@ + leaves_from(v as nat, bit as nat) == leaves_of(value as nat),
            bit >= 1,
            v > 0 ==> bit as int * v <= u32::MAX,
        decreases v,
    {
        let ghost old_out = out@;
        let ghost old_v = v;
        let ghost old_bit = bit;
        if v % 2 == 1 {
            out.push(bit);
        }
        v = v / 2;
        proof {
            assert(out@ + leaves_from(v as nat, 2 * old_bit as nat) =~= old_out + leaves_from(
                old_v as nat,
                old_bit as nat,
            ));
        }
        if v != 0 {
            assert(2 * bit as int * v <= u32::MAX) by (nonlinear_arith)
                requires
                    bit as int * old_v <= u32::MAX,
                    v == old_v / 2,
                    bit >= 1,
            ;
            assert(2 * bit as int <= u32::MAX) by (nonlinear_arith)
                requires
                    2 * bit as int * v <= u32::MAX,
                    v >= 1,
                    bit >= 1,
            ;
            bit = bit * 2;
        } else {
            assert(leaves_from(0, 2 * old_bit as nat) =~= Seq::<u32>::empty());
        }
    }
    out
}

/// The number of set bits of `value`.
pub fn card_cost(value: u32) -> (n: u32)
    ensures
        n == popcount(value as nat),
{
    let mut n: u32 = 0;
    let mut v = value;
    while v != 0
        invariant
            n + popcount(v as nat) == popcount(value as nat),
            n + v <= value,
        decreases v,
    {
        proof {
            lemma_popcount_bound(v as nat);
        }
        n = n + v % 2;
        v = v / 2;
    }
    n
}

proof fn lemma_popcount_bound(v: nat)
    ensures
        popcount(v) <= popcount(v / 2) + 1,
{
}

/// A suit deck: its `suit`, the stat it feeds, and the **denomination leaves** that sum to the stat's
/// value. The deck **face** is `value`.
#[derive(Clone, Debug)]
pub struct SuitDeck {
    pub suit: Suit,
    pub stat: Stat,
    pub value: u32,
    pub leaves: Vec<u32>,
}

impl SuitDeck {
    fn new(suit: Suit, stat: Stat, value: u32) -> (d: Self)
        ensures
            d.suit == suit,
            d.stat == stat,
            d.value == value,
            d.leaves@ == leaves_of(value as nat),
    {
        SuitDeck { suit, stat, value, leaves: denominations(value) }
    }
}

/// A stat deck (the middle tier): its `deck` and its (one or two) suit decks.
#[derive(Clone, Debug)]
pub struct StatDeck {
    pub deck: Deck,
    pub suits: Vec<SuitDeck>,
}

/// The **Form tree**: the three stat decks (Health · Tempo · Might) derived from a [`Form`]'s
/// commutative totals.
#[derive(Clone, Debug)]
pub struct FormTree {
    pub decks: Vec<StatDeck>,
}

/// The value a Form contributes to a stat, as the tree shows it: Vitality is the Health-card count,
/// Toughness the (floored) per-card bar, the rest the plain sums.
pub open spec fn form_stat(cards: Seq<StatCard>, s: Stat) -> u32 {
    match s {
        Stat::Vitality => sum_field(cards, Field::Vitality) as u32,
        Stat::Toughness => if sum_field(cards, Field::Vitality) == 0 {
            1u32
        } else {
            floor1(sum_field(cards, Field::Toughness) as u32)
        },
        Stat::Cadence => sum_field(cards, Field::Cadence) as u32,
        Stat::Finesse => sum_field(cards, Field::Finesse) as u32,
        Stat::Might => sum_field(cards, Field::Might) as u32,
    }
}

use crate::form::StatCard;

/// The canonical tree shape: Health (Vitality, Toughness), Tempo (Cadence, Finesse), Might (Might),
/// each suit deck carrying its value's binary leaves.
pub open spec fn tree_of(cards: Seq<StatCard>, t: FormTree) -> bool {
    let d = t.decks@;
    &&& d.len() == 3
    &&& d[0].deck == Deck::Health && d[1].deck == Deck::Tempo && d[2].deck == Deck::Might
    &&& d[0].suits@.len() == 2 && d[1].suits@.len() == 2 && d[2].suits@.len() == 1
    &&& suit_is(d[0].suits@[0], Suit::Quantity, Stat::Vitality, form_stat(cards, Stat::Vitality))
    &&& suit_is(d[0].suits@[1], Suit::Power, Stat::Toughness, form_stat(cards, Stat::Toughness))
    &&& suit_is(d[1].suits@[0], Suit::Quantity, Stat::Cadence, form_stat(cards, Stat::Cadence))
    &&& suit_is(d[1].suits@[1], Suit::Power, Stat::Finesse, form_stat(cards, Stat::Finesse))
    &&& suit_is(d[2].suits@[0], Suit::Power, Stat::Might, form_stat(cards, Stat::Might))
}

pub open spec fn suit_is(sd: SuitDeck, suit: Suit, stat: Stat, value: u32) -> bool {
    sd.suit == suit && sd.stat == stat && sd.value == value && sd.leaves@ == leaves_of(value as nat)
}

/// All suit decks of a tree, in order.
pub open spec fn all_suits(decks: Seq<StatDeck>) -> Seq<SuitDeck>
    decreases decks.len(),
{
    if decks.len() == 0 {
        seq![]
    } else {
        decks[0].suits@ + all_suits(decks.drop_first())
    }
}

/// The value of the first suit deck feeding `stat`, or 0.
pub open spec fn first_value(s: Seq<SuitDeck>, stat: Stat) -> u32
    decreases s.len(),
{
    if s.len() == 0 {
        0
    } else if s[0].stat == stat {
        s[0].value
    } else {
        first_value(s.drop_first(), stat)
    }
}

/// The total leaf count over suit decks.
pub open spec fn leaf_count(s: Seq<SuitDeck>) -> int
    decreases s.len(),
{
    if s.len() == 0 {
        0
    } else {
        s[0].leaves@.len() + leaf_count(s.drop_first())
    }
}

impl FormTree {
    /// Derive the canonical tree from a Form (its stats summed commutatively). Health carries both
    /// suits (Vitality × Toughness), Tempo both (Cadence × Finesse), Might the lone Power flat.
    pub fn of(form: &Form) -> (t: Self)
        requires
            sums_fit(form.cards@),
        ensures
            tree_of(form.cards@, t),
    {
        let o = form.offense();
        let d = form.defense();
        let vit = d.health.max();
        let tough = d.health.toughness();
        proof {
            crate::stats::lemma_fresh_deck(sum_field(form.cards@, Field::Vitality) as nat, floor1(sum_field(form.cards@, Field::Toughness) as u32));
            crate::stats::lemma_first_up(d.health@);
        }
        let mut health_suits: Vec<SuitDeck> = Vec::new();
        health_suits.push(SuitDeck::new(Suit::Quantity, Stat::Vitality, vit));
        health_suits.push(SuitDeck::new(Suit::Power, Stat::Toughness, tough));
        let mut tempo_suits: Vec<SuitDeck> = Vec::new();
        tempo_suits.push(SuitDeck::new(Suit::Quantity, Stat::Cadence, o.cadence));
        tempo_suits.push(SuitDeck::new(Suit::Power, Stat::Finesse, o.finesse));
        let mut might_suits: Vec<SuitDeck> = Vec::new();
        might_suits.push(SuitDeck::new(Suit::Power, Stat::Might, o.might));
        let mut decks: Vec<StatDeck> = Vec::new();
        decks.push(StatDeck { deck: Deck::Health, suits: health_suits });
        decks.push(StatDeck { deck: Deck::Tempo, suits: tempo_suits });
        decks.push(StatDeck { deck: Deck::Might, suits: might_suits });
        FormTree { decks }
    }

    /// The value of one stat, read off the tree (the first suit-deck face for that stat, or 0).
    pub fn stat(&self, stat: Stat) -> (v: u32)
        ensures
            v == first_value(all_suits(self.decks@), stat),
    {
        let mut i: usize = 0;
        let ghost all = all_suits(self.decks@);
        assert(self.decks@.skip(0) =~= self.decks@);
        while i < self.decks.len()
            invariant
                i <= self.decks@.len(),
                all == all_suits(self.decks@),
                first_value(all, stat) == first_value(all_suits(self.decks@.skip(i as int)), stat),
            decreases self.decks.len() - i,
        {
            let suits = &self.decks[i].suits;
            let ghost rest = all_suits(self.decks@.skip(i as int + 1));
            assert(self.decks@.skip(i as int).drop_first() =~= self.decks@.skip(i as int + 1));
            assert(all_suits(self.decks@.skip(i as int)) == suits@ + rest);
            let mut j: usize = 0;
            assert((suits@ + rest).skip(0) =~= suits@ + rest);
            while j < suits.len()
                invariant
                    j <= suits@.len(),
                    all == all_suits(self.decks@),
                    first_value(all, stat) == first_value(suits@ + rest, stat),
                    first_value(suits@ + rest, stat) == first_value((suits@ + rest).skip(j as int), stat),
                decreases suits.len() - j,
            {
                assert((suits@ + rest).skip(j as int).drop_first() =~= (suits@ + rest).skip(j as int + 1));
                assert((suits@ + rest).skip(j as int)[0] == suits@[j as int]);
                if suits[j].stat == stat {
                    return suits[j].value;
                }
                j = j + 1;
            }
            assert((suits@ + rest).skip(j as int) =~= rest);
            i = i + 1;
        }
        assert(all_suits(self.decks@.skip(i as int)) =~= Seq::<SuitDeck>::empty());
        0
    }

    /// The whole Form's card-cost: total denomination leaves across every suit deck.
    pub fn total_cards(&self) -> (n: u32)
        requires
            leaf_count(all_suits(self.decks@)) <= u32::MAX,
        ensures
            n == leaf_count(all_suits(self.decks@)),
    {
        let mut n: u32 = 0;
        let mut i: usize = 0;
        let ghost all = all_suits(self.decks@);
        assert(self.decks@.skip(0) =~= self.decks@);
        while i < self.decks.len()
            invariant
                i <= self.decks@.len(),
                all == all_suits(self.decks@),
                leaf_count(all) <= u32::MAX,
                n + leaf_count(all_suits(self.decks@.skip(i as int))) == leaf_count(all),
            decreases self.decks.len() - i,
        {
            let suits = &self.decks[i].suits;
            let ghost rest = all_suits(self.decks@.skip(i as int + 1));
            assert(self.decks@.skip(i as int).drop_first() =~= self.decks@.skip(i as int + 1));
            let mut j: usize = 0;
            assert(suits@.skip(0) =~= suits@);
            while j < suits.len()
                invariant
                    j <= suits@.len(),
                    leaf_count(all) <= u32::MAX,
                    n + leaf_count(suits@.skip(j as int) + rest) == leaf_count(all),
                decreases suits.len() - j,
            {
                assert((suits@.skip(j as int) + rest).drop_first() =~= suits@.skip(j as int + 1) + rest);
                assert((suits@.skip(j as int) + rest)[0] == suits@[j as int]);
                proof {
                    lemma_leaf_count_nonneg(suits@.skip(j as int + 1) + rest);
                }
                n = n + suits[j].leaves.len() as u32;
                j = j + 1;
            }
            assert(suits@.skip(j as int) + rest =~= rest);
            i = i + 1;
        }
        assert(all_suits(self.decks@.skip(i as int)) =~= Seq::<SuitDeck>::empty());
        n
    }
}

proof fn lemma_leaf_count_nonneg(s: Seq<SuitDeck>)
    ensures
        leaf_count(s) >= 0,
    decreases s.len(),
{
    if s.len() > 0 {
        lemma_leaf_count_nonneg(s.drop_first());
    }
}


// ---------------------------------------------------------------------------------------------
// Laws of the base-2 tree.
// ---------------------------------------------------------------------------------------------

proof fn lemma_leaves_from(v: nat, p: nat)
    requires
        p >= 1,
        is_pow2(p),
        p * v <= u32::MAX,
    ensures
        seq_sum(leaves_from(v, p)) == p * v,
        leaves_from(v, p).len() == popcount(v),
        forall|i: int| 0 <= i < leaves_from(v, p).len() ==> is_pow2(#[trigger] leaves_from(v, p)[i] as nat),
        forall|i: int| 0 <= i < leaves_from(v, p).len() ==> #[trigger] leaves_from(v, p)[i] >= p,
        forall|i: int, j: int|
            0 <= i < j < leaves_from(v, p).len() ==> leaves_from(v, p)[i] < leaves_from(v, p)[j],
    decreases v,
{
    if v > 0 {
        let h = v / 2;
        assert(2 * p * h <= u32::MAX) by (nonlinear_arith)
            requires
                p * v <= u32::MAX,
                h == v / 2,
                p >= 1,
        ;
        assert(is_pow2(2 * p)) by {
            assert((2 * p) % 2 == 0);
            assert((2 * p) / 2 == p);
        }
        lemma_leaves_from(h, 2 * p);
        let rest = leaves_from(h, 2 * p);
        if v % 2 == 1 {
            assert(p <= u32::MAX) by (nonlinear_arith)
                requires
                    p * v <= u32::MAX,
                    v >= 1,
                    p >= 1,
            ;
            let l = seq![p as u32] + rest;
            assert(l.drop_first() =~= rest);
            assert(seq_sum(l) == p + seq_sum(rest));
            assert(p * v == p + 2 * p * h) by (nonlinear_arith)
                requires
                    v == 2 * h + 1,
            ;
            assert forall|i: int| 0 <= i < l.len() implies is_pow2(#[trigger] l[i] as nat) && l[i] >= p by {
                if i > 0 {
                    assert(l[i] == rest[i - 1]);
                }
            }
            assert forall|i: int, j: int| 0 <= i < j < l.len() implies l[i] < l[j] by {
                if i > 0 {
                    assert(l[i] == rest[i - 1]);
                }
                assert(l[j] == rest[j - 1]);
            }
        } else {
            assert(p * v == 2 * p * h) by (nonlinear_arith)
                requires
                    v == 2 * h,
            ;
        }
    } else {
        assert(p * v == 0) by (nonlinear_arith)
            requires
                v == 0,
        ;
    }
}

/// **Base-2 denominations are the unique binary expansion**: a value's leaves sum to the value, each
/// is a power of two, they strictly ascend (so no denomination repeats), and their count is the
/// value's popcount — its card-cost.
pub proof fn law_denominations_are_the_binary_expansion(v: u32)
    ensures
        seq_sum(leaves_of(v as nat)) == v,
        leaves_of(v as nat).len() == popcount(v as nat),
        forall|i: int| 0 <= i < leaves_of(v as nat).len() ==> is_pow2(#[trigger] leaves_of(v as nat)[i] as nat),
        forall|i: int, j: int|
            0 <= i < j < leaves_of(v as nat).len() ==> leaves_of(v as nat)[i] < leaves_of(v as nat)[j],
{
    lemma_leaves_from(v as nat, 1);
}

/// **The tableau equals the summed Form**: reading any stat off a Form's tree gives the Form's summed
/// total for that stat, each suit deck's leaves sum to its face, and the tree's card-cost is the
/// popcount of its five faces.
pub proof fn law_tree_reads_back_the_form(cards: Seq<StatCard>, t: FormTree, s: Stat)
    requires
        tree_of(cards, t),
    ensures
        first_value(all_suits(t.decks@), s) == form_stat(cards, s),
        leaf_count(all_suits(t.decks@)) == popcount(form_stat(cards, Stat::Vitality) as nat)
            + popcount(form_stat(cards, Stat::Toughness) as nat) + popcount(form_stat(cards, Stat::Cadence) as nat)
            + popcount(form_stat(cards, Stat::Finesse) as nat) + popcount(form_stat(cards, Stat::Might) as nat),
        forall|k: int| 0 <= k < all_suits(t.decks@).len() ==>
            seq_sum(#[trigger] all_suits(t.decks@)[k].leaves@) == all_suits(t.decks@)[k].value,
{
    let d = t.decks@;
    let all = all_suits(d);
    assert(d.drop_first().drop_first().drop_first() =~= Seq::<StatDeck>::empty());
    assert(all_suits(d.drop_first().drop_first().drop_first()) =~= Seq::<SuitDeck>::empty());
    assert(d.drop_first().drop_first()[0] == d[2]);
    assert(d.drop_first()[0] == d[1]);
    let s2 = all_suits(d.drop_first().drop_first());
    assert(s2 =~= d[2].suits@);
    let s1 = all_suits(d.drop_first());
    assert(s1 =~= d[1].suits@ + d[2].suits@);
    assert(all =~= d[0].suits@ + d[1].suits@ + d[2].suits@);
    let x = all;
    assert(x.len() == 5);
    assert(x.drop_first().drop_first().drop_first().drop_first().drop_first() =~= Seq::<SuitDeck>::empty());
    assert forall|k: int| 0 <= k < x.len() implies seq_sum(#[trigger] x[k].leaves@) == x[k].value by {
        law_denominations_are_the_binary_expansion(x[k].value);
    }
    law_denominations_are_the_binary_expansion(x[0].value);
    law_denominations_are_the_binary_expansion(x[1].value);
    law_denominations_are_the_binary_expansion(x[2].value);
    law_denominations_are_the_binary_expansion(x[3].value);
    law_denominations_are_the_binary_expansion(x[4].value);
    reveal_with_fuel(first_value, 6);
    reveal_with_fuel(leaf_count, 6);
}

} // verus!
