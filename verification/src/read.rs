//! The Mind's rock-paper-scissors read and the cycle that resolves two of them.
//!
//! `Strike → Scheme → Defense → Strike`: a Strike beats a Scheme (interrupting the setup), a Defense
//! (Block/Evade) beats a Strike (absorb or dodge), and a Scheme beats a Defense (you set up while they
//! guarded nothing). Same categories mirror, and the magnitude layer (tempo, then damage) settles them.

use vstd::prelude::*;

verus! {

/// A single read.
#[derive(Clone, Copy, Debug, PartialEq, Eq, Structural)]
pub enum Read {
    Strike,
    Block,
    Evade,
    Scheme,
}

/// The three roles on the cycle.
#[derive(Clone, Copy, Debug, PartialEq, Eq, Structural)]
pub enum Category {
    Strike,
    Defense,
    Scheme,
}

/// Who prevails when an attacker's read meets a defender's read.
#[derive(Clone, Copy, Debug, PartialEq, Eq, Structural)]
pub enum Clash {
    /// The attacker's read wins — its offense lands, the defender's is spoiled.
    AttackerWins,
    /// The defender's read wins — the attack is negated.
    DefenderWins,
    /// Same category — settled by the magnitude layer (tempo, then both land).
    Mirror,
}

pub open spec fn read_name(r: Read) -> Seq<char> {
    match r {
        Read::Strike => "Strike"@,
        Read::Block => "Block"@,
        Read::Evade => "Evade"@,
        Read::Scheme => "Scheme"@,
    }
}

pub open spec fn category_of(r: Read) -> Category {
    match r {
        Read::Strike => Category::Strike,
        Read::Block | Read::Evade => Category::Defense,
        Read::Scheme => Category::Scheme,
    }
}

/// The category each category beats on the cycle (Strike▸Scheme▸Defense▸Strike).
pub open spec fn beats(c: Category) -> Category {
    match c {
        Category::Strike => Category::Scheme,
        Category::Scheme => Category::Defense,
        Category::Defense => Category::Strike,
    }
}

pub open spec fn clash_spec(attacker: Read, defender: Read) -> Clash {
    let (a, d) = (category_of(attacker), category_of(defender));
    if a == d {
        Clash::Mirror
    } else if beats(a) == d {
        Clash::AttackerWins
    } else {
        Clash::DefenderWins
    }
}

impl Read {
    /// A short display name.
    pub fn name(self) -> (s: &'static str)
        ensures
            s@ == read_name(self),
    {
        match self {
            Read::Strike => "Strike",
            Read::Block => "Block",
            Read::Evade => "Evade",
            Read::Scheme => "Scheme",
        }
    }

    /// Block and Evade are the two Defenses — same role on the cycle.
    pub fn is_defense(self) -> (b: bool)
        ensures
            b == (category_of(self) == Category::Defense),
    {
        match self {
            Read::Block | Read::Evade => true,
            _ => false,
        }
    }

    fn category(self) -> (c: Category)
        ensures
            c == category_of(self),
    {
        match self {
            Read::Strike => Category::Strike,
            Read::Block | Read::Evade => Category::Defense,
            Read::Scheme => Category::Scheme,
        }
    }
}

/// Resolve `attacker` versus `defender` on the cycle.
pub fn clash(attacker: Read, defender: Read) -> (c: Clash)
    ensures
        c == clash_spec(attacker, defender),
{
    let a = attacker.category();
    let d = defender.category();
    if a == d {
        return Clash::Mirror;
    }
    let attacker_wins = match (a, d) {
        (Category::Strike, Category::Scheme) | (Category::Scheme, Category::Defense) | (
            Category::Defense,
            Category::Strike,
        ) => true,
        _ => false,
    };
    if attacker_wins {
        Clash::AttackerWins
    } else {
        Clash::DefenderWins
    }
}

/// The cycle is a strict rock-paper-scissors: two reads mirror exactly when they share a category,
/// and otherwise exactly one of them wins — swapping attacker and defender swaps the winner.
pub proof fn law_clash_is_antisymmetric(x: Read, y: Read)
    ensures
        (clash_spec(x, y) == Clash::Mirror) <==> (category_of(x) == category_of(y)),
        (clash_spec(x, y) == Clash::AttackerWins) <==> (clash_spec(y, x) == Clash::DefenderWins),
        (clash_spec(x, y) == Clash::Mirror) <==> (clash_spec(y, x) == Clash::Mirror),
{
}

/// Every read is beaten by something and beats something: each category has exactly one prey and one
/// predator on the cycle.
pub proof fn law_cycle_has_no_dominant_read(x: Read)
    ensures
        exists|y: Read| clash_spec(x, y) == Clash::AttackerWins,
        exists|y: Read| clash_spec(x, y) == Clash::DefenderWins,
{
    match x {
        Read::Strike => {
            assert(clash_spec(x, Read::Scheme) == Clash::AttackerWins);
            assert(clash_spec(x, Read::Block) == Clash::DefenderWins);
        },
        Read::Block | Read::Evade => {
            assert(clash_spec(x, Read::Strike) == Clash::AttackerWins);
            assert(clash_spec(x, Read::Scheme) == Clash::DefenderWins);
        },
        Read::Scheme => {
            assert(clash_spec(x, Read::Block) == Clash::AttackerWins);
            assert(clash_spec(x, Read::Strike) == Clash::DefenderWins);
        },
    }
}

} // verus!
