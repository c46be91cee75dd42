//! The **role tracks** (formerly currencies). The five role colours survive as **track ids**: they key
//! which role a reward belongs to and carry the role/colour provenance. There is no spend economy —
//! clearing a track-level directly unlocks its reward.

use vstd::prelude::*;

verus! {

/// A role track id. Five role colours + a generic `Gold` retained for non-track locations. The five
/// **role tracks** are [`Currency::tracks`].
#[derive(Clone, Copy, Debug, PartialEq, Eq, Hash, Structural)]
pub enum Currency {
    /// Wall — hold the line.
    Iron,
    /// Infiltrator — slip and assassinate.
    Silver,
    /// Artillery — ranged damage.
    Brass,
    /// Controller — strip foes.
    Bone,
    /// Support — heal / ward / aid.
    Salt,
    /// Generic — non-track (neutral locations); never a reward track.
    Gold,
}

/// The role track ids (a clearer name for the surviving enum).
pub type Track = Currency;

pub open spec fn currency_label(c: Currency) -> Seq<char> {
    match c {
        Currency::Iron => "Iron"@,
        Currency::Silver => "Silver"@,
        Currency::Brass => "Brass"@,
        Currency::Bone => "Bone"@,
        Currency::Salt => "Salt"@,
        Currency::Gold => "Gold"@,
    }
}

/// The combat role a track funds; `None` for the generic Gold.
pub open spec fn currency_role(c: Currency) -> Option<Seq<char>> {
    match c {
        Currency::Iron => Some("Wall"@),
        Currency::Silver => Some("Infiltrator"@),
        Currency::Brass => Some("Artillery"@),
        Currency::Bone => Some("Controller"@),
        Currency::Salt => Some("Support"@),
        Currency::Gold => None,
    }
}

/// The ranged weapon a track confers: Artillery's Bow, Controller's Wand; none otherwise.
pub open spec fn currency_weapon(c: Currency) -> Option<Seq<char>> {
    match c {
        Currency::Brass => Some("Bow"@),
        Currency::Bone => Some("Wand"@),
        _ => None,
    }
}

/// The view of an optional static string.
pub open spec fn opt_view(o: Option<&'static str>) -> Option<Seq<char>> {
    match o {
        Some(s) => Some(s@),
        None => None,
    }
}

impl Currency {
    /// All six ids, in canonical order (Gold last — the generic non-track).
    pub fn all() -> (a: [Currency; 6])
        ensures
            a@ == seq![
                Currency::Iron,
                Currency::Silver,
                Currency::Brass,
                Currency::Bone,
                Currency::Salt,
                Currency::Gold,
            ],
    {
        let a = [
            Currency::Iron,
            Currency::Silver,
            Currency::Brass,
            Currency::Bone,
            Currency::Salt,
            Currency::Gold,
        ];
        assert(a@ =~= seq![
            Currency::Iron,
            Currency::Silver,
            Currency::Brass,
            Currency::Bone,
            Currency::Salt,
            Currency::Gold,
        ]);
        a
    }

    /// The five **role tracks** (Gold excluded — it is the generic, not a track).
    pub fn tracks() -> (a: [Currency; 5])
        ensures
            a@ == seq![Currency::Iron, Currency::Silver, Currency::Brass, Currency::Bone, Currency::Salt],
    {
        let a = [Currency::Iron, Currency::Silver, Currency::Brass, Currency::Bone, Currency::Salt];
        assert(a@ =~= seq![Currency::Iron, Currency::Silver, Currency::Brass, Currency::Bone, Currency::Salt]);
        a
    }

    pub fn label(self) -> (s: &'static str)
        ensures
            s@ == currency_label(self),
    {
        match self {
            Currency::Iron => "Iron",
            Currency::Silver => "Silver",
            Currency::Brass => "Brass",
            Currency::Bone => "Bone",
            Currency::Salt => "Salt",
            Currency::Gold => "Gold",
        }
    }

    /// The combat role this track funds — `None` for the generic Gold.
    pub fn role(self) -> (r: Option<&'static str>)
        ensures
            opt_view(r) == currency_role(self),
    {
        match self {
            Currency::Iron => Some("Wall"),
            Currency::Silver => Some("Infiltrator"),
            Currency::Brass => Some("Artillery"),
            Currency::Bone => Some("Controller"),
            Currency::Salt => Some("Support"),
            Currency::Gold => None,
        }
    }

    /// The **ranged weapon** a track confers when a character invests in it: Artillery's Bow,
    /// Controller's Wand. `None` for the melee roles and Support.
    pub fn ranged_weapon(self) -> (r: Option<&'static str>)
        ensures
            opt_view(r) == currency_weapon(self),
    {
        match self {
            Currency::Brass => Some("Bow"),
            Currency::Bone => Some("Wand"),
            _ => None,
        }
    }
}

/// **Five role tracks plus a generic**: exactly the five tracks name a role; Gold, the generic, is
/// not a track and names none.
pub proof fn law_every_track_names_a_role(c: Currency)
    ensures
        currency_role(c) is Some <==> c != Currency::Gold,
        seq![Currency::Iron, Currency::Silver, Currency::Brass, Currency::Bone, Currency::Salt].contains(c)
            <==> c != Currency::Gold,
{
    let t = seq![Currency::Iron, Currency::Silver, Currency::Brass, Currency::Bone, Currency::Salt];
    if c != Currency::Gold {
        match c {
            Currency::Iron => assert(t[0] == c),
            Currency::Silver => assert(t[1] == c),
            Currency::Brass => assert(t[2] == c),
            Currency::Bone => assert(t[3] == c),
            Currency::Salt => assert(t[4] == c),
            Currency::Gold => {},
        }
    }
}

} // verus!
