//! The sample-combat roster's plays: where an actor stands, and what a hero can declare in a round.

use vstd::prelude::*;
use crate::read::{Read, read_name};

verus! {

/// Which rank an actor stands in. The front line gates bodies; the back line shelters behind it.
#[derive(Clone, Copy, Debug, PartialEq, Eq, Structural)]
pub enum Line {
    Front,
    Back,
}

/// One play a hero can declare in a round: one of the four basic reads, or a signature card.
///
/// Plays split into **attacking** (commit to a target, leaving you exposed elsewhere) and
/// **holding** (a defensive read or support — you defend all comers and, on the front line, feed the
/// gauntlet's drag).
#[derive(Clone, Copy, Debug, PartialEq, Eq, Structural)]
pub enum Play {
    /// One of the four basic reads. `Strike` is attacking; the rest hold.
    Read(Read),
    /// A fast blunt Strike off the shield; carries stagger.
    Bash,
    /// An Evade that counters: defend, then a free riposte.
    Riposte,
    /// Heat, up to five distinct front-line targets at once.
    Firestorm,
    /// Cold; wounds and slows (cheaper for the wall to stop next round).
    Frostbite,
    /// Raise the whole party's Resolve; lasts (a party-zone effect).
    Rally,
    /// A Fear attack on a foe's nerve; bypasses armor entirely.
    Dread,
    /// Recover your own nerve, clearing accumulated fear.
    Steel,
}

/// The attacking plays: a Strike read, Bash, Firestorm, Frostbite and Dread.
pub open spec fn attacking(p: Play) -> bool {
    match p {
        Play::Read(r) => r == Read::Strike,
        Play::Bash | Play::Firestorm | Play::Frostbite | Play::Dread => true,
        _ => false,
    }
}

/// The plays that need one chosen target creature: a Strike read, Bash, Frostbite and Dread.
pub open spec fn targeted(p: Play) -> bool {
    match p {
        Play::Read(r) => r == Read::Strike,
        Play::Bash | Play::Frostbite | Play::Dread => true,
        _ => false,
    }
}

/// A play's label: a read by its own name, a signature card by its.
pub open spec fn play_name(p: Play) -> Seq<char> {
    match p {
        Play::Read(r) => read_name(r),
        Play::Bash => "Bash"@,
        Play::Riposte => "Riposte"@,
        Play::Firestorm => "Firestorm"@,
        Play::Frostbite => "Frostbite"@,
        Play::Rally => "Rally"@,
        Play::Dread => "Dread"@,
        Play::Steel => "Steel"@,
    }
}

impl Play {
    /// Attacking plays commit to a target and expose you elsewhere.
    pub fn is_attacking(self) -> (b: bool)
        ensures
            b == attacking(self),
    {
        match self {
            Play::Read(r) => match r {
                Read::Strike => true,
                _ => false,
            },
            Play::Bash => true,
            Play::Firestorm => true,
            Play::Frostbite => true,
            Play::Dread => true,
            _ => false,
        }
    }

    /// Whether this play needs a single chosen target creature. (`Firestorm` picks its own targets;
    /// the holding and support plays need none.)
    pub fn needs_target(self) -> (b: bool)
        ensures
            b == targeted(self),
    {
        match self {
            Play::Read(r) => match r {
                Read::Strike => true,
                _ => false,
            },
            Play::Bash => true,
            Play::Frostbite => true,
            Play::Dread => true,
            _ => false,
        }
    }

    /// A short label for menus and the log.
    pub fn name(self) -> (s: &'static str)
        ensures
            s@ == play_name(self),
    {
        match self {
            Play::Read(r) => r.name(),
            Play::Bash => "Bash",
            Play::Riposte => "Riposte",
            Play::Firestorm => "Firestorm",
            Play::Frostbite => "Frostbite",
            Play::Rally => "Rally",
            Play::Dread => "Dread",
            Play::Steel => "Steel",
        }
    }
}

} // verus!
