//! Combatants — **Actors** — their attack profile, and how creatures decide.
//!
//! A **Character** is human-driven; a **Creature** follows a scripted `Behavior`. Both carry the full
//! stat block — [`Offense`] / [`Defense`] — a weapon, action cards, and the round's **Tempo** pool (=
//! Cadence). Each Actor also has an **attack profile**: the range(s) it can strike and contest at,
//! plus round-scoped **status** (Stagger / Shove / Disarm) cleared at Refresh, and card-tracked
//! **tokens** whose debuffs never drop a stat below 1 ([`law_debuffs_never_lock`]).

use vstd::prelude::*;
use crate::cards::Card;
use crate::duel::Move;
use crate::form::Form;
use crate::stats::{Defense, Offense, bar_of, count_up};
use crate::text::str_eq;

verus! {

/// The range of an engagement. Vanguard and Outrider strikes are melee; Rearguard fire is ranged.
#[derive(Clone, Copy, Debug, PartialEq, Eq, Structural)]
pub enum Range {
    Melee,
    Ranged,
}

/// A unit's declared **intention** for the round — the position it takes.
#[derive(Clone, Copy, Debug, PartialEq, Eq, Hash, PartialOrd, Ord, Structural)]
pub enum Intention {
    /// Hold the line (front).
    Vanguard,
    /// Break the line (flank).
    Outrider,
    /// Deal from the back.
    Rearguard,
}

pub open spec fn prey_of(i: Intention) -> Intention {
    match i {
        Intention::Vanguard => Intention::Outrider,
        Intention::Outrider => Intention::Rearguard,
        Intention::Rearguard => Intention::Vanguard,
    }
}

pub open spec fn intention_label(i: Intention) -> Seq<char> {
    match i {
        Intention::Vanguard => "Vanguard"@,
        Intention::Outrider => "Outrider"@,
        Intention::Rearguard => "Rearguard"@,
    }
}

impl Intention {
    /// The role this intention is **designed to beat** (its cycle prey, Hold▸Break▸Deal▸Hold).
    pub fn prey(self) -> (p: Intention)
        ensures
            p == prey_of(self),
    {
        match self {
            Intention::Vanguard => Intention::Outrider,
            Intention::Outrider => Intention::Rearguard,
            Intention::Rearguard => Intention::Vanguard,
        }
    }

    pub fn label(self) -> (s: &'static str)
        ensures
            s@ == intention_label(self),
    {
        match self {
            Intention::Vanguard => "Vanguard",
            Intention::Outrider => "Outrider",
            Intention::Rearguard => "Rearguard",
        }
    }
}

/// A **utility token**: card-tracked state placed on an Actor. All tokens clear on the bearer's
/// death; the per-round **Guard** token is additionally cleared at the Lull.
#[derive(Clone, Copy, Debug, PartialEq, Eq, Structural)]
pub enum Token {
    /// +Toughness while present (per-round).
    Guard { toughness: u32 },
    /// The bearer (a Wall) covers ally `ally`: single-target damage aimed there redirects to it.
    Cover { ally: usize },
    /// −`finesse` Finesse (floor 1) while present.
    Mark { finesse: u32 },
    /// −`cadence` Cadence (floor 1) while present.
    Mire { cadence: u32 },
    /// −`toughness` Toughness (floor 1) while present.
    Sunder { toughness: u32 },
    /// −`might` Might (floor 1) while present.
    Defang { might: u32 },
    /// Each Reckoning, deal `power` Might into the bearer's pile and remove one stack.
    Burn { power: u32 },
    /// When this ally is struck, the attacker takes `power` Might into its own pile.
    Thorns { power: u32 },
    /// One banked step of magnitude: the next damage strike consumes all Charges for +1 Might each.
    Charge,
    /// The next charge ignores the rear's Volley pre-empt; consumed on use.
    Smoke,
}

/// Which token amount a tally reads.
#[derive(Clone, Copy, Debug, PartialEq, Eq, Structural)]
pub enum Tally {
    Guard,
    Mark,
    Mire,
    Sunder,
    Defang,
    Thorns,
}

/// What one token contributes to a tally.
pub open spec fn token_amount(t: Token, k: Tally) -> nat {
    match (t, k) {
        (Token::Guard { toughness }, Tally::Guard) => toughness as nat,
        (Token::Mark { finesse }, Tally::Mark) => finesse as nat,
        (Token::Mire { cadence }, Tally::Mire) => cadence as nat,
        (Token::Sunder { toughness }, Tally::Sunder) => toughness as nat,
        (Token::Defang { might }, Tally::Defang) => might as nat,
        (Token::Thorns { power }, Tally::Thorns) => power as nat,
        _ => 0,
    }
}

/// The sum of a tally over a token sequence.
pub open spec fn token_total(s: Seq<Token>, k: Tally) -> nat
    decreases s.len(),
{
    if s.len() == 0 {
        0
    } else {
        token_amount(s[0], k) + token_total(s.drop_first(), k)
    }
}

/// Every token tally of a bearer fits a `u32`.
pub open spec fn tokens_fit(s: Seq<Token>) -> bool {
    &&& token_total(s, Tally::Guard) <= u32::MAX
    &&& token_total(s, Tally::Mark) <= u32::MAX
    &&& token_total(s, Tally::Mire) <= u32::MAX
    &&& token_total(s, Tally::Sunder) <= u32::MAX
    &&& token_total(s, Tally::Defang) <= u32::MAX
    &&& token_total(s, Tally::Thorns) <= u32::MAX
}

pub open spec fn is_charge(t: Token) -> bool {
    t == Token::Charge
}

pub open spec fn is_smoke(t: Token) -> bool {
    t == Token::Smoke
}

pub open spec fn is_guard(t: Token) -> bool {
    t is Guard
}

/// The number of Charge tokens.
pub open spec fn charge_total(s: Seq<Token>) -> nat
    decreases s.len(),
{
    if s.len() == 0 {
        0
    } else {
        (if is_charge(s[0]) { 1nat } else { 0nat }) + charge_total(s.drop_first())
    }
}

/// The tokens other than those matching `guard_or_charge` (true: drop Guards; false: drop Charges),
/// in order.
pub open spec fn strip(s: Seq<Token>, guards: bool) -> Seq<Token>
    decreases s.len(),
{
    if s.len() == 0 {
        s
    } else {
        let rest = strip(s.drop_last(), guards);
        let t = s.last();
        if (guards && is_guard(t)) || (!guards && is_charge(t)) {
            rest
        } else {
            rest.push(t)
        }
    }
}

/// The index of the first Smoke token, or the length.
pub open spec fn first_smoke(s: Seq<Token>) -> int
    decreases s.len(),
{
    if s.len() == 0 {
        0
    } else if is_smoke(s[0]) {
        0
    } else {
        1 + first_smoke(s.drop_first())
    }
}

/// `x - d` floored at 0.
pub open spec fn sat(x: u32, d: nat) -> u32 {
    if x >= d {
        (x - d) as u32
    } else {
        0
    }
}

/// A debuffed stat: unchanged with no debuff; otherwise the saturating difference floored at 1.
pub open spec fn debuffed(base: u32, d: nat) -> u32 {
    if d == 0 {
        base
    } else if sat(base, d) < 1 {
        1
    } else {
        sat(base, d)
    }
}

/// What range(s) an Actor can attack and contest at. A strike at a range the target cannot answer is
/// an **auto-hit**; a same-range meeting is a trade (or a Clash).
#[derive(Clone, Copy, Debug, PartialEq, Eq, Structural)]
pub enum Attack {
    Melee,
    Ranged,
    Both,
    Neither,
}

pub open spec fn attack_has(a: Attack, r: Range) -> bool {
    match (a, r) {
        (Attack::Both, _) => true,
        (Attack::Melee, Range::Melee) => true,
        (Attack::Ranged, Range::Ranged) => true,
        _ => false,
    }
}

pub open spec fn attack_label(a: Attack) -> Seq<char> {
    match a {
        Attack::Melee => "melee"@,
        Attack::Ranged => "ranged"@,
        Attack::Both => "melee+ranged"@,
        Attack::Neither => "support"@,
    }
}

impl Attack {
    /// Can this profile act / contest at `range`?
    pub fn has(self, range: Range) -> (b: bool)
        ensures
            b == attack_has(self, range),
    {
        match (self, range) {
            (Attack::Both, _) => true,
            (Attack::Melee, Range::Melee) => true,
            (Attack::Ranged, Range::Ranged) => true,
            _ => false,
        }
    }

    pub fn label(self) -> (s: &'static str)
        ensures
            s@ == attack_label(self),
    {
        match self {
            Attack::Melee => "melee",
            Attack::Ranged => "ranged",
            Attack::Both => "melee+ranged",
            Attack::Neither => "support",
        }
    }
}

/// Who drives an Actor's choices.
#[derive(Clone, Debug)]
pub enum Driver {
    /// A Character: the human (or a stand-in) improvises.
    Human,
    /// A Creature: a scripted instinct.
    Creature(Behavior),
}

/// A creature's policy: how eagerly it commits to the Vanguard, whom it targets, and (only when the
/// Clash module is on) how it plays the four-card mix-up.
#[derive(Clone, Debug)]
pub struct Behavior {
    /// 0..=10 — higher commits more Actors to the Vanguard / slips more readily.
    pub aggression: u32,
    pub target_rule: TargetRule,
    /// Clash instinct — used only when the optional Clash module is enabled.
    pub instinct: Instinct,
    /// Health cards this creature **mends** on its most-wounded ally each round instead of attacking
    /// (`0` = not a healer).
    pub heal: u32,
}

/// How a creature chooses each Clash beat: a random **deck** or a deterministic **script**.
#[derive(Clone, Debug)]
pub enum Instinct {
    Deck(Vec<Move>),
    Script(Script),
}

/// A deterministic Clash algorithm (tutorial dummies).
#[derive(Clone, Copy, Debug, PartialEq, Eq, Structural)]
pub enum Script {
    Always(Move),
    ChargeThenStrike { until: u32 },
    Counter,
}

pub open spec fn script_pick(s: Script, force: u32) -> Move {
    match s {
        Script::Always(m) => m,
        Script::ChargeThenStrike { until } => if force >= until {
            Move::Strike
        } else {
            Move::Gather
        },
        Script::Counter => if force > 0 {
            Move::Strike
        } else {
            Move::Evade
        },
    }
}

impl Script {
    /// This beat's scripted move given the creature's current Force.
    pub fn pick(self, force: u32) -> (m: Move)
        ensures
            m == script_pick(self, force),
    {
        match self {
            Script::Always(m) => m,
            Script::ChargeThenStrike { until } => {
                if force >= until {
                    Move::Strike
                } else {
                    Move::Gather
                }
            },
            Script::Counter => {
                if force > 0 {
                    Move::Strike
                } else {
                    Move::Evade
                }
            },
        }
    }
}

impl Behavior {
    /// This beat's Clash move (Clash module only). `force` is the creature's current Force; `draw` is
    /// the seeded random index drawn below the deck's size (ignored by a script or an empty deck).
    pub fn pick(&self, force: u32, draw: usize) -> (m: Move)
        requires
            self.instinct matches Instinct::Deck(d) ==> (d@.len() > 0 ==> draw < d@.len()),
        ensures
            m == (match self.instinct {
                Instinct::Deck(d) => if d@.len() == 0 {
                    Move::Strike
                } else {
                    d@[draw as int]
                },
                Instinct::Script(s) => script_pick(s, force),
            }),
    {
        match &self.instinct {
            Instinct::Deck(d) => {
                if d.len() == 0 {
                    Move::Strike
                } else {
                    d[draw]
                }
            },
            Instinct::Script(s) => s.pick(force),
        }
    }
}

/// Whom a creature goes for.
#[derive(Clone, Copy, Debug, PartialEq, Eq, Structural)]
pub enum TargetRule {
    /// The first reachable enemy.
    Front,
    /// The most fragile (fewest health cards).
    LowestBody,
}

/// A combatant.
#[derive(Clone, Debug)]
pub struct Actor {
    pub name: String,
    pub role: String,
    pub offense: Offense,
    pub defense: Defense,
    /// The **Form**: the stat cards this Actor's `offense`/`defense` are summed from. Not used in
    /// resolution.
    pub form: Form,
    /// The base strike profile (the actor's base attack card).
    pub weapon: Card,
    /// Action/power cards playable in the round.
    pub actions: Vec<Card>,
    pub driver: Driver,
    /// Range(s) this Actor can attack and contest at.
    pub attack: Attack,
    /// **Area** strike: hits every member of the target's group at full Might, is unevadable, and
    /// bypasses the spillover bodyguard.
    pub aoe: bool,
    /// Utility tokens placed on this Actor.
    pub tokens: Vec<Token>,
    /// The one breadth pool: initiative spent to act *and* to defend. Refreshes each round.
    pub tempo: i32,
    /// Round-scoped Lifeline: this round the Actor cannot be downed.
    pub cannot_fall: bool,
    /// Round-scoped Stagger: this round the Actor loses its action.
    pub stunned: bool,
    /// Round-scoped Shove: knocked out of melee — it cannot contest a melee blow.
    pub shoved: bool,
    /// Round-scoped Disarm: this round the Actor cannot play its role cards.
    pub disarmed: bool,
    /// Round-scoped Rout: driven from the line to the Rearguard.
    pub routed: bool,
    /// Round-scoped Empower: bonus Might added to this Actor's strikes this round.
    pub might_bonus: u32,
    /// Round-scoped: has this Actor already taken its one free Blitz slip this round?
    pub free_slip_used: bool,
    /// Finalized dead (set at the phase boundary).
    pub fallen: bool,
    /// The names of one-shot cards this Actor has already used this combat.
    pub spent_one_shots: Vec<String>,
}

/// The Actor's health is gone (by the `u32` face-up count).
pub open spec fn actor_down(a: Actor) -> bool {
    count_up(a.defense.health@) as u32 == 0
}

pub open spec fn eff_finesse_of(a: Actor) -> u32 {
    let v = sat(a.offense.finesse, token_total(a.tokens@, Tally::Mark));
    if v < 1 {
        1
    } else {
        v
    }
}

pub open spec fn eff_cadence_of(a: Actor) -> u32 {
    debuffed(a.offense.cadence, token_total(a.tokens@, Tally::Mire))
}

pub open spec fn eff_toughness_of(a: Actor) -> u32 {
    debuffed(bar_of(a.defense.health@), token_total(a.tokens@, Tally::Sunder))
}

pub open spec fn eff_might_of(a: Actor) -> u32 {
    debuffed(a.offense.might, token_total(a.tokens@, Tally::Defang))
}

pub open spec fn can_contest_now_of(a: Actor, r: Range) -> bool {
    !a.stunned && !(a.shoved && r == Range::Melee) && attack_has(a.attack, r)
}

pub open spec fn has_card(actions: Seq<Card>, name: Seq<char>) -> bool {
    exists|i: int| 0 <= i < actions.len() && actions[i].name@ == name
}

proof fn lemma_token_total_step(s: Seq<Token>, i: int, k: Tally)
    requires
        0 <= i < s.len(),
    ensures
        token_total(s.skip(i), k) == token_amount(s[i], k) + token_total(s.skip(i + 1), k),
{
    assert(s.skip(i).drop_first() =~= s.skip(i + 1));
}

proof fn lemma_charge_total_step(s: Seq<Token>, i: int)
    requires
        0 <= i < s.len(),
    ensures
        charge_total(s.skip(i)) == (if is_charge(s[i]) { 1nat } else { 0nat }) + charge_total(s.skip(i + 1)),
{
    assert(s.skip(i).drop_first() =~= s.skip(i + 1));
}

impl Actor {
    pub fn is_down(&self) -> (b: bool)
        ensures
            b == actor_down(*self),
    {
        self.defense.is_down()
    }

    pub fn is_human(&self) -> (b: bool)
        ensures
            b == (self.driver is Human),
    {
        match self.driver {
            Driver::Human => true,
            _ => false,
        }
    }

    pub fn behavior(&self) -> (b: Option<&Behavior>)
        ensures
            match self.driver {
                Driver::Creature(x) => b == Some(&x),
                Driver::Human => b is None,
            },
    {
        match &self.driver {
            Driver::Creature(b) => Some(b),
            Driver::Human => None,
        }
    }

    /// Does this Actor own an attack at `range` (so it can contest there)?
    pub fn can_contest(&self, range: Range) -> (b: bool)
        ensures
            b == attack_has(self.attack, range),
    {
        self.attack.has(range)
    }

    /// Can this Actor contest a blow at `range` **right now**? A **Shoved** unit is knocked out of
    /// melee; a **Stagger**ed unit loses its action entirely.
    pub fn can_contest_now(&self, range: Range) -> (b: bool)
        ensures
            b == can_contest_now_of(*self, range),
    {
        if self.stunned {
            return false;
        }
        if self.shoved && range == Range::Melee {
            return false;
        }
        self.can_contest(range)
    }

    /// Does this Actor carry the named power card?
    pub fn has(&self, card: &str) -> (b: bool)
        ensures
            b == has_card(self.actions@, card@),
    {
        let mut i: usize = 0;
        while i < self.actions.len()
            invariant
                i <= self.actions@.len(),
                forall|j: int| 0 <= j < i ==> self.actions@[j].name@ != card@,
            decreases self.actions.len() - i,
        {
            if str_eq(self.actions[i].name.as_str(), card) {
                return true;
            }
            i = i + 1;
        }
        false
    }

    /// The total of one tally over this Actor's tokens.
    fn tally(&self, k: Tally) -> (t: u32)
        requires
            token_total(self.tokens@, k) <= u32::MAX,
        ensures
            t == token_total(self.tokens@, k),
    {
        let ghost s = self.tokens@;
        let mut t: u32 = 0;
        let mut i: usize = 0;
        assert(s.skip(0) =~= s);
        while i < self.tokens.len()
            invariant
                i <= s.len(),
                s == self.tokens@,
                token_total(s, k) <= u32::MAX,
                t + token_total(s.skip(i as int), k) == token_total(s, k),
            decreases s.len() - i,
        {
            proof {
                lemma_token_total_step(s, i as int, k);
            }
            let v: u32 = match (self.tokens[i], k) {
                (Token::Guard { toughness }, Tally::Guard) => toughness,
                (Token::Mark { finesse }, Tally::Mark) => finesse,
                (Token::Mire { cadence }, Tally::Mire) => cadence,
                (Token::Sunder { toughness }, Tally::Sunder) => toughness,
                (Token::Defang { might }, Tally::Defang) => might,
                (Token::Thorns { power }, Tally::Thorns) => power,
                _ => 0,
            };
            t = t + v;
            i = i + 1;
        }
        assert(s.skip(s.len() as int) =~= Seq::<Token>::empty());
        t
    }

    /// Is the bearer's `k` tally at most `cap`? (Never overflows, whatever the tokens.)
    pub fn tally_at_most(&self, k: Tally, cap: u32) -> (b: bool)
        ensures
            b == (token_total(self.tokens@, k) <= cap),
    {
        let ghost s = self.tokens@;
        let mut t: u64 = 0;
        let mut i: usize = 0;
        assert(s.skip(0) =~= s);
        while i < self.tokens.len()
            invariant
                i <= s.len(),
                s == self.tokens@,
                t <= cap,
                t + token_total(s.skip(i as int), k) == token_total(s, k),
            decreases s.len() - i,
        {
            proof {
                lemma_token_total_step(s, i as int, k);
            }
            let v: u32 = match (self.tokens[i], k) {
                (Token::Guard { toughness }, Tally::Guard) => toughness,
                (Token::Mark { finesse }, Tally::Mark) => finesse,
                (Token::Mire { cadence }, Tally::Mire) => cadence,
                (Token::Sunder { toughness }, Tally::Sunder) => toughness,
                (Token::Defang { might }, Tally::Defang) => might,
                (Token::Thorns { power }, Tally::Thorns) => power,
                _ => 0,
            };
            t = t + v as u64;
            i = i + 1;
            if t > cap as u64 {
                return false;
            }
        }
        assert(s.skip(s.len() as int) =~= Seq::<Token>::empty());
        true
    }

    /// The **effective Finesse** read in bids/contests: base Finesse minus all **Mark** tokens,
    /// floored at 1.
    pub fn eff_finesse(&self) -> (f: u32)
        requires
            token_total(self.tokens@, Tally::Mark) <= u32::MAX,
        ensures
            f == eff_finesse_of(*self),
    {
        let drop = self.tally(Tally::Mark);
        let v = if self.offense.finesse >= drop {
            self.offense.finesse - drop
        } else {
            0
        };
        if v < 1 {
            1
        } else {
            v
        }
    }

    /// The **effective Cadence** (the Tempo-pool size at refresh): base Cadence minus all **Mire**
    /// tokens, floored at 1 when mired; unchanged with no Mire.
    pub fn eff_cadence(&self) -> (c: u32)
        requires
            token_total(self.tokens@, Tally::Mire) <= u32::MAX,
        ensures
            c == eff_cadence_of(*self),
    {
        let drop = self.tally(Tally::Mire);
        debuff(self.offense.cadence, drop)
    }

    /// The **effective Toughness** read as the per-phase wall: base Toughness minus all **Sunder**
    /// tokens, floored at 1 when sundered; unchanged with no Sunder.
    pub fn eff_toughness(&self) -> (t: u32)
        requires
            token_total(self.tokens@, Tally::Sunder) <= u32::MAX,
        ensures
            t == eff_toughness_of(*self),
    {
        let drop = self.tally(Tally::Sunder);
        debuff(self.defense.health.toughness(), drop)
    }

    /// The **effective Might** of this Actor's strikes: base Might minus all **Defang** tokens,
    /// floored at 1 when defanged; unchanged with no Defang.
    pub fn eff_might(&self) -> (m: u32)
        requires
            token_total(self.tokens@, Tally::Defang) <= u32::MAX,
        ensures
            m == eff_might_of(*self),
    {
        let drop = self.tally(Tally::Defang);
        debuff(self.offense.might, drop)
    }

    /// The total **Guard** token Toughness on this Actor.
    pub fn guard_toughness(&self) -> (t: u32)
        requires
            token_total(self.tokens@, Tally::Guard) <= u32::MAX,
        ensures
            t == token_total(self.tokens@, Tally::Guard),
    {
        self.tally(Tally::Guard)
    }

    /// The total banked **Charge** count on this Actor (as a `u32`).
    pub fn charge_count(&self) -> (n: u32)
        ensures
            n == charge_total(self.tokens@) as u32,
    {
        let ghost s = self.tokens@;
        let mut n: usize = 0;
        let mut i: usize = 0;
        assert(s.skip(0) =~= s);
        while i < self.tokens.len()
            invariant
                i <= s.len(),
                s == self.tokens@,
                n <= i,
                n + charge_total(s.skip(i as int)) == charge_total(s),
            decreases s.len() - i,
        {
            proof {
                lemma_charge_total_step(s, i as int);
            }
            if self.tokens[i] == Token::Charge {
                n = n + 1;
            }
            i = i + 1;
        }
        assert(s.skip(s.len() as int) =~= Seq::<Token>::empty());
        #[verifier::truncate]
        (n as u32)
    }

    /// Consume **all** Charge tokens, returning the count (the next strike's +Might).
    pub fn drain_charges(&mut self) -> (n: u32)
        ensures
            n == charge_total(old(self).tokens@) as u32,
            final(self).tokens@ == strip(old(self).tokens@, false),
            *final(self) == (Actor { tokens: final(self).tokens, ..*old(self) }),
    {
        let n = self.charge_count();
        let kept = keep_tokens(&self.tokens, false);
        self.tokens = kept;
        n
    }

    /// Is a **Smoke** token present?
    pub fn has_smoke(&self) -> (b: bool)
        ensures
            b == self.tokens@.contains(Token::Smoke),
    {
        let mut i: usize = 0;
        while i < self.tokens.len()
            invariant
                i <= self.tokens@.len(),
                forall|j: int| 0 <= j < i ==> self.tokens@[j] != Token::Smoke,
            decreases self.tokens.len() - i,
        {
            if self.tokens[i] == Token::Smoke {
                assert(self.tokens@[i as int] == Token::Smoke);
                return true;
            }
            i = i + 1;
        }
        false
    }

    /// Consume one **Smoke** token (the first); returns `true` if one was present.
    pub fn consume_smoke(&mut self) -> (b: bool)
        ensures
            b == old(self).tokens@.contains(Token::Smoke),
            b ==> final(self).tokens@ == old(self).tokens@.remove(first_smoke(old(self).tokens@)),
            !b ==> final(self).tokens@ == old(self).tokens@,
            final(self).offense == old(self).offense,
            final(self).defense == old(self).defense,
            final(self).tempo == old(self).tempo,
            final(self).name == old(self).name,
    {
        let ghost s = self.tokens@;
        let mut i: usize = 0;
        proof {
            lemma_first_smoke(s);
        }
        while i < self.tokens.len() && self.tokens[i] != Token::Smoke
            invariant
                i <= s.len(),
                s == self.tokens@,
                i <= first_smoke(s),
                0 <= first_smoke(s) <= s.len(),
                forall|j: int| 0 <= j < first_smoke(s) ==> s[j] != Token::Smoke,
                first_smoke(s) < s.len() ==> s[first_smoke(s)] == Token::Smoke,
            decreases s.len() - i,
        {
            i = i + 1;
        }
        if i < self.tokens.len() {
            self.tokens.remove(i);
            true
        } else {
            assert forall|j: int| 0 <= j < s.len() implies s[j] != Token::Smoke by {}
            false
        }
    }

    /// The total **Thorns** reflect power on this Actor.
    pub fn thorns_power(&self) -> (p: u32)
        requires
            token_total(self.tokens@, Tally::Thorns) <= u32::MAX,
        ensures
            p == token_total(self.tokens@, Tally::Thorns),
    {
        self.tally(Tally::Thorns)
    }

    /// Refresh the Tempo pool and clear round-scoped defense + status state. The pool is sized by
    /// **effective Cadence**; the per-round **Guard** tokens are cleared; the sub-card pile wipes.
    pub fn refresh_round(&mut self)
        requires
            tokens_fit(old(self).tokens@),
        ensures
            final(self).tokens@ == strip(old(self).tokens@, true),
            final(self).tempo == eff_cadence_of(*old(self)) as i32,
            !final(self).cannot_fall,
            !final(self).stunned,
            !final(self).shoved,
            !final(self).disarmed,
            !final(self).routed,
            !final(self).free_slip_used,
            final(self).might_bonus == 0,
            final(self).defense.health_pile == 0,
            final(self).defense.health@ == old(self).defense.health@,
            final(self).offense == old(self).offense,
            final(self).fallen == old(self).fallen,
            final(self).name == old(self).name,
            final(self).attack == old(self).attack,
            final(self).aoe == old(self).aoe,
            final(self).weapon == old(self).weapon,
            final(self).actions == old(self).actions,
            tokens_fit(final(self).tokens@),
    {
        let cadence = self.eff_cadence();
        proof {
            lemma_strip_tallies(self.tokens@, true);
        }
        let kept = keep_tokens(&self.tokens, true);
        self.tokens = kept;
        self.tempo = #[verifier::truncate] (cadence as i32);
        self.cannot_fall = false;
        self.stunned = false;
        self.shoved = false;
        self.disarmed = false;
        self.routed = false;
        self.free_slip_used = false;
        self.might_bonus = 0;
        self.defense.end_round();
    }
}

/// A debuffed stat (see [`debuffed`]).
fn debuff(base: u32, drop: u32) -> (v: u32)
    ensures
        v == debuffed(base, drop as nat),
{
    if drop == 0 {
        base
    } else {
        let v = if base >= drop {
            base - drop
        } else {
            0
        };
        if v < 1 {
            1
        } else {
            v
        }
    }
}

/// The tokens kept after dropping Guards (`guards`) or Charges (`!guards`), in order.
fn keep_tokens(tokens: &Vec<Token>, guards: bool) -> (kept: Vec<Token>)
    ensures
        kept@ == strip(tokens@, guards),
{
    let mut kept: Vec<Token> = Vec::new();
    let mut i: usize = 0;
    assert(tokens@.take(0) =~= Seq::<Token>::empty());
    while i < tokens.len()
        invariant
            i <= tokens@.len(),
            kept@ == strip(tokens@.take(i as int), guards),
        decreases tokens.len() - i,
    {
        let t = tokens[i];
        assert(tokens@.take(i + 1).drop_last() =~= tokens@.take(i as int));
        let drop = if guards {
            match t {
                Token::Guard { .. } => true,
                _ => false,
            }
        } else {
            t == Token::Charge
        };
        if !drop {
            kept.push(t);
        }
        i = i + 1;
    }
    assert(tokens@.take(i as int) =~= tokens@);
    kept
}

proof fn lemma_first_smoke(s: Seq<Token>)
    ensures
        0 <= first_smoke(s) <= s.len(),
        forall|j: int| 0 <= j < first_smoke(s) ==> s[j] != Token::Smoke,
        first_smoke(s) < s.len() ==> s[first_smoke(s)] == Token::Smoke,
    decreases s.len(),
{
    if s.len() > 0 {
        lemma_first_smoke(s.drop_first());
        assert forall|j: int| 0 <= j < first_smoke(s) implies s[j] != Token::Smoke by {
            if j > 0 {
                assert(s[j] == s.drop_first()[j - 1]);
            }
        }
    }
}

proof fn lemma_token_total_push(s: Seq<Token>, t: Token, k: Tally)
    ensures
        token_total(s.push(t), k) == token_total(s, k) + token_amount(t, k),
    decreases s.len(),
{
    if s.len() > 0 {
        lemma_token_total_push(s.drop_first(), t, k);
        assert(s.push(t).drop_first() =~= s.drop_first().push(t));
        assert(s.push(t)[0] == s[0]);
    } else {
        assert(s.push(t).drop_first() =~= Seq::<Token>::empty());
        assert(s.push(t)[0] == t);
        assert(token_total(Seq::<Token>::empty(), k) == 0);
    }
}

proof fn lemma_token_total_drop_last(s: Seq<Token>, k: Tally)
    requires
        s.len() > 0,
    ensures
        token_total(s, k) == token_total(s.drop_last(), k) + token_amount(s.last(), k),
{
    lemma_token_total_push(s.drop_last(), s.last(), k);
    assert(s.drop_last().push(s.last()) =~= s);
}

/// Stripping tokens never raises a tally.
pub proof fn lemma_strip_tallies(s: Seq<Token>, guards: bool)
    ensures
        forall|k: Tally| #[trigger] token_total(strip(s, guards), k) <= token_total(s, k),
        forall|k: Tally| k != Tally::Guard ==> #[trigger] token_total(strip(s, guards), k) == token_total(s, k),
        tokens_fit(s) ==> tokens_fit(strip(s, guards)),
        guards ==> token_total(strip(s, guards), Tally::Guard) == 0,
    decreases s.len(),
{
    if s.len() > 0 {
        lemma_strip_tallies(s.drop_last(), guards);
        let rest = strip(s.drop_last(), guards);
        assert forall|k: Tally| #[trigger] token_total(strip(s, guards), k) <= token_total(s, k) && (k
            != Tally::Guard ==> token_total(strip(s, guards), k) == token_total(s, k)) && (guards && k
            == Tally::Guard ==> token_total(strip(s, guards), k) == 0) by {
            lemma_token_total_drop_last(s, k);
            lemma_token_total_push(rest, s.last(), k);
        }
    }
}

/// **Debuffs never lock**: however many Mark / Mire / Sunder / Defang tokens a foe carries, a
/// debuffed stat stays at least 1 — so a Marked+Mired foe keeps Finesse ≥ 1 and Cadence ≥ 1 (Tempo
/// ≥ 1), and no debuff stack is a second kill-condition. With no debuff present the base passes
/// through unchanged.
pub proof fn law_debuffs_never_lock(a: Actor)
    ensures
        eff_finesse_of(a) >= 1,
        token_total(a.tokens@, Tally::Mire) > 0 ==> eff_cadence_of(a) >= 1,
        token_total(a.tokens@, Tally::Sunder) > 0 ==> eff_toughness_of(a) >= 1,
        token_total(a.tokens@, Tally::Defang) > 0 ==> eff_might_of(a) >= 1,
        token_total(a.tokens@, Tally::Mire) == 0 ==> eff_cadence_of(a) == a.offense.cadence,
        token_total(a.tokens@, Tally::Defang) == 0 ==> eff_might_of(a) == a.offense.might,
        eff_cadence_of(a) <= a.offense.cadence || eff_cadence_of(a) == 1,
        eff_might_of(a) <= a.offense.might || eff_might_of(a) == 1,
{
}

} // verus!
