//! **Ruleset** — pre-game tuning parameters.
//!
//! Some of the game's bounds are not fixed laws but **settings chosen before a game starts**, exactly
//! like the seed and the optional Clash module. The two that matter for *analysis* bound the combat
//! game tree so that optimal single-combat play is **finite and exactly searchable**:
//!
//! - a **round cap** (reaching it ends the fight as a draw — for PvE, equivalent to a loss), and
//! - a **roster cap** (max distinct unit *types* per side; a swarm counts as one).
//!
//! Live play uses [`Ruleset::default`] (effectively unbounded); analysis tooling uses
//! [`Ruleset::analysis`], a short horizon and small roster.

use vstd::prelude::*;
use crate::rules::{Rule, all_rules, all_rules_spec, rule_index};

verus! {

/// Tunable, pre-game combat parameters. Set once before a battle; never mutated mid-combat.
#[derive(Clone, Copy, Debug, PartialEq, Eq, Structural)]
pub struct Ruleset {
    /// Which combat [`Rule`]s are **enabled** this game (a bitset). A disabled phase is skipped and a
    /// disabled behavior is not consulted; the default is **all on**.
    pub rules: u16,
    /// Hard cap on combat **rounds**. Reaching it ends the fight as a **draw**.
    pub max_rounds: u32,
    /// Cap on the number of distinct unit **types** per side (a swarm counts as **one**). Advisory —
    /// consumed by the analysis setup, not enforced during live play.
    pub max_unique_per_side: u32,
}

/// `after` is `before` with the bits of the rules in `off` cleared and every other bit kept.
pub open spec fn cleared(before: u16, after: u16, off: Seq<Rule>) -> bool {
    forall|x: Rule| bit_set(after, rule_index(x)) == (bit_set(before, rule_index(x)) && !off.contains(x))
}

/// Bit `i` of a mask is set.
pub open spec fn bit_set(mask: u16, i: nat) -> bool {
    (mask as nat / vstd::arithmetic::power2::pow2(i)) % 2 == 1
}

impl Default for Ruleset {
    /// Live play: effectively unbounded — the historical termination backstop of 100 rounds, no roster
    /// cap, every rule on.
    fn default() -> (r: Self)
        ensures
            r == (Ruleset { max_rounds: 100, max_unique_per_side: u32::MAX, rules: u16::MAX }),
    {
        Ruleset { max_rounds: 100, max_unique_per_side: u32::MAX, rules: u16::MAX }
    }
}

impl Ruleset {
    /// The **analysis envelope**: a five-round horizon and a five-type roster, every rule on.
    pub fn analysis() -> (r: Self)
        ensures
            r == (Ruleset { max_rounds: 5, max_unique_per_side: 5, rules: u16::MAX }),
    {
        Ruleset { max_rounds: 5, max_unique_per_side: 5, rules: u16::MAX }
    }

    /// Is [`Rule`] `r` enabled this game — is its bit set in the mask?
    pub fn allows(&self, r: Rule) -> (b: bool)
        ensures
            b == bit_set(self.rules, rule_index(r)),
    {
        let m = r.bit();
        let i: u16 = r.index();
        proof {
            lemma_bit_test(self.rules, i);
        }
        self.rules & m != 0
    }

    /// This ruleset with the `off` rules **disabled** (every other bit and field unchanged).
    pub fn without(self, off: &[Rule]) -> (r: Self)
        ensures
            r.max_rounds == self.max_rounds,
            r.max_unique_per_side == self.max_unique_per_side,
            cleared(self.rules, r.rules, off@),
    {
        let mut out = self;
        let mut k: usize = 0;
        while k < off.len()
            invariant
                k <= off@.len(),
                out.max_rounds == self.max_rounds,
                out.max_unique_per_side == self.max_unique_per_side,
                cleared(self.rules, out.rules, off@.take(k as int)),
            decreases off.len() - k,
        {
            let r = off[k];
            let m = r.bit();
            let i: u16 = r.index();
            let before = out.rules;
            out.rules = out.rules & !m;
            proof {
                assert forall|x: Rule|
                    bit_set(out.rules, rule_index(x)) == (bit_set(self.rules, rule_index(x)) && !off@.take(
                        k + 1,
                    ).contains(x)) by {
                    lemma_bit_clear(before, i, rule_index(x) as u16);
                    if rule_index(x) == i as nat {
                        crate::rules::lemma_rule_index_injective(x, r);
                        assert(off@.take(k + 1)[k as int] == r);
                    } else {
                        crate::rules::lemma_rule_index_injective(x, r);
                        if off@.take(k + 1).contains(x) {
                            let q = choose|q: int| 0 <= q < k + 1 && #[trigger] off@.take(k + 1)[q] == x;
                            assert(off@.take(k as int)[q] == x);
                        }
                        if off@.take(k as int).contains(x) {
                            let q = choose|q: int| 0 <= q < k && #[trigger] off@.take(k as int)[q] == x;
                            assert(off@.take(k + 1)[q] == x);
                        }
                    }
                }
            }
            k = k + 1;
        }
        assert(off@.take(k as int) =~= off@);
        out
    }

    /// The enabled rules, in registry order.
    pub fn enabled_rules(&self) -> (v: Vec<Rule>)
        ensures
            v@ == all_rules_spec().filter(|x: Rule| bit_set(self.rules, rule_index(x))),
    {
        let all = all_rules();
        let mut v: Vec<Rule> = Vec::new();
        let mut k: usize = 0;
        while k < 15
            invariant
                k <= 15,
                all@ == all_rules_spec(),
                v@ == all_rules_spec().take(k as int).filter(|x: Rule| bit_set(self.rules, rule_index(x))),
            decreases 15 - k,
        {
            let r = all[k];
            proof {
                assert(all_rules_spec().take(k + 1).drop_last() =~= all_rules_spec().take(k as int));
                reveal(Seq::filter);
                assert(all_rules_spec().take(k + 1).last() == r);
            }
            if self.allows(r) {
                v.push(r);
            }
            k = k + 1;
        }
        assert(all_rules_spec().take(15) =~= all_rules_spec());
        v
    }

    /// Is a side's distinct-type count within the roster envelope?
    pub fn roster_within(&self, unique_types: u32) -> (b: bool)
        ensures
            b == (unique_types <= self.max_unique_per_side),
    {
        unique_types <= self.max_unique_per_side
    }
}

/// `mask & (1 << i)` is nonzero exactly when bit `i` is set.
proof fn lemma_bit_test(mask: u16, i: u16)
    requires
        i < 16,
    ensures
        (mask & (1u16 << i) != 0) == bit_set(mask, i as nat),
{
    vstd::arithmetic::power2::lemma2_to64();
    vstd::bits::lemma_u16_shl_is_mul(1u16, i);
    assert((mask & (1u16 << i) != 0) == ((mask >> i) & 1u16 == 1u16)) by (bit_vector)
        requires
            i < 16,
    ;
    vstd::bits::lemma_u16_shr_is_div(mask, i);
    assert(((mask >> i) & 1u16 == 1u16) == ((mask >> i) % 2 == 1)) by (bit_vector);
}

/// Clearing bit `i` leaves every other bit and unsets bit `i`.
proof fn lemma_bit_clear(mask: u16, i: u16, j: u16)
    requires
        i < 16,
        j < 16,
    ensures
        bit_set(mask & !(1u16 << i), j as nat) == (bit_set(mask, j as nat) && j != i),
{
    lemma_bit_test(mask & !(1u16 << i), j);
    lemma_bit_test(mask, j);
    assert(((mask & !(1u16 << i)) & (1u16 << j) != 0) == ((mask & (1u16 << j) != 0) && j != i)) by (bit_vector)
        requires
            i < 16,
            j < 16,
    ;
}

} // verus!
