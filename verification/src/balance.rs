//! Balance tooling: enumerating party compositions and labelling them, and the ruleset the balance
//! matrices run under.

use vstd::prelude::*;
use vstd::string::*;
use crate::rules::{Rule, rule_ident};
use crate::ruleset::{Ruleset, cleared};
use crate::engagement::Stat5;
use crate::combinatorics::{comps, comps_from, law_compositions_are_exactly_the_compositions, prefixed};
use crate::groups::total;
use crate::text::{decimal, push_num};

verus! {

/// Every composition of `n` units over `k` role bins (counts summing to `n`) — the general multiset
/// enumerator behind [`compositions`] (which is the `k = 3` case).
pub fn compositions_k(n: u32, k: usize) -> (out: Vec<Vec<u32>>)
    ensures
        out.deep_view() == comps(n as nat, k as nat),
{
    crate::combinatorics::compositions_k(n, k)
}

/// The three-bin compositions of `n` whose first count is at least `f`: for each first count, the
/// second ascending, the third taking the rest.
pub open spec fn triples_from(n: nat, f: nat) -> Seq<[u32; 3]>
    decreases n + 1 - f,
{
    if f > n {
        Seq::empty()
    } else {
        Seq::new((n - f + 1) as nat, |a: int| [f as u32, a as u32, (n - f - a) as u32]) + triples_from(n, f + 1)
    }
}

/// Every party composition of `n` units over the three classes — counts `[fighters, assassins,
/// mages]` summing to `n`.
pub fn compositions(n: u32) -> (v: Vec<[u32; 3]>)
    ensures
        v@ == triples_from(n as nat, 0),
{
    let mut v: Vec<[u32; 3]> = Vec::new();
    let mut f: u32 = 0;
    loop
        invariant
            f <= n,
            v@ + triples_from(n as nat, f as nat) == triples_from(n as nat, 0),
        decreases n - f,
    {
        let ghost v0 = v@;
        let ghost row = Seq::new((n - f + 1) as nat, |a: int| [f as u32, a as u32, (n - f - a) as u32]);
        let mut a: u32 = 0;
        loop
            invariant_except_break
                v@ == v0 + row.take(a as int),
            invariant
                f <= n,
                a <= n - f,
                row == Seq::new((n - f + 1) as nat, |x: int| [f as u32, x as u32, (n - f - x) as u32]),
            ensures
                v@ == v0 + row,
            decreases n - f - a,
        {
            v.push([f, a, n - f - a]);
            proof {
                assert(row.take(a + 1) =~= row.take(a as int).push(row[a as int]));
            }
            if a == n - f {
                proof {
                    assert(row.take(a + 1) =~= row);
                }
                break;
            }
            a = a + 1;
        }
        proof {
            assert(v@ + triples_from(n as nat, (f + 1) as nat) =~= v0 + (row + triples_from(
                n as nat,
                (f + 1) as nat,
            )));
        }
        if f == n {
            proof {
                assert(triples_from(n as nat, (f + 1) as nat) =~= Seq::<[u32; 3]>::empty());
                assert(v@ =~= triples_from(n as nat, 0));
            }
            return v;
        }
        f = f + 1;
    }
}

/// One `count`+`tag` entry of a label, empty for a zero count.
pub open spec fn label_part(count: u32, tag: Seq<char>) -> Seq<char> {
    if count > 0 {
        decimal(count as nat) + tag
    } else {
        Seq::empty()
    }
}

/// A short composition label, e.g. `2F1A` (zero counts omitted; `-` when all are zero).
pub open spec fn comp_label_of(c: [u32; 3]) -> Seq<char> {
    let s = label_part(c[0], "F"@) + label_part(c[1], "A"@) + label_part(c[2], "M"@);
    if s.len() == 0 {
        "-"@
    } else {
        s
    }
}

fn push_part(out: &mut String, count: u32, tag: &str)
    ensures
        final(out)@ == old(out)@ + label_part(count, tag@),
{
    if count > 0 {
        push_num(out, count as u64);
        out.append(tag);
    } else {
        assert(out@ =~= old(out)@ + label_part(count, tag@));
    }
}

/// A short composition label, e.g. `2F1A` (zero counts omitted).
pub fn comp_label(c: &[u32; 3]) -> (s: String)
    ensures
        s@ == comp_label_of(*c),
{
    let mut s = String::new();
    push_part(&mut s, c[0], "F");
    push_part(&mut s, c[1], "A");
    push_part(&mut s, c[2], "M");
    proof {
        assert(s@ =~= label_part(c[0], "F"@) + label_part(c[1], "A"@) + label_part(c[2], "M"@));
    }
    if s.unicode_len() == 0 {
        String::from_str("-")
    } else {
        s
    }
}

/// The subset ruleset: the analysis envelope with grouping and area-of-effect disabled.
pub fn sim_subset() -> (r: Ruleset)
    ensures
        r.max_rounds == 5,
        r.max_unique_per_side == 5,
        cleared(u16::MAX, r.rules, seq![Rule::Grouping, Rule::AreaOfEffect]),
{
    let off = [Rule::Grouping, Rule::AreaOfEffect];
    proof {
        assert(off@ =~= seq![Rule::Grouping, Rule::AreaOfEffect]);
    }
    Ruleset::analysis().without(&off)
}


/// Every three-bin composition of `n` has three counts summing to `n`.
pub proof fn lemma_comps3(n: u32)
    ensures
        forall|i: int|
            0 <= i < comps(n as nat, 3).len() ==> (#[trigger] comps(n as nat, 3)[i]).len() == 3 && comps(n as nat, 3)[i][0]
                + comps(n as nat, 3)[i][1] + comps(n as nat, 3)[i][2] == n,
{
    assert forall|i: int| 0 <= i < comps(n as nat, 3).len() implies (#[trigger] comps(n as nat, 3)[i]).len() == 3
        && comps(n as nat, 3)[i][0] + comps(n as nat, 3)[i][1] + comps(n as nat, 3)[i][2] == n by {
        let c = comps(n as nat, 3)[i];
        assert(comps(n as nat, 3).contains(c));
        law_compositions_are_exactly_the_compositions(n, 3, c);
        assert(c.drop_first().drop_first().drop_first() =~= Seq::<u32>::empty());
        assert(total(c) == c[0] + total(c.drop_first()));
        assert(total(c.drop_first()) == c[1] + total(c.drop_first().drop_first()));
        assert(total(c.drop_first().drop_first()) == c[2] + total(c.drop_first().drop_first().drop_first()));
    }
}

proof fn lemma_pairs(m: nat, a: nat)
    requires
        a <= m + 1,
        m <= u32::MAX,
    ensures
        comps_from(m, 2, a).len() == m + 1 - a,
        forall|j: int|
            0 <= j < comps_from(m, 2, a).len() ==> #[trigger] comps_from(m, 2, a)[j] == seq![(a + j) as u32, (m - a - j) as u32],
    decreases m + 1 - a,
{
    if a <= m {
        lemma_pairs(m, a + 1);
        let head = prefixed(a as u32, comps((m - a) as nat, 1));
        let tl = comps_from(m, 2, a + 1);
        assert(comps((m - a) as nat, 1) == seq![seq![(m - a) as u32]]);
        assert(head.len() == 1);
        assert(head[0] =~= seq![a as u32, (m - a) as u32]);
        assert(comps_from(m, 2, a) == head + tl);
        assert forall|j: int| 0 <= j < comps_from(m, 2, a).len() implies #[trigger] comps_from(m, 2, a)[j] == seq![
            (a + j) as u32,
            (m - a - j) as u32,
        ] by {
            if j > 0 {
                assert(comps_from(m, 2, a)[j] == tl[j - 1]);
            } else {
                assert(comps_from(m, 2, a)[0] == head[0]);
            }
        }
    }
}

proof fn lemma_triples_match(n: nat, f: nat)
    requires
        f <= n + 1,
        n <= u32::MAX,
    ensures
        triples_from(n, f).len() == comps_from(n, 3, f).len(),
        2 * triples_from(n, f).len() == (n + 1 - f) * (n + 2 - f),
        forall|i: int|
            0 <= i < triples_from(n, f).len() ==> {
                let c = #[trigger] comps_from(n, 3, f)[i];
                let t = triples_from(n, f)[i];
                c.len() == 3 && t[0] == c[0] && t[1] == c[1] && t[2] == c[2]
            },
    decreases n + 1 - f,
{
    if f <= n {
        lemma_triples_match(n, f + 1);
        lemma_pairs((n - f) as nat, 0);
        let row = Seq::new((n - f + 1) as nat, |a: int| [f as u32, a as u32, (n - f - a) as u32]);
        let sub = comps((n - f) as nat, 2);
        assert(sub == comps_from((n - f) as nat, 2, 0));
        let head = prefixed(f as u32, sub);
        let tl = comps_from(n, 3, f + 1);
        let ttl = triples_from(n, f + 1);
        assert(comps_from(n, 3, f) == head + tl);
        assert(triples_from(n, f) == row + ttl);
        assert(2 * (n + 1 - f) + (n + 1 - (f + 1)) * (n + 2 - (f + 1)) == (n + 1 - f) * (n + 2 - f)) by (nonlinear_arith)
            requires
                f <= n,
        ;
        assert forall|i: int| 0 <= i < triples_from(n, f).len() implies {
            let c = #[trigger] comps_from(n, 3, f)[i];
            let t = triples_from(n, f)[i];
            c.len() == 3 && t[0] == c[0] && t[1] == c[1] && t[2] == c[2]
        } by {
            if i < row.len() {
                let c = comps_from(n, 3, f)[i];
                assert(c == head[i]);
                assert(sub[i] == seq![i as u32, (n - f - i) as u32]);
                assert(c == seq![f as u32] + sub[i]);
                assert(triples_from(n, f)[i] == row[i]);
            } else {
                assert(comps_from(n, 3, f)[i] == tl[i - row.len()]);
                assert(triples_from(n, f)[i] == ttl[i - row.len()]);
            }
        }
    }
}

/// **The party compositions are the three-part compositions, in order**: the `i`-th party count
/// triple is the `i`-th composition of `n` into three parts, and there are (n + 1)(n + 2) / 2 of them.
pub proof fn law_party_compositions_in_order(n: u32)
    ensures
        triples_from(n as nat, 0).len() == comps(n as nat, 3).len(),
        2 * triples_from(n as nat, 0).len() == (n + 1) * (n + 2),
        forall|i: int|
            0 <= i < triples_from(n as nat, 0).len() ==> {
                let c = #[trigger] comps(n as nat, 3)[i];
                let t = triples_from(n as nat, 0)[i];
                c.len() == 3 && t[0] == c[0] && t[1] == c[1] && t[2] == c[2]
            },
{
    lemma_triples_match(n as nat, 0);
    assert(comps(n as nat, 3) == comps_from(n as nat, 3, 0));
}

/// One role in a [`Level`]: a canonical class name (`Fighter` / `Assassin` / `Mage`) with its five
/// stats `(Might, Vitality, Toughness, Cadence, Finesse)` overridden.
#[derive(Debug)]
pub struct RoleSpec {
    pub class: String,
    pub stats: Stat5,
}

/// A balance **level**: the roster, the rules switched off, the party sizes to sweep, and the solver
/// budget.
#[derive(Debug)]
pub struct Level {
    /// A label for the report header.
    pub name: String,
    /// Rules to **disable** for this level, by variant identifier (e.g. `"Grouping"`).
    pub rules_off: Vec<String>,
    pub roles: Vec<RoleSpec>,
    /// Party sizes to sweep (equal player vs enemy count).
    pub sizes: Vec<u32>,
    /// Per-matchup solver node budget.
    pub budget: u64,
}

/// Every name in `names` is some rule's variant identifier.
pub open spec fn all_known(names: Seq<String>) -> bool {
    forall|i: int| 0 <= i < names.len() ==> exists|r: Rule| rule_ident(r) == (#[trigger] names[i])@
}

impl Level {
    /// The [`Ruleset`] this level runs under: the analysis envelope (a five-round horizon, a five-type
    /// roster) with the `rules_off` rules disabled. Every name must be a rule's identifier (an unknown
    /// one is a typo in the level's data).
    pub fn ruleset(&self) -> (r: Ruleset)
        requires
            all_known(self.rules_off@),
        ensures
            r.max_rounds == 5,
            r.max_unique_per_side == 5,
            exists|off: Seq<Rule>|
                {
                    &&& off.len() == self.rules_off@.len()
                    &&& forall|i: int| 0 <= i < off.len() ==> rule_ident(#[trigger] off[i]) == self.rules_off@[i]@
                    &&& cleared(u16::MAX, r.rules, off)
                },
    {
        let mut off: Vec<Rule> = Vec::new();
        let mut i: usize = 0;
        while i < self.rules_off.len()
            invariant
                i <= self.rules_off@.len(),
                all_known(self.rules_off@),
                off@.len() == i,
                forall|j: int| 0 <= j < i ==> rule_ident(#[trigger] off@[j]) == self.rules_off@[j]@,
            decreases self.rules_off.len() - i,
        {
            let name = &self.rules_off[i];
            match Rule::from_ident(name.as_str()) {
                Some(x) => {
                    off.push(x);
                },
                None => {
                    proof {
                        assert(exists|r: Rule| #[trigger] rule_ident(r) == self.rules_off@[i as int]@);
                    }
                    assert(false);
                },
            }
            i = i + 1;
        }
        Ruleset::analysis().without(off.as_slice())
    }
}

/// A balance property the content fails to satisfy against the resolver.
#[derive(Clone, Debug)]
pub struct Violation {
    /// What was being checked.
    pub property: String,
    /// The expected vs actual outcome.
    pub detail: String,
}

/// The word for a resolved duel cell: a win, a loss or draw, or a battle that never resolved.
pub open spec fn got_word(got: Option<bool>) -> Seq<char> {
    match got {
        Some(true) => "win"@,
        Some(false) => "loss/draw"@,
        None => "non-resolving"@,
    }
}

/// The detail of a diagonal violation.
pub open spec fn diagonal_detail(want_win: bool, got: Option<bool>) -> Seq<char> {
    "expected "@ + (if want_win { "WIN"@ } else { "loss/draw"@ }) + " ("@ + (if want_win {
        "its key"@
    } else {
        "off-diagonal"@
    }) + "), got "@ + got_word(got)
}

/// The violations of the cells of row `i` (kit `i`) before column `j`.
pub open spec fn row_violations(
    kits: Seq<Seq<char>>,
    foes: Seq<Seq<char>>,
    got: Seq<Seq<Option<bool>>>,
    i: int,
    j: int,
) -> Seq<(Seq<char>, Seq<char>)>
    decreases j,
{
    if j <= 0 {
        seq![]
    } else {
        let prev = row_violations(kits, foes, got, i, j - 1);
        let g = got[i][j - 1];
        let want = i == j - 1;
        if (g == Some(true)) != want {
            prev.push((kits[i] + " vs "@ + foes[j - 1], diagonal_detail(want, g)))
        } else {
            prev
        }
    }
}

/// The violations of the first `i` rows, row by row.
pub open spec fn diagonal_violations(
    kits: Seq<Seq<char>>,
    foes: Seq<Seq<char>>,
    got: Seq<Seq<Option<bool>>>,
    i: int,
) -> Seq<(Seq<char>, Seq<char>)>
    decreases i,
{
    if i <= 0 {
        seq![]
    } else {
        diagonal_violations(kits, foes, got, i - 1) + row_violations(kits, foes, got, i - 1, foes.len() as int)
    }
}

/// The (property, detail) texts of a list of violations.
pub open spec fn violation_texts(v: Seq<Violation>) -> Seq<(Seq<char>, Seq<char>)> {
    v.map_values(|x: Violation| (x.property@, x.detail@))
}

fn got_text(got: Option<bool>) -> (s: &'static str)
    ensures
        s@ == got_word(got),
{
    match got {
        Some(true) => "win",
        Some(false) => "loss/draw",
        None => "non-resolving",
    }
}

/// **Check a locks diagonal**: kit `i` must WIN against creature `j` iff `i == j` (a draw counts as
/// not-a-win), given each cell's resolved verdict `got[i][j]` (`Some(true)` a win, `Some(false)` a
/// loss or draw, `None` a battle that never resolved). Returns one violation per broken cell, row by
/// row; none means a clean diagonal.
pub fn check_diagonal(kits: &Vec<String>, foes: &Vec<String>, got: &Vec<Vec<Option<bool>>>) -> (v: Vec<Violation>)
    requires
        got@.len() == kits@.len(),
        forall|i: int| 0 <= i < got@.len() ==> (#[trigger] got@[i])@.len() == foes@.len(),
    ensures
        violation_texts(v@) == diagonal_violations(
            kits@.map_values(|x: String| x@),
            foes@.map_values(|x: String| x@),
            got@.map_values(|r: Vec<Option<bool>>| r@),
            kits@.len() as int,
        ),
{
    let ghost ks = kits@.map_values(|x: String| x@);
    let ghost fs = foes@.map_values(|x: String| x@);
    let ghost gs = got@.map_values(|r: Vec<Option<bool>>| r@);
    let mut v: Vec<Violation> = Vec::new();
    let mut i: usize = 0;
    while i < kits.len()
        invariant
            i <= kits@.len(),
            got@.len() == kits@.len(),
            forall|q: int| 0 <= q < got@.len() ==> (#[trigger] got@[q])@.len() == foes@.len(),
            ks == kits@.map_values(|x: String| x@),
            fs == foes@.map_values(|x: String| x@),
            gs == got@.map_values(|r: Vec<Option<bool>>| r@),
            violation_texts(v@) == diagonal_violations(ks, fs, gs, i as int),
        decreases kits.len() - i,
    {
        let ghost before = violation_texts(v@);
        let mut j: usize = 0;
        while j < foes.len()
            invariant
                i < kits@.len(),
                j <= foes@.len(),
                got@.len() == kits@.len(),
                got@[i as int]@.len() == foes@.len(),
                ks == kits@.map_values(|x: String| x@),
                fs == foes@.map_values(|x: String| x@),
                gs == got@.map_values(|r: Vec<Option<bool>>| r@),
                violation_texts(v@) == before + row_violations(ks, fs, gs, i as int, j as int),
            decreases foes.len() - j,
        {
            let g = got[i][j];
            let want = i == j;
            let ghost prev = v@;
            if (g == Some(true)) != want {
                let mut property = kits[i].clone();
                property.append(" vs ");
                property.append(foes[j].as_str());
                let mut detail = String::from_str("expected ");
                if want {
                    detail.append("WIN");
                } else {
                    detail.append("loss/draw");
                }
                detail.append(" (");
                if want {
                    detail.append("its key");
                } else {
                    detail.append("off-diagonal");
                }
                detail.append("), got ");
                detail.append(got_text(g));
                v.push(Violation { property, detail });
                proof {
                    assert(gs[i as int][j as int] == g);
                    assert(violation_texts(v@) =~= violation_texts(prev).push(
                        (ks[i as int] + " vs "@ + fs[j as int], diagonal_detail(want, g)),
                    ));
                }
            } else {
                proof {
                    assert(gs[i as int][j as int] == g);
                }
            }
            j = j + 1;
        }
        i = i + 1;
    }
    v
}

} // verus!
