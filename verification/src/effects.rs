//! The card **effects** a played card applies to the two pools (foes and allies): who each effect
//! touches, what it does to each body it touches, and the per-body budget that keeps every number
//! in range while a whole card resolves.
//!
//! Target selection:
//! - **the first `n` living** bodies of a pool, front to back ([`first_n`] of [`living_idx`]);
//! - **the most wounded**: the living bodies stably ordered by remaining health ([`wounded`]);
//! - **wardable** allies: living, not the caster, with no melee attack ([`ward_idx`]);
//! - a single-target hit may be **redirected by Cover** to the first living Wall covering its
//!   target ([`cover_of`]).

use vstd::prelude::*;
use vstd::string::*;
use crate::actor::{Actor, Attack, Tally, Token, actor_down, token_total, tokens_fit};
use crate::cards::Effect;
use crate::combat::{apply_strike, hit_line, lemma_logged_refl, lemma_logged_trans, living, living_idx, logged, rem_of, strikable, struck};
use crate::duel::Strike;
use crate::text::decimal;
use crate::stats::{HealthCard, count_down, flip_down_spec, flip_times, turn_up_spec, turn_up_times};

verus! {

// ---------------------------------------------------------------------------------------------
// Index selections.
// ---------------------------------------------------------------------------------------------

/// The indices `i` of `s` (ascending) whose body satisfies `f(i, s[i])`.
pub open spec fn idx_where(s: Seq<Actor>, f: spec_fn(int, Actor) -> bool) -> Seq<usize>
    decreases s.len(),
{
    if s.len() == 0 {
        seq![]
    } else {
        let rest = idx_where(s.drop_last(), f);
        if f(s.len() - 1, s.last()) {
            rest.push((s.len() - 1) as usize)
        } else {
            rest
        }
    }
}

/// The first `n` entries of `s` (all of `s` when it is shorter).
pub open spec fn first_n(s: Seq<usize>, n: nat) -> Seq<usize> {
    if n <= s.len() {
        s.take(n as int)
    } else {
        s
    }
}

/// A target list for a pool of `len` bodies: in range, and no body twice.
pub open spec fn targets_ok(ts: Seq<usize>, len: nat) -> bool {
    &&& forall|k: int| 0 <= k < ts.len() ==> ts[k] < len
    &&& forall|k: int, m: int| 0 <= k < m < ts.len() ==> ts[k] != ts[m]
}

/// Strictly ascending and below `len`.
pub open spec fn ascending_below(ts: Seq<usize>, len: nat) -> bool {
    &&& forall|k: int| 0 <= k < ts.len() ==> ts[k] < len
    &&& forall|k: int, m: int| 0 <= k < m < ts.len() ==> ts[k] < ts[m]
}

/// The selection is exactly the indices satisfying the predicate, ascending.
pub proof fn lemma_idx_where(s: Seq<Actor>, f: spec_fn(int, Actor) -> bool)
    requires
        s.len() <= usize::MAX,
    ensures
        ascending_below(idx_where(s, f), s.len()),
        forall|i: int| 0 <= i < s.len() ==> (idx_where(s, f).contains(i as usize) <==> f(i, s[i])),
    decreases s.len(),
{
    if s.len() > 0 {
        let rest = idx_where(s.drop_last(), f);
        lemma_idx_where(s.drop_last(), f);
        let r = idx_where(s, f);
        assert forall|i: int| 0 <= i < s.len() implies (r.contains(i as usize) <==> f(i, s[i])) by {
            if i < s.len() - 1 {
                assert(s.drop_last()[i] == s[i]);
                if f(s.len() - 1, s.last()) {
                    if r.contains(i as usize) {
                        let k = choose|k: int| 0 <= k < r.len() && r[k] == i as usize;
                        if k < rest.len() {
                            assert(rest[k] == i as usize);
                        }
                    }
                    if rest.contains(i as usize) {
                        let k = choose|k: int| 0 <= k < rest.len() && rest[k] == i as usize;
                        assert(r[k] == i as usize);
                    }
                }
            } else {
                if f(s.len() - 1, s.last()) {
                    assert(r[r.len() - 1] == i as usize);
                } else if r.contains(i as usize) {
                    let k = choose|k: int| 0 <= k < r.len() && r[k] == i as usize;
                    assert(rest[k] < s.len() - 1);
                }
            }
        }
    }
}

/// The living selection is the selection of bodies not down.
pub open spec fn is_living() -> spec_fn(int, Actor) -> bool {
    |i: int, a: Actor| !actor_down(a)
}

pub proof fn lemma_living_is_where(s: Seq<Actor>)
    requires
        s.len() <= usize::MAX,
    ensures
        living_idx(s) == idx_where(s, is_living()),
    decreases s.len(),
{
    if s.len() > 0 {
        lemma_living_is_where(s.drop_last());
    }
}

/// A prefix of an ascending selection is a valid target list.
pub proof fn lemma_first_n_ok(s: Seq<usize>, n: nat, len: nat)
    requires
        ascending_below(s, len),
    ensures
        targets_ok(first_n(s, n), len),
        ascending_below(first_n(s, n), len),
        first_n(s, n).len() == vstd::math::min(n as int, s.len() as int),
        forall|k: int| 0 <= k < first_n(s, n).len() ==> first_n(s, n)[k] == s[k],
{
}

/// Wardable: living, not the caster, and with no melee attack of its own.
pub open spec fn wardable(self_idx: Option<usize>) -> spec_fn(int, Actor) -> bool {
    |i: int, a: Actor|
        !actor_down(a) && self_idx != Some(i as usize) && (a.attack == Attack::Ranged || a.attack
            == Attack::Neither)
}

/// The living bodies other than `me`.
pub open spec fn others(me: usize) -> spec_fn(int, Actor) -> bool {
    |i: int, a: Actor| !actor_down(a) && i != me as int
}

pub open spec fn ward_idx(s: Seq<Actor>, self_idx: Option<usize>) -> Seq<usize> {
    idx_where(s, wardable(self_idx))
}

// ---------------------------------------------------------------------------------------------
// The most-wounded order: a stable sort by remaining health.
// ---------------------------------------------------------------------------------------------

/// Insert `x` into `s` after every entry whose body has no more remaining health than `x`'s — the
/// step of a stable insertion sort by remaining health.
pub open spec fn ins(p: Seq<Actor>, s: Seq<usize>, x: usize) -> Seq<usize>
    decreases s.len(),
{
    if s.len() == 0 {
        seq![x]
    } else if rem_of(p[s.last() as int]) <= rem_of(p[x as int]) {
        s.push(x)
    } else {
        ins(p, s.drop_last(), x).push(s.last())
    }
}

/// `idxs` stably ordered by the remaining health of their bodies in `p` (fewest first; ties keep
/// their order).
pub open spec fn wounded(p: Seq<Actor>, idxs: Seq<usize>) -> Seq<usize>
    decreases idxs.len(),
{
    if idxs.len() == 0 {
        seq![]
    } else {
        ins(p, wounded(p, idxs.drop_last()), idxs.last())
    }
}

#[verifier::spinoff_prover]
pub proof fn lemma_ins(p: Seq<Actor>, s: Seq<usize>, x: usize)
    ensures
        ins(p, s, x).len() == s.len() + 1,
        ins(p, s, x).contains(x),
        forall|y: usize| ins(p, s, x).contains(y) <==> (s.contains(y) || y == x),
        (forall|k: int, m: int| 0 <= k < m < s.len() ==> s[k] != s[m]) && !s.contains(x) ==> (forall|
            k: int,
            m: int,
        | 0 <= k < m < ins(p, s, x).len() ==> ins(p, s, x)[k] != ins(p, s, x)[m]),
    decreases s.len(),
{
    if s.len() == 0 {
        assert(ins(p, s, x)[0] == x);
    } else {
        let r = ins(p, s, x);
        if rem_of(p[s.last() as int]) <= rem_of(p[x as int]) {
            assert(r[s.len() as int] == x);
            assert forall|y: usize| r.contains(y) <==> (s.contains(y) || y == x) by {
                if r.contains(y) {
                    let k = choose|k: int| 0 <= k < r.len() && r[k] == y;
                    if k < s.len() {
                        assert(s[k] == y);
                    }
                }
                if s.contains(y) {
                    let k = choose|k: int| 0 <= k < s.len() && s[k] == y;
                    assert(r[k] == y);
                }
                if y == x {
                    assert(r[s.len() as int] == y);
                }
            }
        } else {
            let s2 = s.drop_last();
            lemma_ins(p, s2, x);
            let r2 = ins(p, s2, x);
            assert forall|y: usize| r.contains(y) <==> (s.contains(y) || y == x) by {
                if r.contains(y) {
                    let k = choose|k: int| 0 <= k < r.len() && r[k] == y;
                    if k < r2.len() {
                        assert(r2[k] == y);
                        assert(r2.contains(y));
                        if s2.contains(y) {
                            let j = choose|j: int| 0 <= j < s2.len() && s2[j] == y;
                            assert(s[j] == y);
                        }
                    } else {
                        assert(s[s.len() - 1] == y);
                    }
                }
                if s.contains(y) {
                    let k = choose|k: int| 0 <= k < s.len() && s[k] == y;
                    if k < s.len() - 1 {
                        assert(s2[k] == y);
                        assert(s2.contains(y));
                        assert(r2.contains(y));
                        let j = choose|j: int| 0 <= j < r2.len() && r2[j] == y;
                        assert(r[j] == y);
                    } else {
                        assert(r[r.len() - 1] == y);
                    }
                }
                if y == x {
                    let j = choose|j: int| 0 <= j < r2.len() && r2[j] == x;
                    assert(r[j] == y);
                }
            }
            let j = choose|j: int| 0 <= j < r2.len() && r2[j] == x;
            assert(r[j] == x);
            if (forall|k: int, m: int| 0 <= k < m < s.len() ==> s[k] != s[m]) && !s.contains(x) {
                assert(!s2.contains(x)) by {
                    if s2.contains(x) {
                        let j = choose|j: int| 0 <= j < s2.len() && s2[j] == x;
                        assert(s[j] == x);
                    }
                }
                assert(!r2.contains(s.last())) by {
                    if r2.contains(s.last()) {
                        if s2.contains(s.last()) {
                            let j = choose|j: int| 0 <= j < s2.len() && s2[j] == s.last();
                            assert(s[j] == s[s.len() - 1]);
                        }
                        assert(s.contains(x)) by {
                            assert(s[s.len() - 1] == x);
                        }
                    }
                }
                assert forall|k: int, m: int| 0 <= k < m < r.len() implies r[k] != r[m] by {
                    if m == r.len() - 1 {
                        assert(r2[k] == r[k]);
                        assert(r2.contains(r[k]));
                    }
                }
            }
        }
    }
}

/// The wounded order holds exactly the given indices, once each.
pub proof fn lemma_wounded(p: Seq<Actor>, idxs: Seq<usize>, len: nat)
    requires
        targets_ok(idxs, len),
    ensures
        wounded(p, idxs).len() == idxs.len(),
        forall|y: usize| wounded(p, idxs).contains(y) <==> idxs.contains(y),
        targets_ok(wounded(p, idxs), len),
    decreases idxs.len(),
{
    if idxs.len() > 0 {
        let d = idxs.drop_last();
        lemma_wounded(p, d, len);
        let w = wounded(p, d);
        assert(!w.contains(idxs.last())) by {
            if w.contains(idxs.last()) {
                assert(d.contains(idxs.last()));
                let j = choose|j: int| 0 <= j < d.len() && d[j] == idxs.last();
                assert(idxs[j] == idxs[idxs.len() - 1]);
            }
        }
        lemma_ins(p, w, idxs.last());
        let r = wounded(p, idxs);
        assert forall|y: usize| r.contains(y) <==> idxs.contains(y) by {
            if d.contains(y) {
                let j = choose|j: int| 0 <= j < d.len() && d[j] == y;
                assert(idxs[j] == y);
            }
            if idxs.contains(y) {
                let j = choose|j: int| 0 <= j < idxs.len() && idxs[j] == y;
                if j < d.len() {
                    assert(d[j] == y);
                } else {
                    assert(y == idxs.last());
                }
            }
        }
        assert forall|k: int| 0 <= k < r.len() implies r[k] < len by {
            assert(r.contains(r[k]));
            let j = choose|j: int| 0 <= j < idxs.len() && idxs[j] == r[k];
        }
    }
}

/// No entry of `s` has more remaining health than an entry after it.
pub open spec fn fewest_first(p: Seq<Actor>, s: Seq<usize>) -> bool {
    forall|k: int, m: int|
        0 <= k < m < s.len() ==> rem_of(p[#[trigger] s[k] as int]) <= rem_of(p[#[trigger] s[m] as int])
}

proof fn lemma_ins_fewest_first(p: Seq<Actor>, s: Seq<usize>, x: usize)
    requires
        fewest_first(p, s),
    ensures
        fewest_first(p, ins(p, s, x)),
    decreases s.len(),
{
    if s.len() > 0 {
        let r = ins(p, s, x);
        if rem_of(p[s.last() as int]) <= rem_of(p[x as int]) {
            assert forall|k: int, m: int| 0 <= k < m < r.len() implies rem_of(p[#[trigger] r[k] as int])
                <= rem_of(p[#[trigger] r[m] as int]) by {
                if m == s.len() {
                    if k < s.len() - 1 {
                        assert(rem_of(p[s[k] as int]) <= rem_of(p[s[s.len() - 1] as int]));
                    }
                }
            }
        } else {
            let s2 = s.drop_last();
            lemma_ins_fewest_first(p, s2, x);
            lemma_ins(p, s2, x);
            let r2 = ins(p, s2, x);
            assert forall|k: int, m: int| 0 <= k < m < r.len() implies rem_of(p[#[trigger] r[k] as int])
                <= rem_of(p[#[trigger] r[m] as int]) by {
                if m == r.len() - 1 {
                    assert(r[k] == r2[k]);
                    assert(r2.contains(r2[k]));
                    if s2.contains(r2[k]) {
                        let j = choose|j: int| 0 <= j < s2.len() && s2[j] == r2[k];
                        assert(rem_of(p[s[j] as int]) <= rem_of(p[s[s.len() - 1] as int]));
                    }
                } else {
                    assert(r[k] == r2[k] && r[m] == r2[m]);
                }
            }
        }
    }
}

/// The most-wounded order lists bodies fewest remaining health cards first: no entry has more
/// remaining health than any entry after it.
pub proof fn law_wounded_fewest_first(p: Seq<Actor>, idxs: Seq<usize>)
    ensures
        forall|k: int, m: int|
            0 <= k < m < wounded(p, idxs).len() ==> rem_of(p[#[trigger] wounded(p, idxs)[k] as int]) <= rem_of(
                p[#[trigger] wounded(p, idxs)[m] as int],
            ),
    decreases idxs.len(),
{
    if idxs.len() > 0 {
        law_wounded_fewest_first(p, idxs.drop_last());
        lemma_ins_fewest_first(p, wounded(p, idxs.drop_last()), idxs.last());
    }
}

// ---------------------------------------------------------------------------------------------
// Cover.
// ---------------------------------------------------------------------------------------------

/// The first living body at or after `w` that carries a Cover token for `aimed`, else `aimed`.
pub open spec fn cover_from(p: Seq<Actor>, aimed: usize, w: int) -> usize
    decreases p.len() - w,
{
    if w >= p.len() || w < 0 {
        aimed
    } else if !actor_down(p[w]) && p[w].tokens@.contains(Token::Cover { ally: aimed }) {
        w as usize
    } else {
        cover_from(p, aimed, w + 1)
    }
}

/// Where a single-target hit aimed at `aimed` lands: the first living Wall covering it, or `aimed`.
pub open spec fn cover_of(p: Seq<Actor>, aimed: usize) -> usize {
    cover_from(p, aimed, 0)
}

/// Body `w` of `p` is a living Wall covering `aimed`.
pub open spec fn covers(p: Seq<Actor>, w: int, aimed: usize) -> bool {
    0 <= w < p.len() && !actor_down(p[w]) && p[w].tokens@.contains(Token::Cover { ally: aimed })
}

proof fn lemma_cover_from_first(p: Seq<Actor>, aimed: usize, w: int)
    requires
        0 <= w,
        p.len() <= usize::MAX,
    ensures
        (exists|c: int| w <= c && #[trigger] covers(p, c, aimed)) ==> {
            let c = cover_from(p, aimed, w) as int;
            &&& w <= c
            &&& covers(p, c, aimed)
            &&& forall|x: int| w <= x < c ==> !#[trigger] covers(p, x, aimed)
        },
        !(exists|c: int| w <= c && #[trigger] covers(p, c, aimed)) ==> cover_from(p, aimed, w) == aimed,
    decreases p.len() - w,
{
    if w < p.len() {
        lemma_cover_from_first(p, aimed, w + 1);
        if covers(p, w, aimed) {
            assert(w as usize as int == w);
        } else {
            if exists|c: int| w <= c && #[trigger] covers(p, c, aimed) {
                let c = choose|c: int| w <= c && #[trigger] covers(p, c, aimed);
                assert(c != w);
                assert(w + 1 <= c && covers(p, c, aimed));
            }
        }
    } else {
        if exists|c: int| w <= c && #[trigger] covers(p, c, aimed) {
            let c = choose|c: int| w <= c && #[trigger] covers(p, c, aimed);
            assert(false);
        }
    }
}

/// **Cover sends the hit to the first living Wall guarding the aimed body**: when some living body
/// carries a Cover token for `aimed`, a single-target hit lands on the first such body; otherwise it
/// lands on `aimed` itself.
pub proof fn law_cover_redirects_to_the_first_guard(p: Seq<Actor>, aimed: usize)
    requires
        p.len() <= usize::MAX,
    ensures
        (exists|c: int| #[trigger] covers(p, c, aimed)) ==> {
            let c = cover_of(p, aimed) as int;
            &&& covers(p, c, aimed)
            &&& forall|x: int| 0 <= x < c ==> !#[trigger] covers(p, x, aimed)
        },
        !(exists|c: int| #[trigger] covers(p, c, aimed)) ==> cover_of(p, aimed) == aimed,
{
    lemma_cover_from_first(p, aimed, 0);
    if exists|c: int| #[trigger] covers(p, c, aimed) {
        let c = choose|c: int| #[trigger] covers(p, c, aimed);
        assert(0 <= c && covers(p, c, aimed));
    }
}

pub proof fn lemma_cover_from(p: Seq<Actor>, aimed: usize, w: int)
    requires
        aimed < p.len(),
        0 <= w,
    ensures
        cover_from(p, aimed, w) < p.len(),
    decreases p.len() - w,
{
    if w < p.len() {
        lemma_cover_from(p, aimed, w + 1);
    }
}

// ---------------------------------------------------------------------------------------------
// Touching a pool.
// ---------------------------------------------------------------------------------------------

/// `p1` is `p0` with every body listed in `ts` moved by `f` and every other body unchanged.
pub open spec fn touched(p0: Seq<Actor>, p1: Seq<Actor>, ts: Seq<usize>, f: spec_fn(Actor, Actor) -> bool) -> bool {
    &&& p1.len() == p0.len()
    &&& forall|j: int|
        0 <= j < p0.len() ==> if ts.contains(j as usize) {
            f(p0[j], #[trigger] p1[j])
        } else {
            p1[j] == p0[j]
        }
}

/// The caster alone, when there is one.
pub open spec fn self_ts(self_idx: Option<usize>) -> Seq<usize> {
    match self_idx {
        Some(i) => seq![i],
        None => seq![],
    }
}

/// The round-scoped statuses an effect can set.
#[derive(Clone, Copy, Debug, PartialEq, Eq, Structural)]
pub enum Status {
    Lifeline,
    Stagger,
    Shove,
    Rout,
    Disarm,
}

/// A body with a status set.
pub open spec fn with_status(a: Actor, s: Status) -> Actor {
    match s {
        Status::Lifeline => Actor { cannot_fall: true, ..a },
        Status::Stagger => Actor { stunned: true, ..a },
        Status::Shove => Actor { shoved: true, ..a },
        Status::Rout => Actor { routed: true, ..a },
        Status::Disarm => Actor { disarmed: true, ..a },
    }
}

/// A body whose Tempo moved by `d`.
pub open spec fn tempo_moved(a: Actor, b: Actor, d: int) -> bool {
    b == Actor { tempo: (a.tempo + d) as i32, ..a }
}

/// A body with `extra` tokens appended.
pub open spec fn tokens_added(a: Actor, b: Actor, extra: Seq<Token>) -> bool {
    &&& b == Actor { tokens: b.tokens, ..a }
    &&& b.tokens@ == a.tokens@ + extra
}

/// `n` copies of a token.
pub open spec fn copies(t: Token, n: nat) -> Seq<Token> {
    Seq::new(n, |k: int| t)
}

/// A body healed by up to `amt` cards (front-first recoveries).
pub open spec fn healed(a: Actor, b: Actor, amt: u32) -> bool {
    &&& b == Actor { defense: b.defense, ..a }
    &&& b.defense.health_pile == a.defense.health_pile
    &&& b.defense.health@ == turn_up_times(
        a.defense.health@,
        vstd::math::min(amt as int, count_down(a.defense.health@) as int) as nat,
    )
}

/// A body that recovered one card (its pile cleared).
pub open spec fn recovered(a: Actor, b: Actor) -> bool {
    &&& b == Actor { defense: b.defense, ..a }
    &&& b.defense.health_pile == 0
    &&& b.defense.health@ == turn_up_spec(a.defense.health@)
}

/// The attack a Ward grants: a ranged body gains melee too; a body with none gains melee.
pub open spec fn warded(x: Attack) -> Attack {
    match x {
        Attack::Ranged => Attack::Both,
        _ => Attack::Melee,
    }
}

/// Touching one more listed body extends a touch over a prefix of the list.
pub proof fn lemma_touch_step(
    p0: Seq<Actor>,
    mid: Seq<Actor>,
    next: Seq<Actor>,
    ts: Seq<usize>,
    k: int,
    f: spec_fn(Actor, Actor) -> bool,
)
    requires
        0 <= k < ts.len(),
        targets_ok(ts, p0.len()),
        p0.len() <= usize::MAX,
        touched(p0, mid, ts.take(k), f),
        next == mid.update(ts[k] as int, next[ts[k] as int]),
        f(p0[ts[k] as int], next[ts[k] as int]),
    ensures
        touched(p0, next, ts.take(k + 1), f),
        mid[ts[k] as int] == p0[ts[k] as int],
{
    let t = ts[k];
    assert(!ts.take(k).contains(t)) by {
        if ts.take(k).contains(t) {
            let m = choose|m: int| 0 <= m < k && #[trigger] ts.take(k)[m] == t;
            assert(ts[m] == ts[k]);
        }
    }
    assert forall|j: int| 0 <= j < p0.len() implies (if ts.take(k + 1).contains(j as usize) {
        f(p0[j], #[trigger] next[j])
    } else {
        next[j] == p0[j]
    }) by {
        if j == t as int {
            assert(ts.take(k + 1)[k] == t);
        } else {
            if ts.take(k + 1).contains(j as usize) {
                let m = choose|m: int| 0 <= m < k + 1 && #[trigger] ts.take(k + 1)[m] == j as usize;
                assert(ts.take(k)[m] == j as usize);
            }
            if ts.take(k).contains(j as usize) {
                let m = choose|m: int| 0 <= m < k && #[trigger] ts.take(k)[m] == j as usize;
                assert(ts.take(k + 1)[m] == j as usize);
            }
        }
    }
}


/// The whole list touched.
pub proof fn lemma_touch_all(p0: Seq<Actor>, p1: Seq<Actor>, ts: Seq<usize>, f: spec_fn(Actor, Actor) -> bool)
    requires
        touched(p0, p1, ts.take(ts.len() as int), f),
    ensures
        touched(p0, p1, ts, f),
{
    assert(ts.take(ts.len() as int) =~= ts);
}

// ---------------------------------------------------------------------------------------------
// Executable selections.
// ---------------------------------------------------------------------------------------------

/// The first `n` entries of `v`.
pub fn take_first(v: &Vec<usize>, n: usize) -> (r: Vec<usize>)
    ensures
        r@ == first_n(v@, n as nat),
{
    let mut r: Vec<usize> = Vec::new();
    let mut k: usize = 0;
    while k < v.len() && k < n
        invariant
            k <= v@.len(),
            k <= n,
            r@ == v@.take(k as int),
        decreases v.len() - k,
    {
        r.push(v[k]);
        k = k + 1;
        assert(r@ =~= v@.take(k as int));
    }
    if n >= v.len() {
        assert(r@ =~= v@);
    }
    r
}

/// The wardable allies: living, not the caster, with no melee attack.
pub fn wardable_idx(pool: &[Actor], self_idx: Option<usize>) -> (v: Vec<usize>)
    ensures
        v@ == ward_idx(pool@, self_idx),
{
    let mut v: Vec<usize> = Vec::new();
    let mut i: usize = 0;
    assert(pool@.take(0) =~= Seq::<Actor>::empty());
    while i < pool.len()
        invariant
            i <= pool@.len(),
            v@ == idx_where(pool@.take(i as int), wardable(self_idx)),
        decreases pool.len() - i,
    {
        assert(pool@.take(i + 1).drop_last() =~= pool@.take(i as int));
        let a = &pool[i];
        let not_self = match self_idx {
            Some(s) => s != i,
            None => true,
        };
        if !a.is_down() && not_self && (a.attack == Attack::Ranged || a.attack == Attack::Neither) {
            v.push(i);
        }
        i = i + 1;
    }
    assert(pool@.take(i as int) =~= pool@);
    v
}

/// The living bodies other than `me`.
pub fn others_idx(pool: &[Actor], me: usize) -> (v: Vec<usize>)
    ensures
        v@ == idx_where(pool@, others(me)),
{
    let mut v: Vec<usize> = Vec::new();
    let mut i: usize = 0;
    assert(pool@.take(0) =~= Seq::<Actor>::empty());
    while i < pool.len()
        invariant
            i <= pool@.len(),
            v@ == idx_where(pool@.take(i as int), others(me)),
        decreases pool.len() - i,
    {
        assert(pool@.take(i + 1).drop_last() =~= pool@.take(i as int));
        if !pool[i].is_down() && i != me {
            v.push(i);
        }
        i = i + 1;
    }
    assert(pool@.take(i as int) =~= pool@);
    v
}

/// Inserting at the position a backward scan stops at is the spec insertion.
proof fn lemma_ins_at(p: Seq<Actor>, s: Seq<usize>, x: usize, j: int)
    requires
        0 <= j <= s.len(),
        forall|m: int| j <= m < s.len() ==> rem_of(p[s[m] as int]) > rem_of(p[x as int]),
        j > 0 ==> rem_of(p[s[j - 1] as int]) <= rem_of(p[x as int]),
    ensures
        ins(p, s, x) == s.insert(j, x),
    decreases s.len() - j,
{
    if j == s.len() {
        if s.len() == 0 {
            assert(ins(p, s, x) =~= s.insert(j, x));
        } else {
            assert(ins(p, s, x) =~= s.insert(j, x));
        }
    } else {
        let s2 = s.drop_last();
        lemma_ins_at(p, s2, x, j);
        assert(ins(p, s, x) =~= s.insert(j, x));
    }
}

/// `idxs` stably sorted by the remaining health of their bodies (fewest first).
pub fn sort_wounded(pool: &[Actor], idxs: &Vec<usize>) -> (v: Vec<usize>)
    requires
        forall|k: int| 0 <= k < idxs@.len() ==> idxs@[k] < pool@.len(),
    ensures
        v@ == wounded(pool@, idxs@),
{
    let mut v: Vec<usize> = Vec::new();
    let mut i: usize = 0;
    assert(idxs@.take(0) =~= Seq::<usize>::empty());
    while i < idxs.len()
        invariant
            i <= idxs@.len(),
            forall|k: int| 0 <= k < idxs@.len() ==> idxs@[k] < pool@.len(),
            v@ == wounded(pool@, idxs@.take(i as int)),
            forall|m: int| 0 <= m < v@.len() ==> v@[m] < pool@.len(),
        decreases idxs.len() - i,
    {
        let x = idxs[i];
        let kx = pool[x].defense.health.remaining();
        let mut j: usize = v.len();
        let mut stop = false;
        while j > 0 && !stop
            invariant
                j <= v@.len(),
                x < pool@.len(),
                kx == rem_of(pool@[x as int]),
                forall|m: int| 0 <= m < v@.len() ==> v@[m] < pool@.len(),
                forall|m: int| j <= m < v@.len() ==> rem_of(pool@[v@[m] as int]) > rem_of(pool@[x as int]),
                stop ==> j > 0 && rem_of(pool@[v@[j - 1] as int]) <= rem_of(pool@[x as int]),
            decreases 2 * j + (if stop { 0int } else { 1int }),
        {
            let kj = pool[v[j - 1]].defense.health.remaining();
            if kj > kx {
                j = j - 1;
            } else {
                stop = true;
            }
        }
        proof {
            lemma_ins_at(pool@, v@, x, j as int);
            assert(idxs@.take(i + 1).drop_last() =~= idxs@.take(i as int));
        }
        let ghost before = v@;
        v.insert(j, x);
        i = i + 1;
        assert forall|m: int| 0 <= m < v@.len() implies v@[m] < pool@.len() by {
            if m < j {
                assert(v@[m] == before[m]);
            } else if m > j {
                assert(v@[m] == before[m - 1]);
            }
        }
    }
    assert(idxs@.take(i as int) =~= idxs@);
    v
}

/// Where a single-target hit aimed at `aimed` lands: the first living body carrying a Cover token
/// for it, else `aimed` itself.
pub fn cover_redirect(pool: &[Actor], aimed: usize) -> (dst: usize)
    ensures
        dst == cover_of(pool@, aimed),
{
    let mut w: usize = 0;
    while w < pool.len()
        invariant
            w <= pool@.len(),
            cover_from(pool@, aimed, w as int) == cover_of(pool@, aimed),
        decreases pool.len() - w,
    {
        if !pool[w].is_down() {
            let toks = &pool[w].tokens;
            let mut q: usize = 0;
            let mut found = false;
            while q < toks.len() && !found
                invariant
                    q <= toks@.len(),
                    found ==> toks@.contains(Token::Cover { ally: aimed }),
                    !found ==> forall|m: int| 0 <= m < q ==> toks@[m] != (Token::Cover { ally: aimed }),
                decreases 2 * (toks.len() - q) + (if found { 0int } else { 1int }),
            {
                if toks[q] == (Token::Cover { ally: aimed }) {
                    found = true;
                    assert(toks@[q as int] == Token::Cover { ally: aimed });
                } else {
                    q = q + 1;
                }
            }
            if found {
                return w;
            }
            assert(!toks@.contains(Token::Cover { ally: aimed })) by {
                if toks@.contains(Token::Cover { ally: aimed }) {
                    let m = choose|m: int| 0 <= m < toks@.len() && toks@[m] == (Token::Cover { ally: aimed });
                }
            }
        }
        w = w + 1;
    }
    aimed
}

// ---------------------------------------------------------------------------------------------
// What an effect does to each body it touches.
// ---------------------------------------------------------------------------------------------

pub open spec fn moves_tempo(d: int) -> spec_fn(Actor, Actor) -> bool {
    |a: Actor, b: Actor| tempo_moved(a, b, d)
}

pub open spec fn sets_status(st: Status) -> spec_fn(Actor, Actor) -> bool {
    |a: Actor, b: Actor| b == with_status(a, st)
}

pub open spec fn adds_tokens(extra: Seq<Token>) -> spec_fn(Actor, Actor) -> bool {
    |a: Actor, b: Actor| tokens_added(a, b, extra)
}

pub open spec fn slows(c: u32) -> spec_fn(Actor, Actor) -> bool {
    |a: Actor, b: Actor|
        b == Actor {
            offense: crate::stats::Offense {
                cadence: (if a.offense.cadence >= c { (a.offense.cadence - c) as u32 } else { 0u32 }),
                ..a.offense
            },
            ..a
        }
}

pub open spec fn empowers(m: u32) -> spec_fn(Actor, Actor) -> bool {
    |a: Actor, b: Actor| b == Actor { might_bonus: (a.might_bonus + m) as u32, ..a }
}

pub open spec fn wards() -> spec_fn(Actor, Actor) -> bool {
    |a: Actor, b: Actor| b == Actor { attack: warded(a.attack), ..a }
}

pub open spec fn heals(amt: u32) -> spec_fn(Actor, Actor) -> bool {
    |a: Actor, b: Actor| healed(a, b, amt)
}

pub open spec fn recovers() -> spec_fn(Actor, Actor) -> bool {
    |a: Actor, b: Actor| recovered(a, b)
}

pub open spec fn strikes(raw: u32) -> spec_fn(Actor, Actor) -> bool {
    |a: Actor, b: Actor| struck(a, b, raw)
}

/// The narration `before + name + after` for each listed body, in list order.
pub open spec fn each_line(p: Seq<Actor>, ts: Seq<usize>, before: Seq<char>, after: Seq<char>) -> Seq<Seq<char>> {
    Seq::new(ts.len(), |k: int| before + p[ts[k] as int].name@ + after)
}

/// Narrate `before + name + after` for each listed body.
pub fn say_each(pool: &[Actor], ts: &Vec<usize>, before: &str, after: &str, log: &mut Vec<String>)
    requires
        forall|k: int| 0 <= k < ts@.len() ==> ts@[k] < pool@.len(),
    ensures
        crate::combat::logged(old(log)@, final(log)@, each_line(pool@, ts@, before@, after@)),
{
    let mut k: usize = 0;
    while k < ts.len()
        invariant
            k <= ts@.len(),
            forall|q: int| 0 <= q < ts@.len() ==> ts@[q] < pool@.len(),
            crate::combat::logged(old(log)@, log@, each_line(pool@, ts@, before@, after@).take(k as int)),
        decreases ts.len() - k,
    {
        let mut line = String::from_str(before);
        line.append(pool[ts[k]].name.as_str());
        line.append(after);
        log.push(line);
        k = k + 1;
        assert(each_line(pool@, ts@, before@, after@).take(k as int)[k - 1] == before@ + pool@[ts@[k - 1] as int].name@ + after@);
    }
    assert(each_line(pool@, ts@, before@, after@).take(k as int) =~= each_line(pool@, ts@, before@, after@));
}

/// Move the Tempo of every listed body by `d`.
pub fn shift_tempo(pool: &mut [Actor], ts: &Vec<usize>, d: i32)
    requires
        targets_ok(ts@, old(pool)@.len()),
        forall|k: int|
            0 <= k < ts@.len() ==> i32::MIN <= #[trigger] old(pool)@[ts@[k] as int].tempo + d <= i32::MAX,
    ensures
        touched(old(pool)@, final(pool)@, ts@, moves_tempo(d as int)),
{
    let ghost p0 = pool@;
    let n_pool: usize = pool.len();
    let mut k: usize = 0;
    while k < ts.len()
        invariant
            k <= ts@.len(),
            p0 == old(pool)@,
            p0.len() == n_pool,
            pool@.len() == p0.len(),
            targets_ok(ts@, p0.len()),
            forall|q: int| 0 <= q < ts@.len() ==> i32::MIN <= #[trigger] p0[ts@[q] as int].tempo + d <= i32::MAX,
            touched(p0, pool@, ts@.take(k as int), moves_tempo(d as int)),
        decreases ts.len() - k,
    {
        let t = ts[k];
        let ghost mid = pool@;
        proof {
            assert(!ts@.take(k as int).contains(t)) by {
                if ts@.take(k as int).contains(t) {
                    let m = choose|m: int| 0 <= m < k && #[trigger] ts@.take(k as int)[m] == t;
                    assert(ts@[m] == ts@[k as int]);
                }
            }
            assert(mid[t as int] == p0[t as int]);
        }
        pool[t].tempo = pool[t].tempo + d;
        proof {
            lemma_touch_step(p0, mid, pool@, ts@, k as int, moves_tempo(d as int));
        }
        k = k + 1;
    }
    proof {
        lemma_touch_all(p0, pool@, ts@, moves_tempo(d as int));
    }
}

/// Set a round-scoped status on every listed body.
pub fn set_status(pool: &mut [Actor], ts: &Vec<usize>, st: Status)
    requires
        targets_ok(ts@, old(pool)@.len()),
    ensures
        touched(old(pool)@, final(pool)@, ts@, sets_status(st)),
{
    let ghost p0 = pool@;
    let n_pool: usize = pool.len();
    let mut k: usize = 0;
    while k < ts.len()
        invariant
            k <= ts@.len(),
            p0 == old(pool)@,
            p0.len() == n_pool,
            pool@.len() == p0.len(),
            targets_ok(ts@, p0.len()),
            touched(p0, pool@, ts@.take(k as int), sets_status(st)),
        decreases ts.len() - k,
    {
        let t = ts[k];
        let ghost mid = pool@;
        proof {
            assert(!ts@.take(k as int).contains(t)) by {
                if ts@.take(k as int).contains(t) {
                    let m = choose|m: int| 0 <= m < k && #[trigger] ts@.take(k as int)[m] == t;
                    assert(ts@[m] == ts@[k as int]);
                }
            }
            assert(mid[t as int] == p0[t as int]);
        }
        match st {
            Status::Lifeline => { pool[t].cannot_fall = true; },
            Status::Stagger => { pool[t].stunned = true; },
            Status::Shove => { pool[t].shoved = true; },
            Status::Rout => { pool[t].routed = true; },
            Status::Disarm => { pool[t].disarmed = true; },
        }
        proof {
            lemma_touch_step(p0, mid, pool@, ts@, k as int, sets_status(st));
        }
        k = k + 1;
    }
    proof {
        lemma_touch_all(p0, pool@, ts@, sets_status(st));
    }
}

/// `toks` followed by `count` copies of `tok`.
pub fn with_copies(toks: &Vec<Token>, tok: Token, count: u32) -> (r: Vec<Token>)
    ensures
        r@ == toks@ + copies(tok, count as nat),
{
    let mut r: Vec<Token> = Vec::new();
    let mut i: usize = 0;
    while i < toks.len()
        invariant
            i <= toks@.len(),
            r@ == toks@.take(i as int),
        decreases toks.len() - i,
    {
        r.push(toks[i]);
        i = i + 1;
        assert(r@ =~= toks@.take(i as int));
    }
    let mut c: u32 = 0;
    while c < count
        invariant
            c <= count,
            r@ == toks@ + copies(tok, c as nat),
        decreases count - c,
    {
        r.push(tok);
        c = c + 1;
        assert(r@ =~= toks@ + copies(tok, c as nat));
    }
    assert(toks@.take(toks@.len() as int) =~= toks@);
    r
}

/// Append `count` copies of `tok` to every listed body's tokens.
pub fn add_tokens(pool: &mut [Actor], ts: &Vec<usize>, tok: Token, count: u32)
    requires
        targets_ok(ts@, old(pool)@.len()),
    ensures
        touched(old(pool)@, final(pool)@, ts@, adds_tokens(copies(tok, count as nat))),
{
    let ghost p0 = pool@;
    let n_pool: usize = pool.len();
    let mut k: usize = 0;
    while k < ts.len()
        invariant
            k <= ts@.len(),
            p0 == old(pool)@,
            p0.len() == n_pool,
            pool@.len() == p0.len(),
            targets_ok(ts@, p0.len()),
            touched(p0, pool@, ts@.take(k as int), adds_tokens(copies(tok, count as nat))),
        decreases ts.len() - k,
    {
        let t = ts[k];
        let ghost mid = pool@;
        proof {
            assert(!ts@.take(k as int).contains(t)) by {
                if ts@.take(k as int).contains(t) {
                    let m = choose|m: int| 0 <= m < k && #[trigger] ts@.take(k as int)[m] == t;
                    assert(ts@[m] == ts@[k as int]);
                }
            }
            assert(mid[t as int] == p0[t as int]);
        }
        let nt = with_copies(&pool[t].tokens, tok, count);
        pool[t].tokens = nt;
        proof {
            lemma_touch_step(p0, mid, pool@, ts@, k as int, adds_tokens(copies(tok, count as nat)));
        }
        k = k + 1;
    }
    proof {
        lemma_touch_all(p0, pool@, ts@, adds_tokens(copies(tok, count as nat)));
    }
}

/// Cut `c` Cadence (saturating) from every listed body.
pub fn slow_each(pool: &mut [Actor], ts: &Vec<usize>, c: u32)
    requires
        targets_ok(ts@, old(pool)@.len()),
    ensures
        touched(old(pool)@, final(pool)@, ts@, slows(c)),
{
    let ghost p0 = pool@;
    let n_pool: usize = pool.len();
    let mut k: usize = 0;
    while k < ts.len()
        invariant
            k <= ts@.len(),
            p0 == old(pool)@,
            p0.len() == n_pool,
            pool@.len() == p0.len(),
            targets_ok(ts@, p0.len()),
            touched(p0, pool@, ts@.take(k as int), slows(c)),
        decreases ts.len() - k,
    {
        let t = ts[k];
        let ghost mid = pool@;
        proof {
            assert(!ts@.take(k as int).contains(t)) by {
                if ts@.take(k as int).contains(t) {
                    let m = choose|m: int| 0 <= m < k && #[trigger] ts@.take(k as int)[m] == t;
                    assert(ts@[m] == ts@[k as int]);
                }
            }
            assert(mid[t as int] == p0[t as int]);
        }
        let cad = pool[t].offense.cadence;
        pool[t].offense.cadence = if cad >= c { cad - c } else { 0 };
        proof {
            lemma_touch_step(p0, mid, pool@, ts@, k as int, slows(c));
        }
        k = k + 1;
    }
    proof {
        lemma_touch_all(p0, pool@, ts@, slows(c));
    }
}

/// Add `m` to every listed body's round-scoped Might bonus.
pub fn empower_each(pool: &mut [Actor], ts: &Vec<usize>, m: u32)
    requires
        targets_ok(ts@, old(pool)@.len()),
        forall|q: int| 0 <= q < ts@.len() ==> #[trigger] old(pool)@[ts@[q] as int].might_bonus + m <= u32::MAX,
    ensures
        touched(old(pool)@, final(pool)@, ts@, empowers(m)),
{
    let ghost p0 = pool@;
    let n_pool: usize = pool.len();
    let mut k: usize = 0;
    while k < ts.len()
        invariant
            k <= ts@.len(),
            p0 == old(pool)@,
            p0.len() == n_pool,
            pool@.len() == p0.len(),
            targets_ok(ts@, p0.len()),
            forall|q: int| 0 <= q < ts@.len() ==> #[trigger] p0[ts@[q] as int].might_bonus + m <= u32::MAX,
            touched(p0, pool@, ts@.take(k as int), empowers(m)),
        decreases ts.len() - k,
    {
        let t = ts[k];
        let ghost mid = pool@;
        proof {
            assert(!ts@.take(k as int).contains(t)) by {
                if ts@.take(k as int).contains(t) {
                    let m = choose|m: int| 0 <= m < k && #[trigger] ts@.take(k as int)[m] == t;
                    assert(ts@[m] == ts@[k as int]);
                }
            }
            assert(mid[t as int] == p0[t as int]);
        }
        pool[t].might_bonus = pool[t].might_bonus + m;
        proof {
            lemma_touch_step(p0, mid, pool@, ts@, k as int, empowers(m));
        }
        k = k + 1;
    }
    proof {
        lemma_touch_all(p0, pool@, ts@, empowers(m));
    }
}

/// Grant each listed body a melee guard.
pub fn ward_each(pool: &mut [Actor], ts: &Vec<usize>)
    requires
        targets_ok(ts@, old(pool)@.len()),
    ensures
        touched(old(pool)@, final(pool)@, ts@, wards()),
{
    let ghost p0 = pool@;
    let n_pool: usize = pool.len();
    let mut k: usize = 0;
    while k < ts.len()
        invariant
            k <= ts@.len(),
            p0 == old(pool)@,
            p0.len() == n_pool,
            pool@.len() == p0.len(),
            targets_ok(ts@, p0.len()),
            touched(p0, pool@, ts@.take(k as int), wards()),
        decreases ts.len() - k,
    {
        let t = ts[k];
        let ghost mid = pool@;
        proof {
            assert(!ts@.take(k as int).contains(t)) by {
                if ts@.take(k as int).contains(t) {
                    let m = choose|m: int| 0 <= m < k && #[trigger] ts@.take(k as int)[m] == t;
                    assert(ts@[m] == ts@[k as int]);
                }
            }
            assert(mid[t as int] == p0[t as int]);
        }
        let w = match pool[t].attack {
            Attack::Ranged => Attack::Both,
            _ => Attack::Melee,
        };
        pool[t].attack = w;
        proof {
            lemma_touch_step(p0, mid, pool@, ts@, k as int, wards());
        }
        k = k + 1;
    }
    proof {
        lemma_touch_all(p0, pool@, ts@, wards());
    }
}

/// Heal each listed body by up to `amt` cards.
pub fn heal_each(pool: &mut [Actor], ts: &Vec<usize>, amt: u32)
    requires
        targets_ok(ts@, old(pool)@.len()),
    ensures
        touched(old(pool)@, final(pool)@, ts@, heals(amt)),
{
    let ghost p0 = pool@;
    let n_pool: usize = pool.len();
    let mut k: usize = 0;
    while k < ts.len()
        invariant
            k <= ts@.len(),
            p0 == old(pool)@,
            p0.len() == n_pool,
            pool@.len() == p0.len(),
            targets_ok(ts@, p0.len()),
            touched(p0, pool@, ts@.take(k as int), heals(amt)),
        decreases ts.len() - k,
    {
        let t = ts[k];
        let ghost mid = pool@;
        proof {
            assert(!ts@.take(k as int).contains(t)) by {
                if ts@.take(k as int).contains(t) {
                    let m = choose|m: int| 0 <= m < k && #[trigger] ts@.take(k as int)[m] == t;
                    assert(ts@[m] == ts@[k as int]);
                }
            }
            assert(mid[t as int] == p0[t as int]);
        }
        pool[t].defense.health.heal(amt);
        proof {
            lemma_touch_step(p0, mid, pool@, ts@, k as int, heals(amt));
        }
        k = k + 1;
    }
    proof {
        lemma_touch_all(p0, pool@, ts@, heals(amt));
    }
}

// ---------------------------------------------------------------------------------------------
// The budget that keeps every number of a resolving card in range.
// ---------------------------------------------------------------------------------------------

/// The quantities a card's effects can raise on one body.
#[derive(Clone, Copy, Debug, PartialEq, Eq, Structural)]
pub enum Load {
    TempoUp,
    TempoDown,
    Empower,
    Mark,
    Mire,
    Sunder,
    Defang,
    Brace,
    Thorns,
    Damage,
}

/// How much one effect can raise a quantity on one body it touches (a Damage effect of an
/// attacker with Might `might` banks `might + power` into the pile).
pub open spec fn load_one(e: Effect, might: u32, k: Load) -> nat {
    match (e, k) {
        (Effect::Guard { tempo }, Load::TempoUp) => tempo as nat,
        (Effect::Haste { tempo }, Load::TempoUp) => tempo as nat,
        (Effect::BankCadence { amount }, Load::TempoUp) => amount as nat,
        (Effect::Suppress { tempo }, Load::TempoDown) => tempo as nat,
        (Effect::Confuse { tempo }, Load::TempoDown) => tempo as nat,
        (Effect::Empower { might: m }, Load::Empower) => m as nat,
        (Effect::Mark { finesse }, Load::Mark) => finesse as nat,
        (Effect::Mire { cadence }, Load::Mire) => cadence as nat,
        (Effect::Sunder { toughness }, Load::Sunder) => toughness as nat,
        (Effect::Defang { might: m }, Load::Defang) => m as nat,
        (Effect::Brace { toughness }, Load::Brace) => toughness as nat,
        (Effect::Thorns { power }, Load::Thorns) => power as nat,
        (Effect::Damage { power }, Load::Damage) => (might + power) as nat,
        _ => 0,
    }
}

/// The total a sequence of effects can raise a quantity on one body.
pub open spec fn load(s: Seq<Effect>, might: u32, k: Load) -> nat
    decreases s.len(),
{
    if s.len() == 0 {
        0
    } else {
        load_one(s[0], might, k) + load(s.drop_first(), might, k)
    }
}

/// Room in a deck's wall: every card's toughness (and the floor of 1) plus `extra` fits a `u32`.
pub open spec fn wall_room(deck: Seq<HealthCard>, extra: nat) -> bool {
    &&& 1 + extra <= u32::MAX
    &&& forall|i: int| 0 <= i < deck.len() ==> deck[i].toughness + extra <= u32::MAX
}

/// One body can absorb everything the effects `s` can do to it without any number leaving its range.
pub open spec fn fits_load(a: Actor, s: Seq<Effect>, might: u32) -> bool {
    &&& a.tempo + load(s, might, Load::TempoUp) <= i32::MAX
    &&& a.tempo - load(s, might, Load::TempoDown) >= i32::MIN
    &&& a.might_bonus + load(s, might, Load::Empower) <= u32::MAX
    &&& token_total(a.tokens@, Tally::Mark) + load(s, might, Load::Mark) <= u32::MAX
    &&& token_total(a.tokens@, Tally::Mire) + load(s, might, Load::Mire) <= u32::MAX
    &&& token_total(a.tokens@, Tally::Sunder) + load(s, might, Load::Sunder) <= u32::MAX
    &&& token_total(a.tokens@, Tally::Defang) + load(s, might, Load::Defang) <= u32::MAX
    &&& token_total(a.tokens@, Tally::Thorns) + load(s, might, Load::Thorns) <= u32::MAX
    &&& wall_room(a.defense.health@, token_total(a.tokens@, Tally::Guard) + load(s, might, Load::Brace))
    &&& a.defense.health_pile + load(s, might, Load::Damage) <= u32::MAX
}

/// Every body of a pool fits the load.
pub open spec fn pool_fits(p: Seq<Actor>, s: Seq<Effect>, might: u32) -> bool {
    forall|j: int| 0 <= j < p.len() ==> fits_load(#[trigger] p[j], s, might)
}

/// The card's own numbers are in range: each Damage's `might + power` fits a `u32`, and every
/// Tempo amount fits an `i32`.
pub open spec fn effect_in_range(e: Effect, might: u32) -> bool {
    match e {
        Effect::Damage { power } => might + power <= u32::MAX,
        Effect::Guard { tempo } => tempo <= i32::MAX,
        Effect::Haste { tempo } => tempo <= i32::MAX,
        Effect::BankCadence { amount } => amount <= i32::MAX,
        Effect::Suppress { tempo } => tempo <= i32::MAX,
        Effect::Confuse { tempo } => tempo <= i32::MAX,
        _ => true,
    }
}

pub open spec fn card_in_range(s: Seq<Effect>, might: u32) -> bool {
    forall|k: int| 0 <= k < s.len() ==> effect_in_range(#[trigger] s[k], might)
}

pub proof fn lemma_token_total_concat(s: Seq<Token>, t: Seq<Token>, k: Tally)
    ensures
        token_total(s + t, k) == token_total(s, k) + token_total(t, k),
    decreases s.len(),
{
    if s.len() > 0 {
        lemma_token_total_concat(s.drop_first(), t, k);
        assert((s + t).drop_first() =~= s.drop_first() + t);
    } else {
        assert(s + t =~= t);
    }
}

pub proof fn lemma_token_total_copies(tok: Token, c: nat, k: Tally)
    ensures
        token_total(copies(tok, c), k) == c * crate::actor::token_amount(tok, k),
        crate::actor::token_amount(tok, k) == 0 ==> token_total(copies(tok, c), k) == 0,
    decreases c,
{
    let amt = crate::actor::token_amount(tok, k);
    if c > 0 {
        lemma_token_total_copies(tok, (c - 1) as nat, k);
        assert(copies(tok, c).drop_first() =~= copies(tok, (c - 1) as nat));
        assert(copies(tok, c)[0] == tok);
        assert(token_total(copies(tok, c), k) == amt + token_total(copies(tok, (c - 1) as nat), k));
        assert(c * amt == amt + (c - 1) * amt) by (nonlinear_arith);
    } else {
        assert(token_total(copies(tok, c), k) == 0);
        assert(c * amt == 0) by (nonlinear_arith) requires c == 0;
    }
}

proof fn lemma_one_flip_wall(s: Seq<HealthCard>, extra: nat)
    requires
        wall_room(s, extra),
    ensures
        wall_room(flip_down_spec(s), extra),
        wall_room(turn_up_spec(s), extra),
        flip_down_spec(s).len() == s.len(),
        turn_up_spec(s).len() == s.len(),
{
    crate::stats::lemma_first_up(s);
    crate::stats::lemma_first_down(s);
    let f = flip_down_spec(s);
    let u = turn_up_spec(s);
    assert forall|i: int| 0 <= i < f.len() implies f[i].toughness + extra <= u32::MAX by {
        assert(f[i].toughness == s[i].toughness);
    }
    assert forall|i: int| 0 <= i < u.len() implies u[i].toughness + extra <= u32::MAX by {
        assert(u[i].toughness == s[i].toughness);
    }
}

/// Flips and recoveries never change a card's toughness.
pub proof fn lemma_flips_keep_wall(s: Seq<HealthCard>, k: nat, extra: nat)
    requires
        wall_room(s, extra),
    ensures
        wall_room(flip_times(s, k), extra),
        wall_room(turn_up_times(s, k), extra),
        wall_room(turn_up_spec(s), extra),
        flip_times(s, k).len() == s.len(),
        turn_up_times(s, k).len() == s.len(),
    decreases k,
{
    lemma_one_flip_wall(s, extra);
    if k > 0 {
        lemma_flips_keep_wall(s, (k - 1) as nat, extra);
        let f = flip_times(s, (k - 1) as nat);
        let u = turn_up_times(s, (k - 1) as nat);
        lemma_one_flip_wall(f, extra);
        lemma_one_flip_wall(u, extra);
    }
}

/// A body's wall (effective Toughness plus Guard) fits when its deck has room for its Guard.
pub proof fn lemma_wall_fits(a: Actor, extra: nat)
    requires
        extra >= token_total(a.tokens@, Tally::Guard),
        wall_room(a.defense.health@, extra),
    ensures
        crate::actor::eff_toughness_of(a) + token_total(a.tokens@, Tally::Guard) <= u32::MAX,
{
    let s = a.defense.health@;
    crate::stats::lemma_first_up(s);
    if 0 < s.len() {
        assert(s[0].toughness + extra <= u32::MAX);
    }
}


/// A body that fits the load can take the card's first effect's strike of `raw`.
pub proof fn lemma_fits_strikable(a: Actor, s: Seq<Effect>, might: u32, raw: u32)
    requires
        s.len() > 0,
        fits_load(a, s, might),
        raw <= load_one(s[0], might, Load::Damage),
    ensures
        strikable(a, raw),
        tokens_fit(a.tokens@),
{
    lemma_wall_fits(a, token_total(a.tokens@, Tally::Guard) + load(s, might, Load::Brace));
}

/// A touch by `f` keeps a pool within the budget of the rest of the card, given that `f` keeps
/// each touched body within it.
pub proof fn lemma_touch_keeps_fit(
    p0: Seq<Actor>,
    p1: Seq<Actor>,
    ts: Seq<usize>,
    f: spec_fn(Actor, Actor) -> bool,
    s: Seq<Effect>,
    might: u32,
)
    requires
        s.len() > 0,
        touched(p0, p1, ts, f),
        pool_fits(p0, s, might),
        forall|a: Actor, b: Actor| fits_load(a, s, might) && #[trigger] f(a, b) ==> fits_load(b, s.drop_first(), might),
    ensures
        pool_fits(p1, s.drop_first(), might),
{
    assert forall|j: int| 0 <= j < p1.len() implies fits_load(#[trigger] p1[j], s.drop_first(), might) by {
        assert(fits_load(p0[j], s, might));
        if ts.contains(j as usize) {
            assert(f(p0[j], p1[j]));
        }
    }
}

/// An untouched pool keeps fitting the rest of the card.
pub proof fn lemma_same_keeps_fit(p: Seq<Actor>, s: Seq<Effect>, might: u32)
    requires
        s.len() > 0,
        pool_fits(p, s, might),
    ensures
        pool_fits(p, s.drop_first(), might),
{
    assert forall|j: int| 0 <= j < p.len() implies fits_load(#[trigger] p[j], s.drop_first(), might) by {
        assert(fits_load(p[j], s, might));
    }
}

pub proof fn lemma_fit_tempo(s: Seq<Effect>, might: u32, d: int)
    requires
        s.len() > 0,
        -(load_one(s[0], might, Load::TempoDown) as int) <= d <= load_one(s[0], might, Load::TempoUp),
    ensures
        forall|a: Actor, b: Actor|
            fits_load(a, s, might) && #[trigger] moves_tempo(d)(a, b) ==> fits_load(b, s.drop_first(), might),
{
}

pub proof fn lemma_fit_status(s: Seq<Effect>, might: u32, st: Status)
    requires
        s.len() > 0,
    ensures
        forall|a: Actor, b: Actor|
            fits_load(a, s, might) && #[trigger] sets_status(st)(a, b) ==> fits_load(b, s.drop_first(), might),
{
}

pub proof fn lemma_fit_slow(s: Seq<Effect>, might: u32, c: u32)
    requires
        s.len() > 0,
    ensures
        forall|a: Actor, b: Actor|
            fits_load(a, s, might) && #[trigger] slows(c)(a, b) ==> fits_load(b, s.drop_first(), might),
{
}

pub proof fn lemma_fit_ward(s: Seq<Effect>, might: u32)
    requires
        s.len() > 0,
    ensures
        forall|a: Actor, b: Actor|
            fits_load(a, s, might) && #[trigger] wards()(a, b) ==> fits_load(b, s.drop_first(), might),
{
}

pub proof fn lemma_fit_empower(s: Seq<Effect>, might: u32, m: u32)
    requires
        s.len() > 0,
        m <= load_one(s[0], might, Load::Empower),
    ensures
        forall|a: Actor, b: Actor|
            fits_load(a, s, might) && #[trigger] empowers(m)(a, b) ==> fits_load(b, s.drop_first(), might),
{
}

/// What a token list adds to each tally.
pub open spec fn adds_at_most(extra: Seq<Token>, e: Effect, might: u32) -> bool {
    &&& token_total(extra, Tally::Mark) <= load_one(e, might, Load::Mark)
    &&& token_total(extra, Tally::Mire) <= load_one(e, might, Load::Mire)
    &&& token_total(extra, Tally::Sunder) <= load_one(e, might, Load::Sunder)
    &&& token_total(extra, Tally::Defang) <= load_one(e, might, Load::Defang)
    &&& token_total(extra, Tally::Thorns) <= load_one(e, might, Load::Thorns)
    &&& token_total(extra, Tally::Guard) <= load_one(e, might, Load::Brace)
}

pub proof fn lemma_fit_tokens(s: Seq<Effect>, might: u32, extra: Seq<Token>)
    requires
        s.len() > 0,
        adds_at_most(extra, s[0], might),
    ensures
        forall|a: Actor, b: Actor|
            fits_load(a, s, might) && #[trigger] adds_tokens(extra)(a, b) ==> fits_load(b, s.drop_first(), might),
{
    assert forall|a: Actor, b: Actor|
        fits_load(a, s, might) && #[trigger] adds_tokens(extra)(a, b) implies fits_load(b, s.drop_first(), might) by {
        lemma_token_total_concat(a.tokens@, extra, Tally::Mark);
        lemma_token_total_concat(a.tokens@, extra, Tally::Mire);
        lemma_token_total_concat(a.tokens@, extra, Tally::Sunder);
        lemma_token_total_concat(a.tokens@, extra, Tally::Defang);
        lemma_token_total_concat(a.tokens@, extra, Tally::Thorns);
        lemma_token_total_concat(a.tokens@, extra, Tally::Guard);
    }
}

pub proof fn lemma_fit_heal(s: Seq<Effect>, might: u32, amt: u32)
    requires
        s.len() > 0,
    ensures
        forall|a: Actor, b: Actor|
            fits_load(a, s, might) && #[trigger] heals(amt)(a, b) ==> fits_load(b, s.drop_first(), might),
{
    assert forall|a: Actor, b: Actor|
        fits_load(a, s, might) && #[trigger] heals(amt)(a, b) implies fits_load(b, s.drop_first(), might) by {
        let extra = token_total(a.tokens@, Tally::Guard) + load(s, might, Load::Brace);
        lemma_flips_keep_wall(
            a.defense.health@,
            vstd::math::min(amt as int, count_down(a.defense.health@) as int) as nat,
            extra,
        );
    }
}

pub proof fn lemma_fit_recover(s: Seq<Effect>, might: u32)
    requires
        s.len() > 0,
    ensures
        forall|a: Actor, b: Actor|
            fits_load(a, s, might) && #[trigger] recovers()(a, b) ==> fits_load(b, s.drop_first(), might),
{
    assert forall|a: Actor, b: Actor|
        fits_load(a, s, might) && #[trigger] recovers()(a, b) implies fits_load(b, s.drop_first(), might) by {
        let extra = token_total(a.tokens@, Tally::Guard) + load(s, might, Load::Brace);
        lemma_flips_keep_wall(a.defense.health@, 0, extra);
    }
}

pub proof fn lemma_fit_strike(s: Seq<Effect>, might: u32, raw: u32)
    requires
        s.len() > 0,
        raw <= load_one(s[0], might, Load::Damage),
    ensures
        forall|a: Actor, b: Actor|
            fits_load(a, s, might) && #[trigger] strikes(raw)(a, b) ==> fits_load(b, s.drop_first(), might),
{
    assert forall|a: Actor, b: Actor|
        fits_load(a, s, might) && #[trigger] strikes(raw)(a, b) implies fits_load(b, s.drop_first(), might) by {
        if !actor_down(a) {
            let total = a.defense.health_pile + raw;
            let bar = crate::stats::floor1(crate::combat::wall_of(a));
            let k = crate::stats::flips_for(total, bar as int, crate::stats::count_up(a.defense.health@));
            assert(k * bar >= 0) by (nonlinear_arith)
                requires
                    k >= 0,
                    bar >= 1,
            ;
            let extra = token_total(a.tokens@, Tally::Guard) + load(s, might, Load::Brace);
            lemma_flips_keep_wall(a.defense.health@, k, extra);
        }
    }
}

// ---------------------------------------------------------------------------------------------
// The remaining touches.
// ---------------------------------------------------------------------------------------------

/// The Cover tokens for a list of covered allies.
pub open spec fn cover_tokens(ts: Seq<usize>) -> Seq<Token> {
    Seq::new(ts.len(), |k: int| Token::Cover { ally: ts[k] })
}

pub proof fn lemma_cover_tokens_tally(ts: Seq<usize>, k: Tally)
    ensures
        token_total(cover_tokens(ts), k) == 0,
    decreases ts.len(),
{
    if ts.len() > 0 {
        lemma_cover_tokens_tally(ts.drop_first(), k);
        assert(cover_tokens(ts).drop_first() =~= cover_tokens(ts.drop_first()));
    }
}

/// Append a Cover token for each listed ally to body `me`'s tokens.
pub fn add_covers(pool: &mut [Actor], me: usize, ts: &Vec<usize>)
    requires
        me < old(pool)@.len(),
    ensures
        touched(old(pool)@, final(pool)@, seq![me], adds_tokens(cover_tokens(ts@))),
{
    let ghost p0 = pool@;
    let mut nt: Vec<Token> = Vec::new();
    let mut i: usize = 0;
    while i < pool[me].tokens.len()
        invariant
            pool@ == p0,
            me < p0.len(),
            i <= p0[me as int].tokens@.len(),
            nt@ == p0[me as int].tokens@.take(i as int),
        decreases pool[me as int].tokens@.len() - i,
    {
        nt.push(pool[me].tokens[i]);
        i = i + 1;
        assert(nt@ =~= p0[me as int].tokens@.take(i as int));
    }
    assert(p0[me as int].tokens@.take(i as int) =~= p0[me as int].tokens@);
    let mut k: usize = 0;
    while k < ts.len()
        invariant
            k <= ts@.len(),
            nt@ == p0[me as int].tokens@ + cover_tokens(ts@.take(k as int)),
        decreases ts.len() - k,
    {
        nt.push(Token::Cover { ally: ts[k] });
        k = k + 1;
        assert(nt@ =~= p0[me as int].tokens@ + cover_tokens(ts@.take(k as int)));
    }
    assert(ts@.take(k as int) =~= ts@);
    pool[me].tokens = nt;
    assert forall|j: int| 0 <= j < p0.len() implies (if seq![me].contains(j as usize) {
        adds_tokens(cover_tokens(ts@))(p0[j], #[trigger] pool@[j])
    } else {
        pool@[j] == p0[j]
    }) by {
        if j == me as int {
            assert(seq![me][0] == me);
        } else {
            if seq![me].contains(j as usize) {
                let q = choose|q: int| 0 <= q < 1 && #[trigger] seq![me][q] == j as usize;
            }
        }
    }
}

/// The narration of a Recover on one body that turned a card back up.
pub open spec fn recover_line(name: Seq<char>) -> Seq<char> {
    "  "@ + name + " turns a health card back up."@
}

/// The narration of a Recover on the listed bodies of `p`: a line for each body that had a card
/// face down, in list order.
pub open spec fn recover_lines(p: Seq<Actor>, ts: Seq<usize>) -> Seq<Seq<char>>
    decreases ts.len(),
{
    if ts.len() == 0 {
        seq![]
    } else {
        let a = p[ts.last() as int];
        recover_lines(p, ts.drop_last()) + if count_down(a.defense.health@) > 0 {
            seq![recover_line(a.name@)]
        } else {
            seq![]
        }
    }
}

/// The narration of a strike of `raw` from `by` on each listed body of `p0`, becoming that of `p1`.
pub open spec fn strike_lines(by: Seq<char>, p0: Seq<Actor>, p1: Seq<Actor>, ts: Seq<usize>, raw: u32) -> Seq<Seq<char>> {
    Seq::new(ts.len(), |k: int| hit_line(by, p0[ts[k] as int], p1[ts[k] as int], raw))
}

/// Recover one card on each listed body, narrating each body that turned a card back up.
pub fn recover_each(pool: &mut [Actor], ts: &Vec<usize>, log: &mut Vec<String>)
    requires
        targets_ok(ts@, old(pool)@.len()),
    ensures
        touched(old(pool)@, final(pool)@, ts@, recovers()),
        logged(old(log)@, final(log)@, recover_lines(old(pool)@, ts@)),
{
    let ghost p0 = pool@;
    proof {
        lemma_logged_refl(old(log)@);
        assert(ts@.take(0) =~= Seq::<usize>::empty());
    }
    let n_pool: usize = pool.len();
    let mut k: usize = 0;
    while k < ts.len()
        invariant
            k <= ts@.len(),
            p0 == old(pool)@,
            p0.len() == n_pool,
            pool@.len() == p0.len(),
            targets_ok(ts@, p0.len()),
            touched(p0, pool@, ts@.take(k as int), recovers()),
            logged(old(log)@, log@, recover_lines(p0, ts@.take(k as int))),
        decreases ts.len() - k,
    {
        let t = ts[k];
        let ghost mid = pool@;
        let ghost l0 = log@;
        proof {
            assert(!ts@.take(k as int).contains(t)) by {
                if ts@.take(k as int).contains(t) {
                    let m = choose|m: int| 0 <= m < k && #[trigger] ts@.take(k as int)[m] == t;
                    assert(ts@[m] == ts@[k as int]);
                }
            }
            assert(mid[t as int] == p0[t as int]);
        }
        let turned = pool[t].defense.recover_card();
        if turned > 0 {
            let mut line = String::from_str("  ");
            line.append(pool[t].name.as_str());
            line.append(" turns a health card back up.");
            log.push(line);
            proof {
                lemma_logged_trans(
                    old(log)@,
                    l0,
                    log@,
                    recover_lines(p0, ts@.take(k as int)),
                    seq![recover_line(p0[t as int].name@)],
                );
            }
        }
        proof {
            lemma_touch_step(p0, mid, pool@, ts@, k as int, recovers());
            assert(ts@.take(k + 1).drop_last() =~= ts@.take(k as int));
            assert(ts@.take(k + 1).last() == t);
            if turned == 0 {
                assert(recover_lines(p0, ts@.take(k + 1)) =~= recover_lines(p0, ts@.take(k as int)));
            }
        }
        k = k + 1;
    }
    proof {
        lemma_touch_all(p0, pool@, ts@, recovers());
        assert(ts@.take(k as int) =~= ts@);
    }
}

/// Strike each listed body with `raw` Might from `attacker` (each strike narrated).
pub fn strike_each(pool: &mut [Actor], ts: &Vec<usize>, raw: u32, attacker: &str, log: &mut Vec<String>)
    requires
        targets_ok(ts@, old(pool)@.len()),
        forall|q: int| 0 <= q < ts@.len() ==> strikable(#[trigger] old(pool)@[ts@[q] as int], raw),
    ensures
        touched(old(pool)@, final(pool)@, ts@, strikes(raw)),
        logged(old(log)@, final(log)@, strike_lines(attacker@, old(pool)@, final(pool)@, ts@, raw)),
{
    let ghost p0 = pool@;
    proof {
        lemma_logged_refl(old(log)@);
        assert(strike_lines(attacker@, p0, pool@, ts@.take(0), raw) =~= Seq::<Seq<char>>::empty());
    }
    let n_pool: usize = pool.len();
    let mut k: usize = 0;
    while k < ts.len()
        invariant
            k <= ts@.len(),
            p0 == old(pool)@,
            p0.len() == n_pool,
            pool@.len() == p0.len(),
            targets_ok(ts@, p0.len()),
            forall|q: int| 0 <= q < ts@.len() ==> strikable(#[trigger] p0[ts@[q] as int], raw),
            touched(p0, pool@, ts@.take(k as int), strikes(raw)),
            logged(old(log)@, log@, strike_lines(attacker@, p0, pool@, ts@.take(k as int), raw)),
        decreases ts.len() - k,
    {
        let t = ts[k];
        let ghost mid = pool@;
        let ghost l0 = log@;
        proof {
            assert(!ts@.take(k as int).contains(t)) by {
                if ts@.take(k as int).contains(t) {
                    let m = choose|m: int| 0 <= m < k && #[trigger] ts@.take(k as int)[m] == t;
                    assert(ts@[m] == ts@[k as int]);
                }
            }
            assert(mid[t as int] == p0[t as int]);
            assert(strikable(p0[ts@[k as int] as int], raw));
        }
        apply_strike(&mut pool[t], Strike { raw }, attacker, log);
        proof {
            lemma_touch_step(p0, mid, pool@, ts@, k as int, strikes(raw));
            let prev = strike_lines(attacker@, p0, mid, ts@.take(k as int), raw);
            let ln = hit_line(attacker@, p0[t as int], pool@[t as int], raw);
            lemma_logged_trans(old(log)@, l0, log@, prev, seq![ln]);
            assert forall|q: int| 0 <= q < k implies ts@[q] != t by {
                assert(ts@[q] != ts@[k as int]);
            }
            assert(strike_lines(attacker@, p0, pool@, ts@.take(k + 1), raw) =~= prev + seq![ln]);
        }
        k = k + 1;
    }
    proof {
        lemma_touch_all(p0, pool@, ts@, strikes(raw));
        assert(ts@.take(k as int) =~= ts@);
    }
}

// ---------------------------------------------------------------------------------------------
// One effect.
// ---------------------------------------------------------------------------------------------

/// Who a Damage effect strikes: the first `n` living foes — or, for a single-target hit (`n == 1`),
/// the first living foe's Cover redirect: the first living Wall covering it soaks the hit in its
/// place (an area hit bypasses Cover).
pub open spec fn dmg_targets(f: Seq<Actor>, n: nat) -> Seq<usize> {
    let alive = living_idx(f);
    if n == 1 {
        if alive.len() == 0 {
            seq![]
        } else {
            seq![cover_of(f, alive[0])]
        }
    } else {
        first_n(alive, n)
    }
}

/// The `n` most-wounded living bodies of a pool.
pub open spec fn most_wounded(p: Seq<Actor>, n: nat) -> Seq<usize> {
    first_n(wounded(p, living_idx(p)), n)
}

/// What one effect does to the foes (`f0` → `f1`) and allies (`a0` → `a1`) of a card played by a
/// body of Might `might` (the caster is ally `me`, when it is one), touching up to `n` bodies.
pub open spec fn effect_rel(
    e: Effect,
    n: nat,
    might: u32,
    me: Option<usize>,
    f0: Seq<Actor>,
    a0: Seq<Actor>,
    f1: Seq<Actor>,
    a1: Seq<Actor>,
) -> bool {
    let first_foes = first_n(living_idx(f0), n);
    match e {
        Effect::Damage { power } => a1 == a0 && touched(f0, f1, dmg_targets(f0, n), strikes((might + power) as u32)),
        Effect::Guard { tempo } => f1 == f0 && touched(a0, a1, self_ts(me), moves_tempo(tempo as int)),
        Effect::Lifeline => f1 == f0 && touched(a0, a1, self_ts(me), sets_status(Status::Lifeline)),
        Effect::Mend { vitality } => f1 == f0 && touched(a0, a1, most_wounded(a0, n), heals(vitality)),
        Effect::Ward => f1 == f0 && touched(a0, a1, first_n(ward_idx(a0, me), n), wards()),
        Effect::Haste { tempo } => f1 == f0 && touched(a0, a1, first_n(living_idx(a0), n), moves_tempo(tempo as int)),
        Effect::Empower { might: m } => f1 == f0 && touched(a0, a1, living_idx(a0), empowers(m)),
        Effect::Suppress { tempo } => a1 == a0 && touched(f0, f1, first_foes, moves_tempo(-(tempo as int))),
        Effect::Slow { cadence } => a1 == a0 && touched(f0, f1, first_foes, slows(cadence)),
        Effect::Confuse { tempo } => a1 == a0 && touched(f0, f1, first_foes, moves_tempo(-(tempo as int))),
        Effect::BankCadence { amount } => f1 == f0 && touched(a0, a1, self_ts(me), moves_tempo(amount as int)),
        Effect::Stagger => a1 == a0 && touched(f0, f1, first_foes, sets_status(Status::Stagger)),
        Effect::Shove => a1 == a0 && touched(f0, f1, first_foes, sets_status(Status::Shove)),
        Effect::Rout => a1 == a0 && touched(f0, f1, first_foes, sets_status(Status::Rout)),
        Effect::Disarm => a1 == a0 && touched(f0, f1, first_foes, sets_status(Status::Disarm)),
        Effect::Mark { finesse } => a1 == a0 && touched(f0, f1, first_foes, adds_tokens(copies(Token::Mark { finesse }, 1))),
        Effect::Mire { cadence } => a1 == a0 && touched(f0, f1, first_foes, adds_tokens(copies(Token::Mire { cadence }, 1))),
        Effect::Sunder { toughness } => a1 == a0 && touched(
            f0,
            f1,
            first_foes,
            adds_tokens(copies(Token::Sunder { toughness }, 1)),
        ),
        Effect::Defang { might: m } => a1 == a0 && touched(f0, f1, first_foes, adds_tokens(copies(Token::Defang { might: m }, 1))),
        Effect::Burn { stacks, power } => a1 == a0 && touched(
            f0,
            f1,
            first_foes,
            adds_tokens(copies(Token::Burn { power }, stacks as nat)),
        ),
        Effect::Brace { toughness } => f1 == f0 && touched(a0, a1, self_ts(me), adds_tokens(copies(Token::Guard { toughness }, 1))),
        Effect::Cover => f1 == f0 && match me {
            Some(i) => touched(
                a0,
                a1,
                seq![i],
                adds_tokens(cover_tokens(first_n(wounded(a0, idx_where(a0, others(i))), n))),
            ),
            None => a1 == a0,
        },
        Effect::Thorns { power } => f1 == f0 && touched(a0, a1, most_wounded(a0, n), adds_tokens(copies(Token::Thorns { power }, 1))),
        Effect::Charge { amount } => f1 == f0 && touched(a0, a1, self_ts(me), adds_tokens(copies(Token::Charge, amount as nat))),
        Effect::Smoke => f1 == f0 && touched(a0, a1, self_ts(me), adds_tokens(copies(Token::Smoke, 1))),
        Effect::Silence => f1 == f0 && a1 == a0,
        Effect::Pin => f1 == f0 && a1 == a0,
        Effect::Recover => f1 == f0 && touched(a0, a1, most_wounded(a0, n), recovers()),
    }
}

pub proof fn lemma_first_n_targets(s: Seq<usize>, n: nat, len: nat)
    requires
        targets_ok(s, len),
    ensures
        targets_ok(first_n(s, n), len),
{
}

/// Every selection a card makes from a pool is a valid target list.
pub proof fn lemma_selections(p: Seq<Actor>, n: nat, me: Option<usize>)
    requires
        p.len() <= usize::MAX,
    ensures
        targets_ok(living_idx(p), p.len()),
        targets_ok(first_n(living_idx(p), n), p.len()),
        targets_ok(most_wounded(p, n), p.len()),
        targets_ok(first_n(ward_idx(p, me), n), p.len()),
        forall|i: usize| targets_ok(first_n(wounded(p, idx_where(p, others(i))), n), p.len()),
        targets_ok(dmg_targets(p, n), p.len()),
{
    lemma_living_is_where(p);
    lemma_idx_where(p, is_living());
    lemma_first_n_ok(living_idx(p), n, p.len());
    lemma_wounded(p, living_idx(p), p.len());
    lemma_first_n_targets(wounded(p, living_idx(p)), n, p.len());
    lemma_idx_where(p, wardable(me));
    lemma_first_n_ok(ward_idx(p, me), n, p.len());
    assert forall|i: usize| targets_ok(first_n(wounded(p, idx_where(p, others(i))), n), p.len()) by {
        lemma_idx_where(p, others(i));
        lemma_wounded(p, idx_where(p, others(i)), p.len());
        lemma_first_n_targets(wounded(p, idx_where(p, others(i))), n, p.len());
    }
    let alive = living_idx(p);
    if n == 1 && alive.len() >= 1 {
        lemma_cover_from(p, alive[0], 0);
    }
}

/// Every body of `p0` that is fallen or down is still so in `p1` (nothing is revived).
pub open spec fn dead_kept(p0: Seq<Actor>, p1: Seq<Actor>) -> bool {
    &&& p1.len() == p0.len()
    &&& forall|j: int|
        0 <= j < p0.len() ==> (p0[j].fallen ==> (#[trigger] p1[j]).fallen) && (actor_down(p0[j]) ==> actor_down(p1[j]))
}

pub proof fn lemma_dead_kept_refl(p: Seq<Actor>)
    ensures
        dead_kept(p, p),
{
}

pub proof fn lemma_dead_kept_trans(p0: Seq<Actor>, p1: Seq<Actor>, p2: Seq<Actor>)
    requires
        dead_kept(p0, p1),
        dead_kept(p1, p2),
    ensures
        dead_kept(p0, p2),
{
    assert forall|j: int| 0 <= j < p0.len() implies (p0[j].fallen ==> (#[trigger] p2[j]).fallen) && (actor_down(p0[j])
        ==> actor_down(p2[j])) by {
        assert(p1[j] == p1[j]);
    }
}

/// A touch by an op that revives nobody, or that touches only living bodies, revives nobody.
proof fn lemma_touch_dead_kept(p0: Seq<Actor>, p1: Seq<Actor>, ts: Seq<usize>, f: spec_fn(Actor, Actor) -> bool)
    requires
        touched(p0, p1, ts, f),
        forall|a: Actor, b: Actor|
            #[trigger] f(a, b) ==> b.fallen == a.fallen && (actor_down(a) ==> actor_down(b)) || !actor_down(a) && b.fallen
                == a.fallen,
    ensures
        dead_kept(p0, p1),
{
    assert forall|j: int| 0 <= j < p0.len() implies (p0[j].fallen ==> (#[trigger] p1[j]).fallen) && (actor_down(p0[j])
        ==> actor_down(p1[j])) by {
        if ts.contains(j as usize) {
            assert(f(p0[j], p1[j]));
        }
    }
}

/// Heals and recoveries on living targets only revive nobody.
proof fn lemma_touch_living_dead_kept(p0: Seq<Actor>, p1: Seq<Actor>, ts: Seq<usize>, f: spec_fn(Actor, Actor) -> bool)
    requires
        touched(p0, p1, ts, f),
        p0.len() <= usize::MAX,
        forall|k: int| 0 <= k < ts.len() ==> !actor_down(p0[ts[k] as int]),
        forall|a: Actor, b: Actor| #[trigger] f(a, b) ==> b.fallen == a.fallen,
    ensures
        dead_kept(p0, p1),
{
    assert forall|j: int| 0 <= j < p0.len() implies (p0[j].fallen ==> (#[trigger] p1[j]).fallen) && (actor_down(p0[j])
        ==> actor_down(p1[j])) by {
        if ts.contains(j as usize) {
            let k = choose|k: int| 0 <= k < ts.len() && ts[k] == j as usize;
            assert(!actor_down(p0[ts[k] as int]));
            assert(ts[k] as int == j);
            assert(f(p0[j], p1[j]));
        }
    }
}

/// The most-wounded selection picks living bodies only.
proof fn lemma_most_wounded_living(p: Seq<Actor>, n: nat)
    requires
        p.len() <= usize::MAX,
    ensures
        forall|k: int| 0 <= k < most_wounded(p, n).len() ==> !actor_down(p[most_wounded(p, n)[k] as int]),
{
    lemma_living_is_where(p);
    lemma_idx_where(p, is_living());
    lemma_first_n_ok(living_idx(p), n, p.len());
    lemma_wounded(p, living_idx(p), p.len());
    let w = wounded(p, living_idx(p));
    assert forall|k: int| 0 <= k < most_wounded(p, n).len() implies !actor_down(p[most_wounded(p, n)[k] as int]) by {
        let y = most_wounded(p, n)[k];
        assert(w.contains(y)) by {
            assert(w[k] == y);
        }
        assert(living_idx(p).contains(y));
        assert(targets_ok(living_idx(p), p.len()));
        let q = choose|q: int| 0 <= q < living_idx(p).len() && living_idx(p)[q] == y;
        assert((y as int) < p.len());
    }
}

/// **An effect revives nobody**: whatever one effect of a card does, a fallen or downed body on
/// either side stays so.
pub proof fn lemma_effect_dead_kept(
    e: Effect,
    n: nat,
    might: u32,
    me: Option<usize>,
    f0: Seq<Actor>,
    a0: Seq<Actor>,
    f1: Seq<Actor>,
    a1: Seq<Actor>,
)
    requires
        effect_rel(e, n, might, me, f0, a0, f1, a1),
        f0.len() <= usize::MAX,
        a0.len() <= usize::MAX,
    ensures
        dead_kept(f0, f1),
        dead_kept(a0, a1),
{
    lemma_dead_kept_refl(f0);
    lemma_dead_kept_refl(a0);
    let first_foes = first_n(living_idx(f0), n);
    match e {
        Effect::Damage { power } => {
            lemma_touch_dead_kept(f0, f1, dmg_targets(f0, n), strikes((might + power) as u32));
        },
        Effect::Guard { tempo } => {
            lemma_touch_dead_kept(a0, a1, self_ts(me), moves_tempo(tempo as int));
        },
        Effect::Lifeline => {
            lemma_touch_dead_kept(a0, a1, self_ts(me), sets_status(Status::Lifeline));
        },
        Effect::Mend { vitality } => {
            lemma_most_wounded_living(a0, n);
            lemma_touch_living_dead_kept(a0, a1, most_wounded(a0, n), heals(vitality));
        },
        Effect::Ward => {
            lemma_touch_dead_kept(a0, a1, first_n(ward_idx(a0, me), n), wards());
        },
        Effect::Haste { tempo } => {
            lemma_touch_dead_kept(a0, a1, first_n(living_idx(a0), n), moves_tempo(tempo as int));
        },
        Effect::Empower { might: m } => {
            lemma_touch_dead_kept(a0, a1, living_idx(a0), empowers(m));
        },
        Effect::Suppress { tempo } => {
            lemma_touch_dead_kept(f0, f1, first_foes, moves_tempo(-(tempo as int)));
        },
        Effect::Slow { cadence } => {
            lemma_touch_dead_kept(f0, f1, first_foes, slows(cadence));
        },
        Effect::Confuse { tempo } => {
            lemma_touch_dead_kept(f0, f1, first_foes, moves_tempo(-(tempo as int)));
        },
        Effect::BankCadence { amount } => {
            lemma_touch_dead_kept(a0, a1, self_ts(me), moves_tempo(amount as int));
        },
        Effect::Stagger => {
            lemma_touch_dead_kept(f0, f1, first_foes, sets_status(Status::Stagger));
        },
        Effect::Shove => {
            lemma_touch_dead_kept(f0, f1, first_foes, sets_status(Status::Shove));
        },
        Effect::Rout => {
            lemma_touch_dead_kept(f0, f1, first_foes, sets_status(Status::Rout));
        },
        Effect::Disarm => {
            lemma_touch_dead_kept(f0, f1, first_foes, sets_status(Status::Disarm));
        },
        Effect::Mark { finesse } => {
            lemma_touch_dead_kept(f0, f1, first_foes, adds_tokens(copies(Token::Mark { finesse }, 1)));
        },
        Effect::Mire { cadence } => {
            lemma_touch_dead_kept(f0, f1, first_foes, adds_tokens(copies(Token::Mire { cadence }, 1)));
        },
        Effect::Sunder { toughness } => {
            lemma_touch_dead_kept(f0, f1, first_foes, adds_tokens(copies(Token::Sunder { toughness }, 1)));
        },
        Effect::Defang { might: m } => {
            lemma_touch_dead_kept(f0, f1, first_foes, adds_tokens(copies(Token::Defang { might: m }, 1)));
        },
        Effect::Burn { stacks, power } => {
            lemma_touch_dead_kept(f0, f1, first_foes, adds_tokens(copies(Token::Burn { power }, stacks as nat)));
        },
        Effect::Brace { toughness } => {
            lemma_touch_dead_kept(a0, a1, self_ts(me), adds_tokens(copies(Token::Guard { toughness }, 1)));
        },
        Effect::Cover => {
            match me {
                Some(i) => {
                    lemma_touch_dead_kept(
                        a0,
                        a1,
                        seq![i],
                        adds_tokens(cover_tokens(first_n(wounded(a0, idx_where(a0, others(i))), n))),
                    );
                },
                None => {},
            }
        },
        Effect::Thorns { power } => {
            lemma_touch_dead_kept(a0, a1, most_wounded(a0, n), adds_tokens(copies(Token::Thorns { power }, 1)));
        },
        Effect::Charge { amount } => {
            lemma_touch_dead_kept(a0, a1, self_ts(me), adds_tokens(copies(Token::Charge, amount as nat)));
        },
        Effect::Smoke => {
            lemma_touch_dead_kept(a0, a1, self_ts(me), adds_tokens(copies(Token::Smoke, 1)));
        },
        Effect::Silence => {},
        Effect::Pin => {},
        Effect::Recover => {
            lemma_most_wounded_living(a0, n);
            lemma_touch_living_dead_kept(a0, a1, most_wounded(a0, n), recovers());
        },
    }
}

/// The narration of one effect (see [`effect_rel`]) of a card played by `name`, taking the foes from
/// `f0` to `f1` and the allies from `a0` to `a1`.
pub open spec fn effect_lines(
    e: Effect,
    n: nat,
    might: u32,
    me: Option<usize>,
    name: Seq<char>,
    f0: Seq<Actor>,
    a0: Seq<Actor>,
    f1: Seq<Actor>,
    a1: Seq<Actor>,
) -> Seq<Seq<char>> {
    let first_foes = first_n(living_idx(f0), n);
    let solo = me is Some;
    match e {
        Effect::Damage { power } => strike_lines(name, f0, f1, dmg_targets(f0, n), (might + power) as u32),
        Effect::Guard { tempo } => if solo {
            seq!["  braces (+"@ + decimal(tempo as nat) + " Tempo)."@]
        } else {
            seq![]
        },
        Effect::Lifeline => if solo {
            seq!["  steels for a last stand — it cannot fall this round."@]
        } else {
            seq![]
        },
        Effect::Mend { vitality } => each_line(
            a1,
            most_wounded(a0, n),
            "  mends "@,
            " (+"@ + decimal(vitality as nat) + " health)."@,
        ),
        Effect::Ward => each_line(a1, first_n(ward_idx(a0, me), n), "  wards "@, " (gains a melee guard)."@),
        Effect::Haste { tempo } => each_line(
            a1,
            first_n(living_idx(a0), n),
            "  +"@ + decimal(tempo as nat) + " Tempo to "@,
            "."@,
        ),
        Effect::Empower { might: m } => seq!["  empowers the line (+"@ + decimal(m as nat) + " Might)."@],
        Effect::Suppress { tempo } => each_line(f1, first_foes, "  suppresses "@, " (-"@ + decimal(tempo as nat) + " Tempo)."@),
        Effect::Slow { cadence } => each_line(f1, first_foes, "  slows "@, " (-"@ + decimal(cadence as nat) + " Cadence)."@),
        Effect::Confuse { tempo } => each_line(f1, first_foes, "  confuses "@, " (-"@ + decimal(tempo as nat) + " Tempo)."@),
        Effect::BankCadence { amount } => seq!["  +"@ + decimal(amount as nat) + " Tempo banked."@],
        Effect::Stagger => each_line(f1, first_foes, "  staggers "@, " (loses its action)."@),
        Effect::Shove => each_line(f1, first_foes, "  shoves "@, " out of the line."@),
        Effect::Rout => each_line(f1, first_foes, "  routs "@, " — driven from the line."@),
        Effect::Disarm => each_line(f1, first_foes, "  disarms "@, " (cannot play cards)."@),
        Effect::Mark { finesse } => each_line(f1, first_foes, "  marks "@, " (-"@ + decimal(finesse as nat) + " Finesse)."@),
        Effect::Mire { cadence } => each_line(f1, first_foes, "  mires "@, " (-"@ + decimal(cadence as nat) + " Cadence)."@),
        Effect::Sunder { toughness } => each_line(
            f1,
            first_foes,
            "  sunders "@,
            " (-"@ + decimal(toughness as nat) + " Toughness)."@,
        ),
        Effect::Defang { might: m } => each_line(f1, first_foes, "  defangs "@, " (-"@ + decimal(m as nat) + " Might)."@),
        Effect::Burn { stacks, power } => each_line(
            f1,
            first_foes,
            "  ignites "@,
            " ("@ + decimal(stacks as nat) + "x"@ + decimal(power as nat) + " Burn)."@,
        ),
        Effect::Brace { toughness } => if solo {
            seq!["  braces (+"@ + decimal(toughness as nat) + " Toughness this round)."@]
        } else {
            seq![]
        },
        Effect::Cover => match me {
            Some(i) => each_line(
                a1,
                first_n(wounded(a0, idx_where(a0, others(i))), n),
                "  covers "@,
                " (damage spills to "@ + a1[i as int].name@ + ")."@,
            ),
            None => seq![],
        },
        Effect::Thorns { power } => each_line(
            a1,
            most_wounded(a0, n),
            "  wards "@,
            " with thorns ("@ + decimal(power as nat) + ")."@,
        ),
        Effect::Charge { amount } => if solo {
            seq!["  banks "@ + decimal(amount as nat) + " Charge."@]
        } else {
            seq![]
        },
        Effect::Smoke => if solo {
            seq!["  veils in smoke (next charge ignores the pre-empt)."@]
        } else {
            seq![]
        },
        Effect::Silence => seq!["  silences a held enemy spell (a deferred effect is cancelled)."@],
        Effect::Pin => seq!["  pins an enemy Vanguard with suppressive fire (its charge is denied)."@],
        Effect::Recover => recover_lines(a0, most_wounded(a0, n)),
    }
}

/// `base` then a decimal number then `tail`.
fn num_line(base: &str, n: u32, tail: &str) -> (s: String)
    ensures
        s@ == base@ + crate::text::decimal(n as nat) + tail@,
{
    let mut line = String::from_str(base);
    crate::text::push_num(&mut line, n as u64);
    line.append(tail);
    line
}

/// Narrate one fixed line.
fn say(text: &str, log: &mut Vec<String>)
    ensures
        crate::combat::logged(old(log)@, final(log)@, seq![text@]),
{
    log.push(String::from_str(text));
}

/// Apply one effect of a card played by `name` (Might `might`; ally `me` when the caster is one)
/// to the foes and allies, touching up to `n` bodies, and narrate it. The pools' budget is judged
/// against a Might of `bound` (at least `might`).
pub(crate) fn apply_effect(
    e: Effect,
    es: Ghost<Seq<Effect>>,
    n: usize,
    might: u32,
    name: &str,
    foes: &mut [Actor],
    allies: &mut [Actor],
    me: Option<usize>,
    log: &mut Vec<String>,
    bound: Ghost<u32>,
)
    requires
        might <= bound@,
        es@.len() > 0,
        es@[0] == e,
        n >= 1,
        effect_in_range(e, might),
        me matches Some(i) ==> i < old(allies)@.len(),
        pool_fits(old(foes)@, es@, bound@),
        pool_fits(old(allies)@, es@, bound@),
    ensures
        effect_rel(e, n as nat, might, me, old(foes)@, old(allies)@, final(foes)@, final(allies)@),
        pool_fits(final(foes)@, es@.drop_first(), bound@),
        pool_fits(final(allies)@, es@.drop_first(), bound@),
        logged(
            old(log)@,
            final(log)@,
            effect_lines(e, n as nat, might, me, name@, old(foes)@, old(allies)@, final(foes)@, final(allies)@),
        ),
{
    let ghost f0 = foes@;
    let ghost a0 = allies@;
    let _nf: usize = foes.len();
    let _na: usize = allies.len();
    proof {
        lemma_selections(f0, n as nat, me);
        lemma_selections(a0, n as nat, me);
    }
    match e {
        Effect::Damage { power } => {
            let raw = might + power;
            let alive = living(foes);
            let ts: Vec<usize> = if n == 1 {
                if alive.len() == 0 {
                    Vec::new()
                } else {
                    let dst = cover_redirect(foes, alive[0]);
                    let mut v: Vec<usize> = Vec::new();
                    v.push(dst);
                    v
                }
            } else {
                take_first(&alive, n)
            };
            assert(ts@ == dmg_targets(f0, n as nat)) by {
                if n == 1 && alive@.len() >= 1 {
                    assert(ts@ =~= seq![cover_of(f0, alive@[0])]);
                }
            }
            proof {
                assert forall|q: int| 0 <= q < ts@.len() implies strikable(#[trigger] f0[ts@[q] as int], raw) by {
                    lemma_fits_strikable(f0[ts@[q] as int], es@, bound@, raw);
                }
            }
            strike_each(foes, &ts, raw, name, log);
            proof {
                lemma_fit_strike(es@, bound@, raw);
                lemma_touch_keeps_fit(f0, foes@, ts@, strikes(raw), es@, bound@);
                lemma_same_keeps_fit(a0, es@, bound@);
            }
        },
        Effect::Guard { tempo } => {
            if let Some(i) = me {
                let mut ts: Vec<usize> = Vec::new();
                ts.push(i);
                assert(ts@ =~= self_ts(me));
                shift_tempo(allies, &ts, tempo as i32);
                proof {
                    lemma_fit_tempo(es@, bound@, tempo as int);
                    lemma_touch_keeps_fit(a0, allies@, ts@, moves_tempo(tempo as int), es@, bound@);
                    lemma_same_keeps_fit(f0, es@, bound@);
                }
                log.push(num_line("  braces (+", tempo, " Tempo)."));
            } else {
                proof {
                    lemma_same_keeps_fit(a0, es@, bound@);
                    lemma_same_keeps_fit(f0, es@, bound@);
                }
            }
            
        },
        Effect::Lifeline => {
            if let Some(i) = me {
                let mut ts: Vec<usize> = Vec::new();
                ts.push(i);
                assert(ts@ =~= self_ts(me));
                set_status(allies, &ts, Status::Lifeline);
                proof {
                    lemma_fit_status(es@, bound@, Status::Lifeline);
                    lemma_touch_keeps_fit(a0, allies@, ts@, sets_status(Status::Lifeline), es@, bound@);
                    lemma_same_keeps_fit(f0, es@, bound@);
                }
                say("  steels for a last stand — it cannot fall this round.", log);
            } else {
                proof {
                    lemma_same_keeps_fit(a0, es@, bound@);
                    lemma_same_keeps_fit(f0, es@, bound@);
                }
            }
            
        },
        Effect::Mend { vitality } => {
            let alive = living(allies);
            let order = sort_wounded(allies, &alive);
            let ts = take_first(&order, n);
            heal_each(allies, &ts, vitality);
            proof {
                lemma_fit_heal(es@, bound@, vitality);
                lemma_touch_keeps_fit(a0, allies@, ts@, heals(vitality), es@, bound@);
                lemma_same_keeps_fit(f0, es@, bound@);
            }
            let after = num_line(" (+", vitality, " health).");
            say_each(allies, &ts, "  mends ", after.as_str(), log);
        },
        Effect::Ward => {
            let cands = wardable_idx(allies, me);
            let ts = take_first(&cands, n);
            ward_each(allies, &ts);
            proof {
                lemma_fit_ward(es@, bound@);
                lemma_touch_keeps_fit(a0, allies@, ts@, wards(), es@, bound@);
                lemma_same_keeps_fit(f0, es@, bound@);
            }
            say_each(allies, &ts, "  wards ", " (gains a melee guard).", log);
        },
        Effect::Haste { tempo } => {
            let alive = living(allies);
            let ts = take_first(&alive, n);
            shift_tempo(allies, &ts, tempo as i32);
            proof {
                lemma_fit_tempo(es@, bound@, tempo as int);
                lemma_touch_keeps_fit(a0, allies@, ts@, moves_tempo(tempo as int), es@, bound@);
                lemma_same_keeps_fit(f0, es@, bound@);
            }
            let before = num_line("  +", tempo, " Tempo to ");
            say_each(allies, &ts, before.as_str(), ".", log);
        },
        Effect::Empower { might: m } => {
            let ts = living(allies);
            empower_each(allies, &ts, m);
            proof {
                lemma_fit_empower(es@, bound@, m);
                lemma_touch_keeps_fit(a0, allies@, ts@, empowers(m), es@, bound@);
                lemma_same_keeps_fit(f0, es@, bound@);
            }
            log.push(num_line("  empowers the line (+", m, " Might)."));
        },
        Effect::Suppress { tempo } => {
            let alive = living(foes);
            let ts = take_first(&alive, n);
            shift_tempo(foes, &ts, -(tempo as i32));
            proof {
                lemma_fit_tempo(es@, bound@, -(tempo as int));
                lemma_touch_keeps_fit(f0, foes@, ts@, moves_tempo(-(tempo as int)), es@, bound@);
                lemma_same_keeps_fit(a0, es@, bound@);
            }
            let after = num_line(" (-", tempo, " Tempo).");
            say_each(foes, &ts, "  suppresses ", after.as_str(), log);
        },
        Effect::Slow { cadence } => {
            let alive = living(foes);
            let ts = take_first(&alive, n);
            slow_each(foes, &ts, cadence);
            proof {
                lemma_fit_slow(es@, bound@, cadence);
                lemma_touch_keeps_fit(f0, foes@, ts@, slows(cadence), es@, bound@);
                lemma_same_keeps_fit(a0, es@, bound@);
            }
            let after = num_line(" (-", cadence, " Cadence).");
            say_each(foes, &ts, "  slows ", after.as_str(), log);
        },
        Effect::Confuse { tempo } => {
            let alive = living(foes);
            let ts = take_first(&alive, n);
            shift_tempo(foes, &ts, -(tempo as i32));
            proof {
                lemma_fit_tempo(es@, bound@, -(tempo as int));
                lemma_touch_keeps_fit(f0, foes@, ts@, moves_tempo(-(tempo as int)), es@, bound@);
                lemma_same_keeps_fit(a0, es@, bound@);
            }
            let after = num_line(" (-", tempo, " Tempo).");
            say_each(foes, &ts, "  confuses ", after.as_str(), log);
        },
        Effect::BankCadence { amount } => {
            if let Some(i) = me {
                let mut ts: Vec<usize> = Vec::new();
                ts.push(i);
                assert(ts@ =~= self_ts(me));
                shift_tempo(allies, &ts, amount as i32);
                proof {
                    lemma_fit_tempo(es@, bound@, amount as int);
                    lemma_touch_keeps_fit(a0, allies@, ts@, moves_tempo(amount as int), es@, bound@);
                    lemma_same_keeps_fit(f0, es@, bound@);
                }
                
            } else {
                proof {
                    lemma_same_keeps_fit(a0, es@, bound@);
                    lemma_same_keeps_fit(f0, es@, bound@);
                }
            }
            log.push(num_line("  +", amount, " Tempo banked."));
        },
        Effect::Stagger => {
            let alive = living(foes);
            let ts = take_first(&alive, n);
            set_status(foes, &ts, Status::Stagger);
            proof {
                lemma_fit_status(es@, bound@, Status::Stagger);
                lemma_touch_keeps_fit(f0, foes@, ts@, sets_status(Status::Stagger), es@, bound@);
                lemma_same_keeps_fit(a0, es@, bound@);
            }
            say_each(foes, &ts, "  staggers ", " (loses its action).", log);
        },
        Effect::Shove => {
            let alive = living(foes);
            let ts = take_first(&alive, n);
            set_status(foes, &ts, Status::Shove);
            proof {
                lemma_fit_status(es@, bound@, Status::Shove);
                lemma_touch_keeps_fit(f0, foes@, ts@, sets_status(Status::Shove), es@, bound@);
                lemma_same_keeps_fit(a0, es@, bound@);
            }
            say_each(foes, &ts, "  shoves ", " out of the line.", log);
        },
        Effect::Rout => {
            let alive = living(foes);
            let ts = take_first(&alive, n);
            set_status(foes, &ts, Status::Rout);
            proof {
                lemma_fit_status(es@, bound@, Status::Rout);
                lemma_touch_keeps_fit(f0, foes@, ts@, sets_status(Status::Rout), es@, bound@);
                lemma_same_keeps_fit(a0, es@, bound@);
            }
            say_each(foes, &ts, "  routs ", " — driven from the line.", log);
        },
        Effect::Disarm => {
            let alive = living(foes);
            let ts = take_first(&alive, n);
            set_status(foes, &ts, Status::Disarm);
            proof {
                lemma_fit_status(es@, bound@, Status::Disarm);
                lemma_touch_keeps_fit(f0, foes@, ts@, sets_status(Status::Disarm), es@, bound@);
                lemma_same_keeps_fit(a0, es@, bound@);
            }
            say_each(foes, &ts, "  disarms ", " (cannot play cards).", log);
        },
        Effect::Mark { finesse } => {
            let alive = living(foes);
            let ts = take_first(&alive, n);
            add_tokens(foes, &ts, Token::Mark { finesse: finesse }, 1);
            proof {
                lemma_token_total_copies(Token::Mark { finesse: finesse }, 1, Tally::Mark); lemma_token_total_copies(Token::Mark { finesse: finesse }, 1, Tally::Mire); lemma_token_total_copies(Token::Mark { finesse: finesse }, 1, Tally::Sunder); lemma_token_total_copies(Token::Mark { finesse: finesse }, 1, Tally::Defang); lemma_token_total_copies(Token::Mark { finesse: finesse }, 1, Tally::Thorns); lemma_token_total_copies(Token::Mark { finesse: finesse }, 1, Tally::Guard); lemma_fit_tokens(es@, bound@, copies(Token::Mark { finesse: finesse }, 1));
                lemma_touch_keeps_fit(f0, foes@, ts@, adds_tokens(copies(Token::Mark { finesse: finesse }, 1)), es@, bound@);
                lemma_same_keeps_fit(a0, es@, bound@);
            }
            let after = num_line(" (-", finesse, " Finesse).");
            say_each(foes, &ts, "  marks ", after.as_str(), log);
        },
        Effect::Mire { cadence } => {
            let alive = living(foes);
            let ts = take_first(&alive, n);
            add_tokens(foes, &ts, Token::Mire { cadence: cadence }, 1);
            proof {
                lemma_token_total_copies(Token::Mire { cadence: cadence }, 1, Tally::Mark); lemma_token_total_copies(Token::Mire { cadence: cadence }, 1, Tally::Mire); lemma_token_total_copies(Token::Mire { cadence: cadence }, 1, Tally::Sunder); lemma_token_total_copies(Token::Mire { cadence: cadence }, 1, Tally::Defang); lemma_token_total_copies(Token::Mire { cadence: cadence }, 1, Tally::Thorns); lemma_token_total_copies(Token::Mire { cadence: cadence }, 1, Tally::Guard); lemma_fit_tokens(es@, bound@, copies(Token::Mire { cadence: cadence }, 1));
                lemma_touch_keeps_fit(f0, foes@, ts@, adds_tokens(copies(Token::Mire { cadence: cadence }, 1)), es@, bound@);
                lemma_same_keeps_fit(a0, es@, bound@);
            }
            let after = num_line(" (-", cadence, " Cadence).");
            say_each(foes, &ts, "  mires ", after.as_str(), log);
        },
        Effect::Sunder { toughness } => {
            let alive = living(foes);
            let ts = take_first(&alive, n);
            add_tokens(foes, &ts, Token::Sunder { toughness: toughness }, 1);
            proof {
                lemma_token_total_copies(Token::Sunder { toughness: toughness }, 1, Tally::Mark); lemma_token_total_copies(Token::Sunder { toughness: toughness }, 1, Tally::Mire); lemma_token_total_copies(Token::Sunder { toughness: toughness }, 1, Tally::Sunder); lemma_token_total_copies(Token::Sunder { toughness: toughness }, 1, Tally::Defang); lemma_token_total_copies(Token::Sunder { toughness: toughness }, 1, Tally::Thorns); lemma_token_total_copies(Token::Sunder { toughness: toughness }, 1, Tally::Guard); lemma_fit_tokens(es@, bound@, copies(Token::Sunder { toughness: toughness }, 1));
                lemma_touch_keeps_fit(f0, foes@, ts@, adds_tokens(copies(Token::Sunder { toughness: toughness }, 1)), es@, bound@);
                lemma_same_keeps_fit(a0, es@, bound@);
            }
            let after = num_line(" (-", toughness, " Toughness).");
            say_each(foes, &ts, "  sunders ", after.as_str(), log);
        },
        Effect::Defang { might: m } => {
            let alive = living(foes);
            let ts = take_first(&alive, n);
            add_tokens(foes, &ts, Token::Defang { might: m }, 1);
            proof {
                lemma_token_total_copies(Token::Defang { might: m }, 1, Tally::Mark); lemma_token_total_copies(Token::Defang { might: m }, 1, Tally::Mire); lemma_token_total_copies(Token::Defang { might: m }, 1, Tally::Sunder); lemma_token_total_copies(Token::Defang { might: m }, 1, Tally::Defang); lemma_token_total_copies(Token::Defang { might: m }, 1, Tally::Thorns); lemma_token_total_copies(Token::Defang { might: m }, 1, Tally::Guard); lemma_fit_tokens(es@, bound@, copies(Token::Defang { might: m }, 1));
                lemma_touch_keeps_fit(f0, foes@, ts@, adds_tokens(copies(Token::Defang { might: m }, 1)), es@, bound@);
                lemma_same_keeps_fit(a0, es@, bound@);
            }
            let after = num_line(" (-", m, " Might).");
            say_each(foes, &ts, "  defangs ", after.as_str(), log);
        },
        Effect::Burn { stacks, power } => {
            let alive = living(foes);
            let ts = take_first(&alive, n);
            add_tokens(foes, &ts, Token::Burn { power }, stacks);
            proof {
                lemma_token_total_copies(Token::Burn { power }, stacks as nat, Tally::Mark); lemma_token_total_copies(Token::Burn { power }, stacks as nat, Tally::Mire); lemma_token_total_copies(Token::Burn { power }, stacks as nat, Tally::Sunder); lemma_token_total_copies(Token::Burn { power }, stacks as nat, Tally::Defang); lemma_token_total_copies(Token::Burn { power }, stacks as nat, Tally::Thorns); lemma_token_total_copies(Token::Burn { power }, stacks as nat, Tally::Guard); lemma_fit_tokens(es@, bound@, copies(Token::Burn { power }, stacks as nat));
                lemma_touch_keeps_fit(f0, foes@, ts@, adds_tokens(copies(Token::Burn { power }, stacks as nat)), es@, bound@);
                lemma_same_keeps_fit(a0, es@, bound@);
            }
            let mut after = num_line(" (", stacks, "x");
            crate::text::push_num(&mut after, power as u64);
            after.append(" Burn).");
            say_each(foes, &ts, "  ignites ", after.as_str(), log);
        },
        Effect::Brace { toughness } => {
            if let Some(i) = me {
                let mut ts: Vec<usize> = Vec::new();
                ts.push(i);
                assert(ts@ =~= self_ts(me));
                add_tokens(allies, &ts, Token::Guard { toughness }, 1);
                proof {
                    lemma_token_total_copies(Token::Guard { toughness }, 1, Tally::Mark); lemma_token_total_copies(Token::Guard { toughness }, 1, Tally::Mire); lemma_token_total_copies(Token::Guard { toughness }, 1, Tally::Sunder); lemma_token_total_copies(Token::Guard { toughness }, 1, Tally::Defang); lemma_token_total_copies(Token::Guard { toughness }, 1, Tally::Thorns); lemma_token_total_copies(Token::Guard { toughness }, 1, Tally::Guard); lemma_fit_tokens(es@, bound@, copies(Token::Guard { toughness }, 1));
                    lemma_touch_keeps_fit(a0, allies@, ts@, adds_tokens(copies(Token::Guard { toughness }, 1)), es@, bound@);
                    lemma_same_keeps_fit(f0, es@, bound@);
                }
                log.push(num_line("  braces (+", toughness, " Toughness this round)."));
            } else {
                proof {
                    lemma_same_keeps_fit(a0, es@, bound@);
                    lemma_same_keeps_fit(f0, es@, bound@);
                }
            }
            
        },
        Effect::Cover => {
            if let Some(i) = me {
                let cands = others_idx(allies, i);
                proof {
                    lemma_idx_where(a0, others(i));
                }
                let order = sort_wounded(allies, &cands);
                let ts = take_first(&order, n);
                add_covers(allies, i, &ts);
                proof {
                    lemma_cover_tokens_tally(ts@, Tally::Mark);
                    lemma_cover_tokens_tally(ts@, Tally::Mire);
                    lemma_cover_tokens_tally(ts@, Tally::Sunder);
                    lemma_cover_tokens_tally(ts@, Tally::Defang);
                    lemma_cover_tokens_tally(ts@, Tally::Thorns);
                    lemma_cover_tokens_tally(ts@, Tally::Guard);
                    lemma_fit_tokens(es@, bound@, cover_tokens(ts@));
                    lemma_touch_keeps_fit(a0, allies@, seq![i], adds_tokens(cover_tokens(ts@)), es@, bound@);
                    lemma_same_keeps_fit(f0, es@, bound@);
                }
                let mut after = String::from_str(" (damage spills to ");
                after.append(allies[i].name.as_str());
                after.append(").");
                say_each(allies, &ts, "  covers ", after.as_str(), log);
            } else {
                proof {
                    lemma_same_keeps_fit(a0, es@, bound@);
                    lemma_same_keeps_fit(f0, es@, bound@);
                }
            }
        },
        Effect::Thorns { power } => {
            let alive = living(allies);
            let order = sort_wounded(allies, &alive);
            let ts = take_first(&order, n);
            add_tokens(allies, &ts, Token::Thorns { power }, 1);
            proof {
                lemma_token_total_copies(Token::Thorns { power }, 1, Tally::Mark); lemma_token_total_copies(Token::Thorns { power }, 1, Tally::Mire); lemma_token_total_copies(Token::Thorns { power }, 1, Tally::Sunder); lemma_token_total_copies(Token::Thorns { power }, 1, Tally::Defang); lemma_token_total_copies(Token::Thorns { power }, 1, Tally::Thorns); lemma_token_total_copies(Token::Thorns { power }, 1, Tally::Guard); lemma_fit_tokens(es@, bound@, copies(Token::Thorns { power }, 1));
                lemma_touch_keeps_fit(a0, allies@, ts@, adds_tokens(copies(Token::Thorns { power }, 1)), es@, bound@);
                lemma_same_keeps_fit(f0, es@, bound@);
            }
            let after = num_line(" with thorns (", power, ").");
            say_each(allies, &ts, "  wards ", after.as_str(), log);
        },
        Effect::Charge { amount } => {
            if let Some(i) = me {
                let mut ts: Vec<usize> = Vec::new();
                ts.push(i);
                assert(ts@ =~= self_ts(me));
                add_tokens(allies, &ts, Token::Charge, amount);
                proof {
                    lemma_token_total_copies(Token::Charge, amount as nat, Tally::Mark); lemma_token_total_copies(Token::Charge, amount as nat, Tally::Mire); lemma_token_total_copies(Token::Charge, amount as nat, Tally::Sunder); lemma_token_total_copies(Token::Charge, amount as nat, Tally::Defang); lemma_token_total_copies(Token::Charge, amount as nat, Tally::Thorns); lemma_token_total_copies(Token::Charge, amount as nat, Tally::Guard); lemma_fit_tokens(es@, bound@, copies(Token::Charge, amount as nat));
                    lemma_touch_keeps_fit(a0, allies@, ts@, adds_tokens(copies(Token::Charge, amount as nat)), es@, bound@);
                    lemma_same_keeps_fit(f0, es@, bound@);
                }
                log.push(num_line("  banks ", amount, " Charge."));
            } else {
                proof {
                    lemma_same_keeps_fit(a0, es@, bound@);
                    lemma_same_keeps_fit(f0, es@, bound@);
                }
            }
            
        },
        Effect::Smoke => {
            if let Some(i) = me {
                let mut ts: Vec<usize> = Vec::new();
                ts.push(i);
                assert(ts@ =~= self_ts(me));
                add_tokens(allies, &ts, Token::Smoke, 1);
                proof {
                    lemma_token_total_copies(Token::Smoke, 1, Tally::Mark); lemma_token_total_copies(Token::Smoke, 1, Tally::Mire); lemma_token_total_copies(Token::Smoke, 1, Tally::Sunder); lemma_token_total_copies(Token::Smoke, 1, Tally::Defang); lemma_token_total_copies(Token::Smoke, 1, Tally::Thorns); lemma_token_total_copies(Token::Smoke, 1, Tally::Guard); lemma_fit_tokens(es@, bound@, copies(Token::Smoke, 1));
                    lemma_touch_keeps_fit(a0, allies@, ts@, adds_tokens(copies(Token::Smoke, 1)), es@, bound@);
                    lemma_same_keeps_fit(f0, es@, bound@);
                }
                say("  veils in smoke (next charge ignores the pre-empt).", log);
            } else {
                proof {
                    lemma_same_keeps_fit(a0, es@, bound@);
                    lemma_same_keeps_fit(f0, es@, bound@);
                }
            }
            
        },
        Effect::Silence => {
            proof {
                lemma_same_keeps_fit(a0, es@, bound@);
                lemma_same_keeps_fit(f0, es@, bound@);
            }
            say("  silences a held enemy spell (a deferred effect is cancelled).", log);
        },
        Effect::Pin => {
            proof {
                lemma_same_keeps_fit(a0, es@, bound@);
                lemma_same_keeps_fit(f0, es@, bound@);
            }
            say("  pins an enemy Vanguard with suppressive fire (its charge is denied).", log);
        },
        Effect::Recover => {
            let alive = living(allies);
            let order = sort_wounded(allies, &alive);
            let ts = take_first(&order, n);
            recover_each(allies, &ts, log);
            proof {
                lemma_fit_recover(es@, bound@);
                lemma_touch_keeps_fit(a0, allies@, ts@, recovers(), es@, bound@);
                lemma_same_keeps_fit(f0, es@, bound@);
            }
            
        },
    }
}

} // verus!
