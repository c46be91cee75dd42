//! Small pure-combinatorics helpers shared by the combat sub-phase machinery and the balance analysis.

use vstd::prelude::*;
use crate::groups::total;

verus! {

/// Prefix every sequence in `s` with `f`.
pub open spec fn prefixed(f: u32, s: Seq<Seq<u32>>) -> Seq<Seq<u32>> {
    s.map_values(|c: Seq<u32>| seq![f] + c)
}

/// The compositions of `n` into `k` ordered parts, in the order [`compositions_k`] lists them:
/// by first part ascending, then recursively.
pub open spec fn comps(n: nat, k: nat) -> Seq<Seq<u32>>
    decreases k, n + 2,
{
    if k == 0 {
        if n == 0 {
            seq![Seq::<u32>::empty()]
        } else {
            Seq::<Seq<u32>>::empty()
        }
    } else if k == 1 {
        seq![seq![n as u32]]
    } else {
        comps_from(n, k, 0)
    }
}

/// The compositions of `n` into `k ≥ 2` parts whose first part is at least `f`.
pub open spec fn comps_from(n: nat, k: nat, f: nat) -> Seq<Seq<u32>>
    decreases k, n + 1 - f,
{
    if k < 2 || f > n {
        Seq::<Seq<u32>>::empty()
    } else {
        prefixed(f as u32, comps((n - f) as nat, (k - 1) as nat)) + comps_from(n, k, f + 1)
    }
}

/// Every **composition** of `n` into `k` ordered non-negative parts (each `Vec` sums to `n`). Used to
/// enumerate how a budget splits across `k` slots (stat allocations, group sizes).
pub fn compositions_k(n: u32, k: usize) -> (out: Vec<Vec<u32>>)
    ensures
        out.deep_view() == comps(n as nat, k as nat),
    decreases k,
{
    if k == 0 {
        if n == 0 {
            let mut out: Vec<Vec<u32>> = Vec::new();
            out.push(Vec::new());
            assert(out.deep_view() =~~= seq![Seq::<u32>::empty()]);
            return out;
        } else {
            let out: Vec<Vec<u32>> = Vec::new();
            assert(out.deep_view() =~= Seq::<Seq<u32>>::empty());
            return out;
        }
    }
    if k == 1 {
        let mut v: Vec<u32> = Vec::new();
        v.push(n);
        let mut out: Vec<Vec<u32>> = Vec::new();
        out.push(v);
        assert(out.deep_view() =~~= seq![seq![n]]);
        return out;
    }
    let mut out: Vec<Vec<u32>> = Vec::new();
    let mut first: u64 = 0;
    assert(out.deep_view() =~= Seq::<Seq<u32>>::empty());
    while first <= n as u64
        invariant
            k >= 2,
            first <= n as u64 + 1,
            out.deep_view() + comps_from(n as nat, k as nat, first as nat) == comps_from(
                n as nat,
                k as nat,
                0,
            ),
        decreases n as u64 + 1 - first,
    {
        let f = first as u32;
        let rests = compositions_k(n - f, k - 1);
        let ghost before = out.deep_view();
        let ghost tail = comps_from(n as nat, k as nat, first as nat + 1);
        let mut j: usize = 0;
        while j < rests.len()
            invariant
                j <= rests@.len(),
                rests.deep_view() == comps((n - f) as nat, (k - 1) as nat),
                out.deep_view() == before + prefixed(f, rests.deep_view().take(j as int)),
            decreases rests.len() - j,
        {
            let mut v: Vec<u32> = Vec::new();
            v.push(f);
            let r = &rests[j];
            let mut t: usize = 0;
            while t < r.len()
                invariant
                    t <= r@.len(),
                    v@ == seq![f] + r@.take(t as int),
                decreases r.len() - t,
            {
                v.push(r[t]);
                t = t + 1;
                assert(r@.take(t as int) =~= r@.take(t - 1).push(r@[t - 1]));
            }
            assert(r@.take(r@.len() as int) =~= r@);
            assert(r.deep_view() =~= r@);
            let ghost prev = out.deep_view();
            out.push(v);
            assert(rests.deep_view()[j as int] == r@);
            assert(rests.deep_view().take(j + 1) =~= rests.deep_view().take(j as int).push(r@));
            assert(v.deep_view() =~= v@);
            assert(out.deep_view() =~~= prev.push(v@));
            assert(prefixed(f, rests.deep_view().take(j + 1)) =~= prefixed(
                f,
                rests.deep_view().take(j as int),
            ).push(seq![f] + r@));
            j = j + 1;
        }
        assert(rests.deep_view().take(j as int) =~= rests.deep_view());
        assert(comps_from(n as nat, k as nat, first as nat) == prefixed(
            f,
            comps((n - f) as nat, (k - 1) as nat),
        ) + tail);
        assert(out.deep_view() + tail =~= before + comps_from(n as nat, k as nat, first as nat));
        first = first + 1;
    }
    assert(comps_from(n as nat, k as nat, first as nat) =~= Seq::<Seq<u32>>::empty());
    assert(out.deep_view() =~= comps(n as nat, k as nat));
    out
}

// ---------------------------------------------------------------------------------------------
// Laws: the enumeration is exactly the compositions.
// ---------------------------------------------------------------------------------------------

proof fn lemma_total_prefix(f: u32, c: Seq<u32>)
    ensures
        total(seq![f] + c) == f + total(c),
{
    assert((seq![f] + c).drop_first() =~= c);
}

proof fn lemma_comps_sound(n: nat, k: nat)
    requires
        n <= u32::MAX,
    ensures
        forall|i: int|
            0 <= i < comps(n, k).len() ==> (#[trigger] comps(n, k)[i]).len() == k && total(comps(n, k)[i]) == n,
    decreases k, n + 2,
{
    if k == 0 {
        assert(total(Seq::<u32>::empty()) == 0);
        if n == 0 {
            assert(comps(n, k) =~= seq![Seq::<u32>::empty()]);
            assert(comps(n, k)[0] =~= Seq::<u32>::empty());
        } else {
            assert(comps(n, k).len() == 0);
        }
    } else if k == 1 {
        let c = seq![n as u32];
        assert(c.drop_first() =~= Seq::<u32>::empty());
        assert(total(c.drop_first()) == 0);
        assert(c[0] == n);
        assert(total(c) == n);
        assert(comps(n, k)[0] == c);
    } else {
        lemma_comps_from_sound(n, k, 0);
        assert(comps(n, k) == comps_from(n, k, 0));
    }
}

proof fn lemma_comps_from_sound(n: nat, k: nat, f: nat)
    requires
        n <= u32::MAX,
    ensures
        forall|i: int|
            0 <= i < comps_from(n, k, f).len() ==> (#[trigger] comps_from(n, k, f)[i]).len() == k && total(
                comps_from(n, k, f)[i],
            ) == n,
    decreases k, n + 1 - f,
{
    if k >= 2 && f <= n {
        lemma_comps_sound((n - f) as nat, (k - 1) as nat);
        lemma_comps_from_sound(n, k, f + 1);
        let head = prefixed(f as u32, comps((n - f) as nat, (k - 1) as nat));
        let all = head + comps_from(n, k, f + 1);
        assert forall|i: int| 0 <= i < all.len() implies (#[trigger] all[i]).len() == k && total(all[i])
            == n by {
            if i < head.len() {
                let c = comps((n - f) as nat, (k - 1) as nat)[i];
                lemma_total_prefix(f as u32, c);
            } else {
                assert(all[i] == comps_from(n, k, f + 1)[i - head.len()]);
            }
        }
    }
}

proof fn lemma_comps_complete(n: nat, k: nat, c: Seq<u32>)
    requires
        n <= u32::MAX,
        c.len() == k,
        total(c) == n,
    ensures
        comps(n, k).contains(c),
    decreases k, n + 2,
{
    if k == 0 {
        assert(c =~= Seq::<u32>::empty());
        assert(comps(n, k)[0] == c);
    } else if k == 1 {
        assert(c.drop_first() =~= Seq::<u32>::empty());
        assert(total(c) == c[0] + total(c.drop_first()));
        assert(c =~= seq![n as u32]);
        assert(comps(n, k)[0] == c);
    } else {
        lemma_total_nonneg_rest(c);
        lemma_comps_from_complete(n, k, 0, c);
    }
}

proof fn lemma_total_nonneg_rest(c: Seq<u32>)
    ensures
        total(c) >= 0,
    decreases c.len(),
{
    if c.len() > 0 {
        lemma_total_nonneg_rest(c.drop_first());
    }
}

proof fn lemma_comps_from_complete(n: nat, k: nat, f: nat, c: Seq<u32>)
    requires
        n <= u32::MAX,
        k >= 2,
        c.len() == k,
        total(c) == n,
        f <= c[0],
    ensures
        comps_from(n, k, f).contains(c),
    decreases k, n + 1 - f,
{
    let rest = c.drop_first();
    lemma_total_nonneg_rest(rest);
    assert(c =~= seq![c[0]] + rest);
    let sub = comps((n - f) as nat, (k - 1) as nat);
    let head = prefixed(f as u32, sub);
    if f == c[0] {
        lemma_comps_complete((n - f) as nat, (k - 1) as nat, rest);
        let i = choose|i: int| 0 <= i < sub.len() && sub[i] == rest;
        assert(head[i] == c);
        assert((head + comps_from(n, k, f + 1))[i] == c);
    } else {
        lemma_comps_from_complete(n, k, f + 1, c);
        let tl = comps_from(n, k, f + 1);
        let i = choose|i: int| 0 <= i < tl.len() && tl[i] == c;
        assert((head + tl)[head.len() + i] == c);
    }
}

/// **The enumeration is exactly the compositions**: every listed sequence has `k` parts summing to
/// `n`, and every such sequence is listed.
pub proof fn law_compositions_are_exactly_the_compositions(n: u32, k: nat, c: Seq<u32>)
    ensures
        comps(n as nat, k).contains(c) <==> (c.len() == k && total(c) == n),
{
    lemma_comps_sound(n as nat, k);
    if c.len() == k && total(c) == n {
        lemma_comps_complete(n as nat, k, c);
    }
}

/// `a` comes strictly before `b` in lexicographic order (both non-empty where they are compared).
pub open spec fn lex_lt(a: Seq<u32>, b: Seq<u32>) -> bool
    decreases a.len(),
{
    if a.len() == 0 || b.len() == 0 {
        false
    } else if a[0] != b[0] {
        a[0] < b[0]
    } else {
        lex_lt(a.drop_first(), b.drop_first())
    }
}

/// Each entry of `s` comes strictly before every later one.
pub open spec fn strictly_ascending(s: Seq<Seq<u32>>) -> bool {
    forall|i: int, j: int| 0 <= i < j < s.len() ==> lex_lt(#[trigger] s[i], #[trigger] s[j])
}

/// The binomial coefficient, by Pascal's rule.
pub open spec fn binom(a: nat, b: nat) -> nat
    decreases a,
{
    if b == 0 {
        1
    } else if a == 0 {
        0
    } else {
        binom((a - 1) as nat, (b - 1) as nat) + binom((a - 1) as nat, b)
    }
}

proof fn lemma_lex_lt_irreflexive(a: Seq<u32>)
    ensures
        !lex_lt(a, a),
    decreases a.len(),
{
    if a.len() > 0 {
        lemma_lex_lt_irreflexive(a.drop_first());
    }
}

proof fn lemma_binom_diag(a: nat)
    ensures
        binom(a, a) == 1,
    decreases a,
{
    if a > 0 {
        lemma_binom_diag((a - 1) as nat);
        lemma_binom_above(((a - 1) as nat), a);
    }
}

proof fn lemma_binom_above(a: nat, b: nat)
    requires
        a < b,
    ensures
        binom(a, b) == 0,
    decreases a,
{
    if a > 0 {
        lemma_binom_above((a - 1) as nat, (b - 1) as nat);
        lemma_binom_above((a - 1) as nat, b);
    }
}

/// Every entry of `comps_from(n, k, f)` is non-empty and starts at `f` or above.
proof fn lemma_comps_from_heads(n: nat, k: nat, f: nat)
    requires
        n <= u32::MAX,
    ensures
        forall|i: int|
            0 <= i < comps_from(n, k, f).len() ==> (#[trigger] comps_from(n, k, f)[i]).len() > 0
                && comps_from(n, k, f)[i][0] >= f,
    decreases n + 1 - f,
{
    if k >= 2 && f <= n {
        let head = prefixed(f as u32, comps((n - f) as nat, (k - 1) as nat));
        let tl = comps_from(n, k, f + 1);
        lemma_comps_from_heads(n, k, f + 1);
        assert forall|i: int| 0 <= i < comps_from(n, k, f).len() implies (#[trigger] comps_from(n, k, f)[i]).len() > 0
            && comps_from(n, k, f)[i][0] >= f by {
            if i < head.len() {
                assert(comps_from(n, k, f)[i] == head[i]);
            } else {
                assert(comps_from(n, k, f)[i] == tl[i - head.len()]);
            }
        }
    }
}

proof fn lemma_comps_ascending(n: nat, k: nat)
    requires
        n <= u32::MAX,
    ensures
        strictly_ascending(comps(n, k)),
    decreases k, n + 2,
{
    if k >= 2 {
        lemma_comps_from_ascending(n, k, 0);
    }
}

proof fn lemma_comps_from_ascending(n: nat, k: nat, f: nat)
    requires
        n <= u32::MAX,
        k >= 2,
    ensures
        strictly_ascending(comps_from(n, k, f)),
    decreases k, n + 1 - f,
{
    if f <= n {
        let sub = comps((n - f) as nat, (k - 1) as nat);
        let head = prefixed(f as u32, sub);
        let tl = comps_from(n, k, f + 1);
        let all = comps_from(n, k, f);
        lemma_comps_ascending((n - f) as nat, (k - 1) as nat);
        lemma_comps_sound((n - f) as nat, (k - 1) as nat);
        lemma_comps_from_ascending(n, k, f + 1);
        lemma_comps_from_heads(n, k, f + 1);
        assert(all == head + tl);
        assert forall|i: int, j: int| 0 <= i < j < all.len() implies lex_lt(#[trigger] all[i], #[trigger] all[j]) by {
            if j < head.len() {
                let x = head[i];
                let y = head[j];
                assert(x.drop_first() =~= sub[i]);
                assert(y.drop_first() =~= sub[j]);
                assert(lex_lt(sub[i], sub[j]));
            } else if i < head.len() {
                let x = head[i];
                let y = tl[j - head.len()];
                assert(x[0] == f);
                assert(y.len() > 0 && y[0] >= f + 1);
            } else {
                assert(all[i] == tl[i - head.len()]);
                assert(all[j] == tl[j - head.len()]);
            }
        }
    }
}

proof fn lemma_comps_from_shift(n: nat, k: nat, f: nat)
    requires
        n >= 1,
        f >= 1,
        k >= 2,
    ensures
        comps_from(n, k, f).len() == comps_from((n - 1) as nat, k, (f - 1) as nat).len(),
    decreases n + 1 - f,
{
    if f <= n {
        lemma_comps_from_shift(n, k, f + 1);
        assert((n - f) as nat == ((n - 1) as nat - (f - 1) as nat) as nat);
    }
}

proof fn lemma_comps_count(n: nat, k: nat)
    requires
        k >= 1,
    ensures
        comps(n, k).len() == binom((n + k - 1) as nat, (k - 1) as nat),
    decreases k, n,
{
    if k == 1 {
    } else {
        let all = comps_from(n, k, 0);
        assert(all == prefixed(0, comps(n, (k - 1) as nat)) + comps_from(n, k, 1));
        lemma_comps_count(n, (k - 1) as nat);
        if n == 0 {
            assert(comps_from(n, k, 1).len() == 0);
            lemma_binom_diag((k - 2) as nat);
            lemma_binom_diag((k - 1) as nat);
        } else {
            lemma_comps_from_shift(n, k, 1);
            lemma_comps_count((n - 1) as nat, k);
            assert(comps((n - 1) as nat, k) == comps_from((n - 1) as nat, k, 0));
            assert(binom((n + k - 1) as nat, (k - 1) as nat) == binom((n + k - 2) as nat, (k - 2) as nat) + binom(
                (n + k - 2) as nat,
                (k - 1) as nat,
            ));
        }
    }
}

/// **The enumeration is ordered and counted**: the compositions of `n` into `k` parts are listed in
/// strictly ascending lexicographic order — so none repeats — and, for `k ≥ 1`, there are
/// C(n + k − 1, k − 1) of them.
pub proof fn law_compositions_ordered_and_counted(n: u32, k: nat)
    ensures
        strictly_ascending(comps(n as nat, k)),
        forall|i: int, j: int| 0 <= i < j < comps(n as nat, k).len() ==> comps(n as nat, k)[i] != comps(n as nat, k)[j],
        k >= 1 ==> comps(n as nat, k).len() == binom((n + k - 1) as nat, (k - 1) as nat),
{
    lemma_comps_ascending(n as nat, k);
    assert forall|i: int, j: int| 0 <= i < j < comps(n as nat, k).len() implies comps(n as nat, k)[i] != comps(
        n as nat,
        k,
    )[j] by {
        assert(lex_lt(comps(n as nat, k)[i], comps(n as nat, k)[j]));
        lemma_lex_lt_irreflexive(comps(n as nat, k)[i]);
    }
    if k >= 1 {
        lemma_comps_count(n as nat, k);
    }
}

} // verus!
