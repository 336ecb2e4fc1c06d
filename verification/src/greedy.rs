//! Proofs about the greedy containment search that decoding performs:
//! the interval a narrowing path reaches stays inside every intermediate
//! choice, the search's run for a given target is unique, and for a
//! target produced by narrowing the run is the narrowing path itself.

use vstd::prelude::*;
use vstd::arithmetic::power::pow;
use vstd::arithmetic::power::lemma_pow0;
use vstd::arithmetic::power::lemma_pow1;
use vstd::arithmetic::power::lemma_pow_adds;
use crate::model::Model;
use crate::interval::DState;
use crate::interval::Target;
use crate::interval::contains_target;
use crate::interval::entry_high;
use crate::interval::entry_low;
use crate::interval::first_containing;
use crate::interval::first_containing_from;
use crate::interval::frac_eq;
use crate::interval::frac_le;
use crate::interval::frac_lt;
use crate::interval::greedy_decode_path;
use crate::interval::narrow_entries;
use crate::interval::path_state;
use crate::interval::positive_path;
use crate::interval::step_state;
use crate::interval::target_nonempty;
use crate::interval::target_wf;
use crate::interval::valid_path;

verus! {

/// A factor that is at least one can be cancelled from an inequality.
proof fn lemma_mul_le_cancel(x: int, y: int, z: int)
    requires
        z >= 1,
        x * z <= y * z,
    ensures
        x <= y,
{
    assert(x <= y) by (nonlinear_arith)
        requires
            z >= 1,
            x * z <= y * z,
    ;
}

/// Fraction ordering is transitive.
proof fn lemma_frac_le_trans(an: int, ad: int, bn: int, bd: int, cn: int, cd: int)
    requires
        ad >= 1,
        bd >= 1,
        cd >= 1,
        frac_le(an, ad, bn, bd),
        frac_le(bn, bd, cn, cd),
    ensures
        frac_le(an, ad, cn, cd),
{
    assert((an * cd) * bd <= (cn * ad) * bd) by (nonlinear_arith)
        requires
            an * bd <= bn * ad,
            bn * cd <= cn * bd,
            ad >= 1,
            bd >= 1,
            cd >= 1,
    ;
    lemma_mul_le_cancel(an * cd, cn * ad, bd);
}

/// A strict fraction ordering carries over to any value-equal pair of
/// fractions.
pub(crate) proof fn lemma_frac_lt_transfer(
    an: int,
    ad: int,
    bn: int,
    bd: int,
    xn: int,
    xd: int,
    yn: int,
    yd: int,
)
    requires
        ad >= 1,
        bd >= 1,
        xd >= 1,
        yd >= 1,
        frac_eq(an, ad, xn, xd),
        frac_eq(bn, bd, yn, yd),
        frac_lt(an, ad, bn, bd),
    ensures
        frac_lt(xn, xd, yn, yd),
{
    assert((xn * yd) * (ad * bd) < (yn * xd) * (ad * bd)) by (nonlinear_arith)
        requires
            an * xd == xn * ad,
            bn * yd == yn * bd,
            an * bd < bn * ad,
            ad >= 1,
            bd >= 1,
            xd >= 1,
            yd >= 1,
    ;
    assert(xn * yd < yn * xd) by (nonlinear_arith)
        requires
            (xn * yd) * (ad * bd) < (yn * xd) * (ad * bd),
            ad >= 1,
            bd >= 1,
    ;
}

/// A prefix of a valid, positive path is itself valid and positive.
proof fn lemma_path_take(m: Model, idxs: Seq<int>, k: int)
    requires
        0 <= k <= idxs.len(),
    ensures
        valid_path(m, idxs) ==> valid_path(m, idxs.take(k)),
        positive_path(m, idxs) ==> positive_path(m, idxs.take(k)),
{
    assert forall|j: int| 0 <= j < k implies idxs.take(k)[j] == idxs[j] by {}
}

/// Bounds of the state a path reaches: the interval sits inside the unit
/// interval, its denominator is the matching power of the unit, and a
/// path of positive weights keeps the interval non-empty.
pub proof fn lemma_path_state_bounds(m: Model, idxs: Seq<int>)
    requires
        m.wf(),
        valid_path(m, idxs),
    ensures
        0 <= path_state(m, idxs).low,
        path_state(m, idxs).low <= path_state(m, idxs).high,
        path_state(m, idxs).high <= path_state(m, idxs).den,
        path_state(m, idxs).den == pow(m.unit as int, idxs.len() as nat),
        path_state(m, idxs).den >= 1,
        positive_path(m, idxs) ==> path_state(m, idxs).low < path_state(m, idxs).high,
    decreases idxs.len(),
{
    let u = m.unit as int;
    if idxs.len() == 0 {
        lemma_pow0(u);
    } else {
        let pre = idxs.drop_last();
        let i = idxs.last();
        assert(valid_path(m, pre)) by {
            assert forall|j: int| 0 <= j < pre.len() implies 0 <= #[trigger] pre[j]
                < m.entries@.len() by {
                assert(pre[j] == idxs[j]);
            }
        }
        lemma_path_state_bounds(m, pre);
        let st = path_state(m, pre);
        let s = m.entries@[i].range.start as int;
        let e = m.entries@[i].range.end as int;
        assert(0 <= idxs[idxs.len() - 1] < m.entries@.len());
        assert(0 <= s <= e <= u);
        assert(0 <= st.low * u + (st.high - st.low) * s && st.low * u + (st.high - st.low) * s
            <= st.low * u + (st.high - st.low) * e && st.low * u + (st.high - st.low) * e <= st.den
            * u) by (nonlinear_arith)
            requires
                0 <= st.low <= st.high <= st.den,
                0 <= s <= e <= u,
        ;
        lemma_pow_adds(u, (idxs.len() - 1) as nat, 1);
        lemma_pow1(u);
        assert(st.den * u >= 1) by (nonlinear_arith)
            requires
                st.den >= 1,
                u >= 1,
        ;
        if positive_path(m, idxs) {
            assert(positive_path(m, pre)) by {
                assert forall|j: int| 0 <= j < pre.len() implies m.entries@[#[trigger] pre[j]].range.start
                    < m.entries@[pre[j]].range.end by {
                    assert(pre[j] == idxs[j]);
                }
            }
            assert(m.entries@[idxs[idxs.len() - 1]].range.start < m.entries@[idxs[idxs.len()
                - 1]].range.end);
            assert(st.low * u + (st.high - st.low) * s < st.low * u + (st.high - st.low) * e)
                by (nonlinear_arith)
                requires
                    st.low < st.high,
                    s < e,
            ;
        }
    }
}

/// Entries earlier in the model's order lie fully below later ones.
#[verifier::rlimit(30)]
proof fn lemma_entries_ordered(m: Model, a: int, b: int)
    requires
        m.wf(),
        0 <= a < b < m.entries@.len(),
    ensures
        m.entries@[a].range.end <= m.entries@[b].range.start,
    decreases b - a,
{
    assert(m.entries@[b].range.start == m.entries@[b - 1].range.end);
    if a + 1 < b {
        lemma_entries_ordered(m, a, b - 1);
        assert(m.entries@[b - 1].range.start <= m.entries@[b - 1].range.end);
    }
}

/// The scan returns the first containing entry.
proof fn lemma_scan_finds(st: DState, m: Model, t: Target, a: int, i: int)
    requires
        0 <= a <= i < m.entries@.len(),
        contains_target(st, m, i, t),
        forall|j: int| a <= j < i ==> !(#[trigger] contains_target(st, m, j, t)),
    ensures
        first_containing_from(st, m, t, a) == Some(i),
    decreases i - a,
{
    if a < i {
        lemma_scan_finds(st, m, t, a + 1, i);
    }
}

/// The scan returns nothing when no entry contains the target.
proof fn lemma_scan_none(st: DState, m: Model, t: Target, a: int)
    requires
        0 <= a <= m.entries@.len(),
        forall|j: int| a <= j < m.entries@.len() ==> !(#[trigger] contains_target(st, m, j, t)),
    ensures
        first_containing_from(st, m, t, a) is None,
    decreases m.entries@.len() - a,
{
    if a < m.entries@.len() {
        lemma_scan_none(st, m, t, a + 1);
    }
}

/// The interval a path reaches lies inside the interval reached by any
/// of its prefixes.
proof fn lemma_path_within(m: Model, idxs: Seq<int>, k: int)
    requires
        m.wf(),
        valid_path(m, idxs),
        0 <= k <= idxs.len(),
    ensures
        frac_le(
            path_state(m, idxs.take(k)).low,
            path_state(m, idxs.take(k)).den,
            path_state(m, idxs).low,
            path_state(m, idxs).den,
        ),
        frac_le(
            path_state(m, idxs).high,
            path_state(m, idxs).den,
            path_state(m, idxs.take(k)).high,
            path_state(m, idxs.take(k)).den,
        ),
    decreases idxs.len() - k,
{
    let fin = path_state(m, idxs);
    if k == idxs.len() {
        assert(idxs.take(k) =~= idxs);
    } else {
        lemma_path_within(m, idxs, k + 1);
        lemma_path_take(m, idxs, k);
        lemma_path_take(m, idxs, k + 1);
        lemma_path_state_bounds(m, idxs.take(k));
        lemma_path_state_bounds(m, idxs.take(k + 1));
        lemma_path_state_bounds(m, idxs);
        let stk = path_state(m, idxs.take(k));
        let stk1 = path_state(m, idxs.take(k + 1));
        let u = m.unit as int;
        assert(idxs.take(k + 1).drop_last() =~= idxs.take(k));
        assert(idxs.take(k + 1).last() == idxs[k]);
        assert(stk1 == step_state(stk, m, idxs[k]));
        let s = m.entries@[idxs[k]].range.start as int;
        let e = m.entries@[idxs[k]].range.end as int;
        assert(stk.low * (stk.den * u) <= (stk.low * u + (stk.high - stk.low) * s) * stk.den)
            by (nonlinear_arith)
            requires
                0 <= stk.low <= stk.high,
                stk.den >= 1,
                0 <= s,
                u >= 1,
        ;
        assert((stk.low * u + (stk.high - stk.low) * e) * stk.den <= stk.high * (stk.den * u))
            by (nonlinear_arith)
            requires
                0 <= stk.low <= stk.high,
                stk.den >= 1,
                0 <= e <= u,
        ;
        lemma_frac_le_trans(stk.low, stk.den, stk1.low, stk1.den, fin.low, fin.den);
        lemma_frac_le_trans(fin.high, fin.den, stk1.high, stk1.den, stk.high, stk.den);
    }
}

/// At the state a positive path reaches, no entry's mapped sub-interval
/// contains the interval itself: the greedy search stops there.
proof fn lemma_final_no_match(m: Model, t: Target, idxs: Seq<int>)
    requires
        m.wf(),
        narrow_entries(m),
        target_wf(t),
        valid_path(m, idxs),
        positive_path(m, idxs),
        frac_eq(path_state(m, idxs).low, path_state(m, idxs).den, t.low_num, t.low_den),
        frac_eq(path_state(m, idxs).high, path_state(m, idxs).den, t.high_num, t.high_den),
    ensures
        first_containing(path_state(m, idxs), m, t) is None,
{
    let fin = path_state(m, idxs);
    let u = m.unit as int;
    lemma_path_state_bounds(m, idxs);
    assert(fin.den * u >= 1) by (nonlinear_arith)
        requires
            fin.den >= 1,
            u >= 1,
    ;
    assert forall|i: int| 0 <= i < m.entries@.len() implies !(#[trigger] contains_target(
        fin,
        m,
        i,
        t,
    )) by {
        if contains_target(fin, m, i, t) {
            let s = m.entries@[i].range.start as int;
            let e = m.entries@[i].range.end as int;
            let a = entry_low(fin, m, i);
            let b = entry_high(fin, m, i);
            lemma_frac_le_trans(a, fin.den * u, t.low_num, t.low_den, fin.low, fin.den);
            lemma_frac_le_trans(fin.high, fin.den, t.high_num, t.high_den, b, fin.den * u);
            assert(a <= fin.low * u) by (nonlinear_arith)
                requires
                    a * fin.den <= fin.low * (fin.den * u),
                    fin.den >= 1,
            ;
            assert(fin.high * u <= b) by (nonlinear_arith)
                requires
                    fin.high * (fin.den * u) <= b * fin.den,
                    fin.den >= 1,
            ;
            assert(false) by (nonlinear_arith)
                requires
                    a == fin.low * u + (fin.high - fin.low) * s,
                    b == fin.low * u + (fin.high - fin.low) * e,
                    a <= fin.low * u,
                    fin.high * u <= b,
                    fin.low < fin.high,
                    0 <= s,
                    0 <= e,
                    e - s < u,
                    u >= 1,
            ;
        }
    }
    lemma_scan_none(fin, m, t, 0);
}

/// A target that narrowing along a path of positive weights produces
/// exactly is decoded greedily along that very path: at every step the
/// path's entry is the first containing one, and afterwards none is.
pub proof fn lemma_witness_greedy(m: Model, t: Target, idxs: Seq<int>)
    requires
        m.wf(),
        narrow_entries(m),
        target_wf(t),
        target_nonempty(t),
        valid_path(m, idxs),
        positive_path(m, idxs),
        frac_eq(path_state(m, idxs).low, path_state(m, idxs).den, t.low_num, t.low_den),
        frac_eq(path_state(m, idxs).high, path_state(m, idxs).den, t.high_num, t.high_den),
    ensures
        greedy_decode_path(m, t, idxs),
{
    let fin = path_state(m, idxs);
    let u = m.unit as int;
    lemma_path_state_bounds(m, idxs);
    lemma_final_no_match(m, t, idxs);
    assert forall|k: int| 0 <= k < idxs.len() implies first_containing(
        path_state(m, idxs.take(k)),
        m,
        t,
    ) == Some(#[trigger] idxs[k]) by {
        let stk = path_state(m, idxs.take(k));
        let stk1 = path_state(m, idxs.take(k + 1));
        lemma_path_take(m, idxs, k);
        lemma_path_take(m, idxs, k + 1);
        lemma_path_state_bounds(m, idxs.take(k));
        lemma_path_state_bounds(m, idxs.take(k + 1));
        assert(stk.den * u >= 1) by (nonlinear_arith)
            requires
                stk.den >= 1,
                u >= 1,
        ;
        assert(idxs.take(k + 1).drop_last() =~= idxs.take(k));
        assert(idxs.take(k + 1).last() == idxs[k]);
        assert(stk1 == step_state(stk, m, idxs[k]));
        lemma_path_within(m, idxs, k + 1);
        lemma_frac_le_trans(
            entry_low(stk, m, idxs[k]),
            stk.den * u,
            fin.low,
            fin.den,
            t.low_num,
            t.low_den,
        );
        lemma_frac_le_trans(
            t.high_num,
            t.high_den,
            fin.high,
            fin.den,
            entry_high(stk, m, idxs[k]),
            stk.den * u,
        );
        assert(contains_target(stk, m, idxs[k], t));
        assert forall|j: int| 0 <= j < idxs[k] implies !(#[trigger] contains_target(
            stk,
            m,
            j,
            t,
        )) by {
            if contains_target(stk, m, j, t) {
                lemma_entries_ordered(m, j, idxs[k]);
                let ej = m.entries@[j].range.end as int;
                let si = m.entries@[idxs[k]].range.start as int;
                assert(entry_high(stk, m, j) * (stk.den * u) <= entry_low(stk, m, idxs[k]) * (
                stk.den * u)) by (nonlinear_arith)
                    requires
                        entry_high(stk, m, j) == stk.low * u + (stk.high - stk.low) * ej,
                        entry_low(stk, m, idxs[k]) == stk.low * u + (stk.high - stk.low) * si,
                        ej <= si,
                        stk.low <= stk.high,
                        stk.den * u >= 1,
                ;
                lemma_frac_le_trans(
                    t.high_num,
                    t.high_den,
                    entry_high(stk, m, j),
                    stk.den * u,
                    entry_low(stk, m, idxs[k]),
                    stk.den * u,
                );
                lemma_frac_le_trans(
                    t.high_num,
                    t.high_den,
                    entry_low(stk, m, idxs[k]),
                    stk.den * u,
                    t.low_num,
                    t.low_den,
                );
            }
        }
        lemma_scan_finds(stk, m, t, 0, idxs[k]);
    }
}

/// Sequences that agree on a prefix and on the next element agree on the
/// prefix one longer.
proof fn lemma_take_succ_eq(a: Seq<int>, b: Seq<int>, j: int)
    requires
        0 < j <= a.len(),
        j <= b.len(),
        a.take(j - 1) == b.take(j - 1),
        a[j - 1] == b[j - 1],
    ensures
        a.take(j) == b.take(j),
{
    assert forall|l: int| 0 <= l < j implies a.take(j)[l] == b.take(j)[l] by {
        if l < j - 1 {
            assert(a.take(j - 1)[l] == b.take(j - 1)[l]);
        }
    }
    assert(a.take(j) =~= b.take(j));
}

/// Two runs of the greedy search for the same target agree on every
/// prefix they both have.
proof fn lemma_greedy_prefix_eq(m: Model, t: Target, a: Seq<int>, b: Seq<int>, j: int)
    requires
        greedy_decode_path(m, t, a),
        greedy_decode_path(m, t, b),
        0 <= j <= a.len(),
        j <= b.len(),
    ensures
        a.take(j) == b.take(j),
    decreases j,
{
    if j > 0 {
        lemma_greedy_prefix_eq(m, t, a, b, j - 1);
        assert(first_containing(path_state(m, a.take(j - 1)), m, t) == Some(a[j - 1]));
        assert(first_containing(path_state(m, b.take(j - 1)), m, t) == Some(b[j - 1]));
        lemma_take_succ_eq(a, b, j);
    }
}

/// The greedy search has exactly one run for a given target.
pub proof fn lemma_greedy_unique(m: Model, t: Target, a: Seq<int>, b: Seq<int>)
    requires
        greedy_decode_path(m, t, a),
        greedy_decode_path(m, t, b),
    ensures
        a == b,
{
    if a.len() <= b.len() {
        lemma_greedy_prefix_eq(m, t, a, b, a.len() as int);
        assert(a.take(a.len() as int) =~= a);
        if a.len() < b.len() {
            assert(first_containing(path_state(m, b.take(a.len() as int)), m, t) == Some(
                b[a.len() as int],
            ));
            assert(first_containing(path_state(m, a), m, t) is None);
            assert(false);
        }
        assert(b.take(a.len() as int) =~= b);
    } else {
        lemma_greedy_prefix_eq(m, t, a, b, b.len() as int);
        assert(b.take(b.len() as int) =~= b);
        assert(first_containing(path_state(m, a.take(b.len() as int)), m, t) == Some(
            a[b.len() as int],
        ));
        assert(first_containing(path_state(m, b), m, t) is None);
        assert(false);
    }
}

} // verus!
