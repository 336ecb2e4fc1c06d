//! The interval codec: `encode` narrows the unit interval along a symbol
//! sequence; `decode` recovers the sequence from a target interval by the
//! greedy containment search.  Both are stateless over an immutable model.

use vstd::prelude::*;
use vstd::arithmetic::power::pow;
use vstd::arithmetic::power::lemma_pow0;
use vstd::arithmetic::power::lemma_pow1;
use vstd::arithmetic::power::lemma_pow_adds;
use vstd::arithmetic::power::lemma_pow_positive;
use crate::model::Model;
use crate::greedy::lemma_greedy_unique;
use crate::greedy::lemma_witness_greedy;
use crate::interval::DState;
use crate::interval::Target;
use crate::interval::contains_target;
use crate::interval::decode_witness;
use crate::interval::encode_path;
use crate::interval::entry_high;
use crate::interval::entry_low;
use crate::interval::first_containing;
use crate::interval::first_containing_from;
use crate::interval::frac_lt;
use crate::interval::greedy_decode_path;
use crate::interval::has_symbol;
use crate::interval::init_state;
use crate::interval::narrow_entries;
use crate::interval::path_state;
use crate::interval::seq_symbols;
use crate::interval::step_state;
use crate::interval::symbol_index;
use crate::interval::symbol_index_from;
use crate::interval::valid_path;
use crate::interval::views_of;

verus! {

/// An exact fraction `num/den`; interval bounds are handed out and taken
/// in this form.
#[derive(Clone, Copy, Debug)]
pub struct Fraction {
    pub num: u64,
    pub den: u64,
}

/// Encoding met a symbol that the model's alphabet does not contain.
#[derive(Clone, Copy, Debug)]
pub struct UnknownSymbolError;

/// Finds the first entry whose symbol equals `sym`, scanning the entries
/// in the model's fixed order.
fn find_symbol(model: &Model, sym: &String) -> (r: Option<usize>)
    ensures
        match r {
            Some(i) => 0 <= i < model.entries@.len() && symbol_index(*model, sym@) == Some(
                i as int,
            ),
            None => symbol_index(*model, sym@) is None,
        },
{
    let n = model.entries.len();
    let mut i: usize = 0;
    while i < n
        invariant
            n == model.entries@.len(),
            i <= n,
            symbol_index(*model, sym@) == symbol_index_from(*model, sym@, i as int),
        decreases n - i,
    {
        if model.entries[i].symbol.eq(sym) {
            return Some(i);
        }
        i = i + 1;
    }
    None
}

/// Narrows the unit interval along `symbols`, in order: for each symbol,
/// the current interval is shrunk to the sub-interval its entry's range
/// occupies within it.  Returns the final bounds as exact fractions over
/// `unit^len`, or `UnknownSymbolError` (and no interval) as soon as a
/// symbol is not in the model's alphabet.  The empty sequence returns the
/// unit interval itself, `(0/1, 1/1)`.
pub fn encode(model: &Model, symbols: Vec<String>) -> (r: Result<
    (Fraction, Fraction),
    UnknownSymbolError,
>)
    requires
        model.wf(),
        pow(model.unit as int, symbols@.len() as nat) <= u64::MAX,
    ensures
        r is Ok <==> (forall|j: int|
            0 <= j < symbols@.len() ==> has_symbol(*model, #[trigger] symbols@[j]@)),
        r matches Ok((low, high)) ==> {
            let st = path_state(*model, encode_path(*model, views_of(symbols@)));
            &&& low.num == st.low
            &&& high.num == st.high
            &&& low.den == st.den
            &&& high.den == st.den
            &&& st.den == pow(model.unit as int, symbols@.len() as nat)
        },
{
    let ghost syms = views_of(symbols@);
    let mut low: u64 = 0;
    let mut high: u64 = 1;
    let mut den: u64 = 1;
    let mut idx: usize = 0;
    let n = symbols.len();
    proof {
        lemma_pow0(model.unit as int);
        assert(encode_path(*model, syms.take(0)) =~= Seq::<int>::empty());
        assert(path_state(*model, encode_path(*model, syms.take(0))) == init_state());
    }
    while idx < n
        invariant
            model.wf(),
            n == symbols@.len(),
            syms == views_of(symbols@),
            pow(model.unit as int, n as nat) <= u64::MAX,
            idx <= n,
            forall|j: int| 0 <= j < idx ==> has_symbol(*model, #[trigger] symbols@[j]@),
            low == path_state(*model, encode_path(*model, syms.take(idx as int))).low,
            high == path_state(*model, encode_path(*model, syms.take(idx as int))).high,
            den == path_state(*model, encode_path(*model, syms.take(idx as int))).den,
            den == pow(model.unit as int, idx as nat),
            low <= high <= den,
        decreases n - idx,
    {
        let ghost prev = path_state(*model, encode_path(*model, syms.take(idx as int)));
        proof {
            lemma_pow_le(model.unit as int, (idx + 1) as nat, n as nat);
            lemma_pow_adds(model.unit as int, idx as nat, 1);
            lemma_pow1(model.unit as int);
            assert(den * model.unit == pow(model.unit as int, (idx + 1) as nat));
        }
        match find_symbol(model, &symbols[idx]) {
            None => {
                return Err(UnknownSymbolError);
            },
            Some(i) => {
                let e_start = model.entries[i].range.start;
                let e_end = model.entries[i].range.end;
                let width = high - low;
                proof {
                    assert(0 <= low * model.unit && 0 <= width * e_start && 0 <= width * e_end && low
                        * model.unit + width * e_start <= low * model.unit + width * e_end <= high
                        * model.unit <= den * model.unit) by (nonlinear_arith)
                        requires
                            0 <= low <= high <= den,
                            width == high - low,
                            0 <= e_start <= e_end <= model.unit,
                    ;
                }
                let new_low = low * model.unit + width * e_start;
                let new_high = low * model.unit + width * e_end;
                low = new_low;
                high = new_high;
                den = den * model.unit;
                idx = idx + 1;
                proof {
                    assert(syms.take(idx as int).drop_last() =~= syms.take(idx - 1));
                    assert(encode_path(*model, syms.take(idx as int)).drop_last() =~= encode_path(
                        *model,
                        syms.take(idx - 1),
                    ));
                    assert(encode_path(*model, syms.take(idx as int)).last() == i);
                    assert(path_state(*model, encode_path(*model, syms.take(idx as int)))
                        == step_state(prev, *model, i as int));
                }
            },
        }
    }
    proof {
        assert(syms.take(n as int) =~= syms);
    }
    Ok((Fraction { num: low, den: den }, Fraction { num: high, den: den }))
}

/// The target interval named by a pair of fraction bounds.
pub open spec fn target_of(start: Fraction, end: Fraction) -> Target {
    Target {
        low_num: start.num as int,
        low_den: start.den as int,
        high_num: end.num as int,
        high_den: end.den as int,
    }
}

/// The product of two values that fit in a machine word fits in a double
/// word.
proof fn lemma_u64_mul_fits(x: int, y: int)
    requires
        0 <= x <= u64::MAX,
        0 <= y <= u64::MAX,
    ensures
        0 <= x * y <= u128::MAX,
{
    assert(0 <= x * y && x * y <= u64::MAX * u64::MAX) by (nonlinear_arith)
        requires
            0 <= x <= u64::MAX,
            0 <= y <= u64::MAX,
    ;
}

/// Scans the entries in the model's fixed order for the first whose
/// mapped sub-interval contains the target interval, comparing the exact
/// cross products.
fn find_containing(model: &Model, low: u64, high: u64, den: u64, start: &Fraction, end: &Fraction)
    -> (r: Option<usize>)
    requires
        model.wf(),
        low <= high <= den,
        den as int * model.unit as int <= u64::MAX,
        start.den >= 1,
        end.den >= 1,
    ensures
        ({
            let st = DState { low: low as int, high: high as int, den: den as int };
            let t = target_of(*start, *end);
            match r {
                Some(i) => 0 <= i < model.entries@.len() && first_containing(st, *model, t)
                    == Some(i as int),
                None => first_containing(st, *model, t) is None,
            }
        }),
{
    let ghost st = DState { low: low as int, high: high as int, den: den as int };
    let ghost t = target_of(*start, *end);
    let u = model.unit;
    let dnext = den * u;
    let width = high - low;
    let n = model.entries.len();
    let mut i: usize = 0;
    while i < n
        invariant
            model.wf(),
            n == model.entries@.len(),
            i <= n,
            u == model.unit,
            low <= high <= den,
            den as int * u as int <= u64::MAX,
            dnext == den as int * u as int,
            width == high - low,
            st == (DState { low: low as int, high: high as int, den: den as int }),
            t == target_of(*start, *end),
            start.den >= 1,
            end.den >= 1,
            first_containing(st, *model, t) == first_containing_from(st, *model, t, i as int),
        decreases n - i,
    {
        let e_start = model.entries[i].range.start;
        let e_end = model.entries[i].range.end;
        proof {
            assert(0 <= low * u + width * e_start && low * u + width * e_start <= low * u + width
                * e_end && low * u + width * e_end <= den * u) by (nonlinear_arith)
                requires
                    0 <= low <= high <= den,
                    width == high - low,
                    0 <= e_start <= e_end <= u,
            ;
            lemma_u64_mul_fits((low * u + width * e_start) as int, start.den as int);
            lemma_u64_mul_fits(start.num as int, dnext as int);
            lemma_u64_mul_fits(end.num as int, dnext as int);
            lemma_u64_mul_fits((low * u + width * e_end) as int, end.den as int);
        }
        let a = low * u + width * e_start;
        let b = low * u + width * e_end;
        let low_ok = (a as u128) * (start.den as u128) <= (start.num as u128) * (dnext as u128);
        let high_ok = (end.num as u128) * (dnext as u128) <= (b as u128) * (end.den as u128);
        if low_ok && high_ok {
            proof {
                assert(a as int == entry_low(st, *model, i as int));
                assert(b as int == entry_high(st, *model, i as int));
                assert(contains_target(st, *model, i as int, t));
            }
            return Some(i);
        }
        proof {
            assert(a as int == entry_low(st, *model, i as int));
            assert(b as int == entry_high(st, *model, i as int));
            assert(!contains_target(st, *model, i as int, t));
        }
        i = i + 1;
    }
    None
}

/// Bounds of one narrowing step: the mapped sub-interval stays ordered
/// and inside the current interval scaled by the unit.
proof fn lemma_narrow_bounds(low: int, high: int, den: int, s: int, e: int, u: int)
    requires
        0 <= low <= high <= den,
        0 <= s <= e <= u,
    ensures
        0 <= low * u + (high - low) * s,
        low * u + (high - low) * s <= low * u + (high - low) * e,
        low * u + (high - low) * e <= high * u,
        high * u <= den * u,
{
    assert(0 <= low * u + (high - low) * s && low * u + (high - low) * s <= low * u + (high - low)
        * e && low * u + (high - low) * e <= high * u && high * u <= den * u) by (nonlinear_arith)
        requires
            0 <= low <= high <= den,
            0 <= s <= e <= u,
    ;
}

/// Power bookkeeping for one decoding step: the denominator's next two
/// powers of the unit stay representable while the step count is below
/// the witness length.
proof fn lemma_decode_pow(u: int, k: nat, n: nat)
    requires
        u >= 1,
        k < n,
        pow(u, (n + 1) as nat) <= u64::MAX,
    ensures
        pow(u, k) * u == pow(u, (k + 1) as nat),
        pow(u, (k + 1) as nat) * u == pow(u, (k + 2) as nat),
        pow(u, (k + 2) as nat) <= u64::MAX,
{
    lemma_pow_adds(u, k, 1);
    lemma_pow_adds(u, (k + 1) as nat, 1);
    lemma_pow1(u);
    lemma_pow_le(u, (k + 2) as nat, (n + 1) as nat);
}

/// One step of replaying a greedy run: the entry the scan finds is the
/// run's next one, and pushing it extends every invariant of the replay.
proof fn lemma_decode_step(m: Model, t: Target, wit: Seq<int>, pp: Seq<int>, i: int)
    requires
        greedy_decode_path(m, t, wit),
        0 <= pp.len() < wit.len(),
        pp == wit.take(pp.len() as int),
        first_containing(path_state(m, pp), m, t) == Some(i),
    ensures
        i == wit[pp.len() as int],
        pp.push(i) == wit.take(pp.len() as int + 1),
        pp.push(i).len() <= wit.len(),
        valid_path(m, pp.push(i)),
        forall|j: int|
            0 <= j < pp.push(i).len() ==> first_containing(path_state(m, pp.push(i).take(j)), m, t)
                == Some(#[trigger] pp.push(i)[j]),
        path_state(m, pp.push(i)) == step_state(path_state(m, pp), m, i),
        0 <= i < m.entries@.len(),
{
    let k = pp.len() as int;
    assert(first_containing(path_state(m, wit.take(k)), m, t) == Some(wit[k]));
    assert(i == wit[k]);
    let np = pp.push(i);
    assert(np =~= wit.take(k + 1));
    assert forall|j: int| 0 <= j < np.len() implies 0 <= #[trigger] np[j] < m.entries@.len() by {
        assert(np[j] == wit[j]);
    }
    assert forall|j: int|
        0 <= j < np.len() implies first_containing(path_state(m, np.take(j)), m, t) == Some(
        #[trigger] np[j],
    ) by {
        assert(np.take(j) =~= wit.take(j));
        assert(first_containing(path_state(m, wit.take(j)), m, t) == Some(wit[j]));
        assert(np[j] == wit[j]);
    }
    assert(np.drop_last() =~= pp);
    assert(np.last() == i);
}

/// Appending a symbol to a replay's output keeps it the symbol sequence
/// of the replayed path.
proof fn lemma_views_push(m: Model, ss: Seq<String>, idxs: Seq<int>, x: String, i: int)
    requires
        views_of(ss) == seq_symbols(m, idxs),
        ss.len() == idxs.len(),
        x@ == m.entries@[i].symbol@,
    ensures
        views_of(ss.push(x)) == seq_symbols(m, idxs.push(i)),
{
    assert forall|l: int|
        0 <= l < ss.len() + 1 implies views_of(ss.push(x))[l] == seq_symbols(m, idxs.push(i))[l] by {
        if l < ss.len() {
            assert(views_of(ss)[l] == seq_symbols(m, idxs)[l]);
        }
    }
    assert(views_of(ss.push(x)) =~= seq_symbols(m, idxs.push(i)));
}

/// Recovers a symbol sequence from a target interval by the greedy
/// containment search: starting from the unit interval, repeatedly take
/// the first entry whose mapped sub-interval contains the target, emit
/// its symbol and narrow to that sub-interval; stop as soon as no entry
/// contains the target.  Stopping is the normal end of decoding, not an
/// error: a target lying in the model's dead zone yields an empty
/// sequence.  For a target produced by narrowing along positive-weight
/// entries, the result is exactly that narrowing's symbol sequence.
#[verifier::rlimit(100)]
#[verifier::loop_isolation(false)]
pub fn decode(model: &Model, start: Fraction, end: Fraction) -> (r: Vec<String>)
    requires
        model.wf(),
        narrow_entries(*model),
        start.den >= 1,
        end.den >= 1,
        frac_lt(start.num as int, start.den as int, end.num as int, end.den as int),
        (exists|idxs: Seq<int>| decode_witness(*model, target_of(start, end), idxs))
            || first_containing(init_state(), *model, target_of(start, end)) is None,
    ensures
        exists|idxs: Seq<int>|
            greedy_decode_path(*model, target_of(start, end), idxs) && views_of(r@) == seq_symbols(
                *model,
                idxs,
            ),
        forall|idxs: Seq<int>|
            decode_witness(*model, target_of(start, end), idxs) ==> views_of(r@) == seq_symbols(
                *model,
                idxs,
            ),
{
    let ghost t = target_of(start, end);
    let ghost has_wit = exists|idxs: Seq<int>| decode_witness(*model, t, idxs);
    let ghost wit: Seq<int> = if has_wit {
        choose|idxs: Seq<int>| decode_witness(*model, t, idxs)
    } else {
        Seq::empty()
    };
    let u = model.unit;
    let mut low: u64 = 0;
    let mut high: u64 = 1;
    let mut den: u64 = 1;
    let mut out: Vec<String> = Vec::new();
    let ghost mut gpath: Seq<int> = Seq::empty();
    proof {
        lemma_pow0(u as int);
        if has_wit {
            lemma_witness_greedy(*model, t, wit);
        }
        assert(path_state(*model, gpath) == init_state());
        assert(views_of(out@) =~= seq_symbols(*model, gpath));
        assert(wit.take(0) =~= gpath);
    }
    let mut found = find_containing(model, low, high, den, &start, &end);
    while found.is_some()
        invariant
            valid_path(*model, gpath),
            has_wit ==> gpath.len() <= wit.len() && gpath == wit.take(gpath.len() as int),
            !has_wit ==> gpath == Seq::<int>::empty(),
            forall|j: int|
                0 <= j < gpath.len() ==> first_containing(path_state(*model, gpath.take(j)), *model, t)
                    == Some(#[trigger] gpath[j]),
            low == path_state(*model, gpath).low,
            high == path_state(*model, gpath).high,
            den == path_state(*model, gpath).den,
            den == pow(u as int, gpath.len() as nat),
            low <= high <= den,
            den as int * u as int <= u64::MAX,
            views_of(out@) == seq_symbols(*model, gpath),
            match found {
                Some(i) => 0 <= i < model.entries@.len() && first_containing(
                    path_state(*model, gpath),
                    *model,
                    t,
                ) == Some(i as int),
                None => first_containing(path_state(*model, gpath), *model, t) is None,
            },
        decreases wit.len() - gpath.len(),
    {
        let i = found.unwrap();
        proof {
            if !has_wit {
                assert(path_state(*model, gpath) == init_state());
                assert(false);
            }
            if gpath.len() == wit.len() {
                assert(wit.take(wit.len() as int) =~= wit);
                assert(false);
            }
            lemma_decode_step(*model, t, wit, gpath, i as int);
            lemma_decode_pow(u as int, gpath.len() as nat, wit.len() as nat);
            lemma_narrow_bounds(
                low as int,
                high as int,
                den as int,
                model.entries@[i as int].range.start as int,
                model.entries@[i as int].range.end as int,
                u as int,
            );
        }
        let e_start = model.entries[i].range.start;
        let e_end = model.entries[i].range.end;
        let width = high - low;
        let ghost prev = path_state(*model, gpath);
        let ghost prev_path = gpath;
        let ghost prev_out = out@;
        out.push(model.entries[i].symbol.clone());
        let new_low = low * u + width * e_start;
        let new_high = low * u + width * e_end;
        low = new_low;
        high = new_high;
        den = den * u;
        proof {
            lemma_views_push(*model, prev_out, prev_path, out@.last(), i as int);
            gpath = gpath.push(i as int);
            assert(out@ =~= prev_out.push(out@.last()));
        }
        found = find_containing(model, low, high, den, &start, &end);
    }
    proof {
        assert(greedy_decode_path(*model, t, gpath));
        assert forall|idxs: Seq<int>| decode_witness(*model, t, idxs) implies views_of(out@)
            == seq_symbols(*model, idxs) by {
            lemma_witness_greedy(*model, t, idxs);
            lemma_greedy_unique(*model, t, idxs, gpath);
        }
    }
    out
}

/// `pow` is monotone in the exponent for a positive base.
proof fn lemma_pow_le(b: int, e1: nat, e2: nat)
    requires
        b >= 1,
        e1 <= e2,
    ensures
        pow(b, e1) <= pow(b, e2),
    decreases e2 - e1,
{
    lemma_pow_positive(b, e1);
    if e1 < e2 {
        lemma_pow_le(b, e1, (e2 - 1) as nat);
        lemma_pow_positive(b, (e2 - 1) as nat);
        assert(pow(b, e2) == b * pow(b, (e2 - 1) as nat)) by {
            reveal(pow);
        }
        assert(pow(b, (e2 - 1) as nat) * 1 <= pow(b, (e2 - 1) as nat) * b) by (nonlinear_arith)
            requires
                b >= 1,
                pow(b, (e2 - 1) as nat) >= 1,
        ;
    }
}

} // verus!
