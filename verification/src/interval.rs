//! The mathematical model of interval narrowing: exact fractions, the
//! narrowing state, and the greedy containment search that decoding
//! performs.  Everything here is specification-level; the executable
//! counterparts live in [`crate::codec`].

use vstd::prelude::*;
use vstd::arithmetic::power::pow;
use crate::model::Model;

verus! {

/// A narrowing state: the current interval `[low/den, high/den)`.
pub ghost struct DState {
    pub low: int,
    pub high: int,
    pub den: int,
}

/// A target interval `[low_num/low_den, high_num/high_den)`, the two
/// bounds carrying their own denominators.
pub ghost struct Target {
    pub low_num: int,
    pub low_den: int,
    pub high_num: int,
    pub high_den: int,
}

/// Both of the target's denominators are positive, so its bounds are
/// fractions.
pub open spec fn target_wf(t: Target) -> bool {
    t.low_den >= 1 && t.high_den >= 1
}

/// The target interval is non-empty: its lower bound lies strictly below
/// its upper bound.
pub open spec fn target_nonempty(t: Target) -> bool {
    frac_lt(t.low_num, t.low_den, t.high_num, t.high_den)
}

/// `a_num/a_den <= b_num/b_den`, by cross multiplication (denominators
/// must be positive for this to mean the fraction ordering).
pub open spec fn frac_le(a_num: int, a_den: int, b_num: int, b_den: int) -> bool {
    a_num * b_den <= b_num * a_den
}

/// `a_num/a_den < b_num/b_den`, by cross multiplication.
pub open spec fn frac_lt(a_num: int, a_den: int, b_num: int, b_den: int) -> bool {
    a_num * b_den < b_num * a_den
}

/// `a_num/a_den == b_num/b_den`, by cross multiplication.
pub open spec fn frac_eq(a_num: int, a_den: int, b_num: int, b_den: int) -> bool {
    a_num * b_den == b_num * a_den
}

/// The whole unit interval `[0/1, 1/1)`, where every narrowing starts.
pub open spec fn init_state() -> DState {
    DState { low: 0, high: 1, den: 1 }
}

/// The numerator, over `st.den * m.unit`, of the lower bound that entry
/// `i`'s range maps to inside the interval of `st`.
pub open spec fn entry_low(st: DState, m: Model, i: int) -> int {
    st.low * m.unit + (st.high - st.low) * m.entries@[i].range.start
}

/// The numerator, over `st.den * m.unit`, of the upper bound that entry
/// `i`'s range maps to inside the interval of `st`.
pub open spec fn entry_high(st: DState, m: Model, i: int) -> int {
    st.low * m.unit + (st.high - st.low) * m.entries@[i].range.end
}

/// One narrowing step: the interval of `st` shrunk to the sub-interval
/// that entry `i`'s range occupies within it.
pub open spec fn step_state(st: DState, m: Model, i: int) -> DState {
    DState { low: entry_low(st, m, i), high: entry_high(st, m, i), den: st.den * m.unit }
}

/// The state reached from the whole unit interval by narrowing along the
/// entries of `idxs`, in order.
pub open spec fn path_state(m: Model, idxs: Seq<int>) -> DState
    decreases idxs.len(),
{
    if idxs.len() == 0 {
        init_state()
    } else {
        step_state(path_state(m, idxs.drop_last()), m, idxs.last())
    }
}

/// Every element of `idxs` names an entry of the model.
pub open spec fn valid_path(m: Model, idxs: Seq<int>) -> bool {
    forall|j: int| 0 <= j < idxs.len() ==> 0 <= #[trigger] idxs[j] < m.entries@.len()
}

/// Every entry named by `idxs` has a positive weight, so each step of the
/// path strictly narrows the interval.
pub open spec fn positive_path(m: Model, idxs: Seq<int>) -> bool {
    forall|j: int|
        0 <= j < idxs.len() ==> m.entries@[#[trigger] idxs[j]].range.start
            < m.entries@[idxs[j]].range.end
}

/// Every entry's range is narrower than the whole unit interval, that is,
/// no single symbol carries the entire probability mass.
pub open spec fn narrow_entries(m: Model) -> bool {
    forall|i: int|
        0 <= i < m.entries@.len() ==> (#[trigger] m.entries@[i]).range.end
            - m.entries@[i].range.start < m.unit
}

/// The target interval lies inside the sub-interval that entry `i`'s
/// range maps to within the interval of `st`: the containment test
/// decoding scans with.
pub open spec fn contains_target(st: DState, m: Model, i: int, t: Target) -> bool {
    &&& frac_le(entry_low(st, m, i), st.den * m.unit, t.low_num, t.low_den)
    &&& frac_le(t.high_num, t.high_den, entry_high(st, m, i), st.den * m.unit)
}

/// The first entry at or after `i` whose mapped sub-interval contains the
/// target, if any.
pub open spec fn first_containing_from(st: DState, m: Model, t: Target, i: int) -> Option<int>
    decreases m.entries@.len() - i,
{
    if i < 0 || i >= m.entries@.len() {
        None
    } else if contains_target(st, m, i, t) {
        Some(i)
    } else {
        first_containing_from(st, m, t, i + 1)
    }
}

/// The first entry whose mapped sub-interval contains the target, if any:
/// the entry one round of the decoding scan selects.
pub open spec fn first_containing(st: DState, m: Model, t: Target) -> Option<int> {
    first_containing_from(st, m, t, 0)
}

/// `idxs` is exactly the run of the greedy containment search for the
/// target: at every step the first containing entry is taken, and the
/// search stops only when no entry contains the target.
pub open spec fn greedy_decode_path(m: Model, t: Target, idxs: Seq<int>) -> bool {
    &&& valid_path(m, idxs)
    &&& forall|j: int|
        0 <= j < idxs.len() ==> first_containing(path_state(m, idxs.take(j)), m, t) == Some(
            #[trigger] idxs[j],
        )
    &&& first_containing(path_state(m, idxs), m, t) is None
}

/// The first entry at or after `i` whose symbol is `sym`, if any.
pub open spec fn symbol_index_from(m: Model, sym: Seq<char>, i: int) -> Option<int>
    decreases m.entries@.len() - i,
{
    if i < 0 || i >= m.entries@.len() {
        None
    } else if m.entries@[i].symbol@ == sym {
        Some(i)
    } else {
        symbol_index_from(m, sym, i + 1)
    }
}

/// The first entry whose symbol is `sym`, if any: the entry encoding
/// narrows by when it meets `sym`.
pub open spec fn symbol_index(m: Model, sym: Seq<char>) -> Option<int> {
    symbol_index_from(m, sym, 0)
}

/// Whether the model's alphabet has an entry for `sym`.
pub open spec fn has_symbol(m: Model, sym: Seq<char>) -> bool {
    symbol_index(m, sym) is Some
}

/// The entry indices encoding walks for a symbol sequence: each symbol's
/// first entry (unknown symbols are given a placeholder; encoding fails
/// on them before the path matters).
pub open spec fn encode_path(m: Model, syms: Seq<Seq<char>>) -> Seq<int> {
    Seq::new(
        syms.len(),
        |j: int|
            match symbol_index(m, syms[j]) {
                Some(i) => i,
                None => 0,
            },
    )
}

/// The views of a sequence of strings.
pub open spec fn views_of(ss: Seq<String>) -> Seq<Seq<char>> {
    ss.map_values(|s: String| s@)
}

/// The symbols named by a sequence of entry indices, in order.
pub open spec fn seq_symbols(m: Model, idxs: Seq<int>) -> Seq<Seq<char>> {
    idxs.map_values(|i: int| m.entries@[i].symbol@)
}

/// A target the decoder is entitled to: an interval that narrowing along
/// some sequence of positive-weight entries produces exactly, small
/// enough that the narrowing arithmetic stays representable.
pub open spec fn decode_witness(m: Model, t: Target, idxs: Seq<int>) -> bool {
    &&& valid_path(m, idxs)
    &&& positive_path(m, idxs)
    &&& pow(m.unit as int, (idxs.len() + 1) as nat) <= u64::MAX
    &&& frac_eq(path_state(m, idxs).low, path_state(m, idxs).den, t.low_num, t.low_den)
    &&& frac_eq(path_state(m, idxs).high, path_state(m, idxs).den, t.high_num, t.high_den)
}

} // verus!
