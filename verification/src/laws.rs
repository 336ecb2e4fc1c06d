//! The library's laws, stated and proved over the specification model:
//! what encoding the empty and the singleton sequence yields, and that
//! decoding is the exact inverse of encoding.

use vstd::prelude::*;
use vstd::arithmetic::power::pow;
use crate::model::Model;
use crate::codec::Fraction;
use crate::codec::target_of;
use crate::greedy::lemma_frac_lt_transfer;
use crate::greedy::lemma_greedy_unique;
use crate::greedy::lemma_path_state_bounds;
use crate::greedy::lemma_witness_greedy;
use crate::interval::DState;
use crate::interval::Target;
use crate::interval::decode_witness;
use crate::interval::frac_lt;
use crate::interval::entry_high;
use crate::interval::entry_low;
use crate::interval::step_state;
use crate::interval::encode_path;
use crate::interval::frac_eq;
use crate::interval::greedy_decode_path;
use crate::interval::has_symbol;
use crate::interval::init_state;
use crate::interval::narrow_entries;
use crate::interval::path_state;
use crate::interval::positive_path;
use crate::interval::seq_symbols;
use crate::interval::symbol_index;
use crate::interval::symbol_index_from;
use crate::interval::target_wf;
use crate::interval::valid_path;

verus! {

/// Encoding the empty sequence leaves the unit interval untouched: the
/// resulting bounds are exactly `(0/1, 1/1)`.
pub proof fn lemma_encode_empty(m: Model)
    ensures
        path_state(m, encode_path(m, Seq::empty())) == init_state(),
        init_state().low == 0 && init_state().high == 1 && init_state().den == 1,
{
    assert(encode_path(m, Seq::empty()) =~= Seq::<int>::empty());
}

/// Encoding a single symbol yields exactly that symbol's assigned range:
/// the bounds are the entry's range numerators over the model's unit.
pub proof fn lemma_encode_single(m: Model, sym: Seq<char>, i: int)
    requires
        m.wf(),
        0 <= i < m.entries@.len(),
        symbol_index(m, sym) == Some(i),
    ensures
        path_state(m, encode_path(m, seq![sym])) == (DState {
            low: m.entries@[i].range.start as int,
            high: m.entries@[i].range.end as int,
            den: m.unit as int,
        }),
{
    let p = encode_path(m, seq![sym]);
    assert(p =~= seq![i]);
    assert(p.drop_last() =~= Seq::<int>::empty());
    assert(path_state(m, p.drop_last()) == init_state());
    assert(p.last() == i);
    assert(path_state(m, p) == step_state(init_state(), m, i));
    let st0 = init_state();
    assert(st0.low == 0 && st0.high == 1 && st0.den == 1);
    assert(entry_low(st0, m, i) == 0 * m.unit + (1 - 0) * m.entries@[i].range.start);
    assert(0 * m.unit + (1 - 0) * m.entries@[i].range.start == m.entries@[i].range.start)
        by (nonlinear_arith);
    assert(entry_high(st0, m, i) == 0 * m.unit + (1 - 0) * m.entries@[i].range.end);
    assert(0 * m.unit + (1 - 0) * m.entries@[i].range.end == m.entries@[i].range.end)
        by (nonlinear_arith);
    assert(step_state(st0, m, i).den == 1 * m.unit);
}

/// The entry that the symbol scan names carries the symbol looked up,
/// and a failed scan means no remaining entry carries it.
proof fn lemma_symbol_scan_props(m: Model, sym: Seq<char>, a: int)
    requires
        0 <= a <= m.entries@.len(),
    ensures
        match symbol_index_from(m, sym, a) {
            Some(i) => a <= i < m.entries@.len() && m.entries@[i].symbol@ == sym,
            None => forall|j: int| a <= j < m.entries@.len() ==> m.entries@[j].symbol@ != sym,
        },
    decreases m.entries@.len() - a,
{
    if a < m.entries@.len() && m.entries@[a].symbol@ != sym {
        lemma_symbol_scan_props(m, sym, a + 1);
    }
}

/// The entry that `symbol_index` names carries the symbol looked up.
pub proof fn lemma_symbol_index_props(m: Model, sym: Seq<char>)
    ensures
        match symbol_index(m, sym) {
            Some(i) => 0 <= i < m.entries@.len() && m.entries@[i].symbol@ == sym,
            None => forall|j: int| 0 <= j < m.entries@.len() ==> m.entries@[j].symbol@ != sym,
        },
{
    lemma_symbol_scan_props(m, sym, 0);
}

/// The interval that encoding a sequence of known, positive-weight
/// symbols produces is a decoding witness for itself: narrowing along
/// the encoded path reproduces it exactly, and it is non-empty.  Hence
/// the bounds encoding hands out satisfy what decoding asks of a target,
/// as long as one further power of the unit stays representable.
pub proof fn lemma_encode_gives_witness(
    m: Model,
    syms: Seq<Seq<char>>,
    start: Fraction,
    end: Fraction,
)
    requires
        m.wf(),
        forall|j: int| 0 <= j < syms.len() ==> has_symbol(m, #[trigger] syms[j]),
        positive_path(m, encode_path(m, syms)),
        pow(m.unit as int, (syms.len() + 1) as nat) <= u64::MAX,
        start.num == path_state(m, encode_path(m, syms)).low,
        end.num == path_state(m, encode_path(m, syms)).high,
        start.den == path_state(m, encode_path(m, syms)).den,
        end.den == path_state(m, encode_path(m, syms)).den,
    ensures
        decode_witness(m, target_of(start, end), encode_path(m, syms)),
        frac_lt(start.num as int, start.den as int, end.num as int, end.den as int),
{
    let p = encode_path(m, syms);
    assert forall|j: int| 0 <= j < p.len() implies 0 <= #[trigger] p[j] < m.entries@.len() by {
        lemma_symbol_index_props(m, syms[j]);
    }
    lemma_path_state_bounds(m, p);
    let fin = path_state(m, p);
    assert(fin.low * fin.den < fin.high * fin.den) by (nonlinear_arith)
        requires
            fin.low < fin.high,
            fin.den >= 1,
    ;
}

/// The round-trip law: the greedy containment search for the interval
/// that encoding a sequence of known, positive-weight symbols produces
/// recovers exactly that sequence.  Symbols of weight zero are left out:
/// encoding them collapses the interval to an empty one, from which no
/// search could tell the sequence apart from any other.
pub proof fn lemma_round_trip(m: Model, syms: Seq<Seq<char>>, t: Target, decoded: Seq<int>)
    requires
        m.wf(),
        narrow_entries(m),
        target_wf(t),
        forall|j: int| 0 <= j < syms.len() ==> has_symbol(m, #[trigger] syms[j]),
        positive_path(m, encode_path(m, syms)),
        frac_eq(
            path_state(m, encode_path(m, syms)).low,
            path_state(m, encode_path(m, syms)).den,
            t.low_num,
            t.low_den,
        ),
        frac_eq(
            path_state(m, encode_path(m, syms)).high,
            path_state(m, encode_path(m, syms)).den,
            t.high_num,
            t.high_den,
        ),
        greedy_decode_path(m, t, decoded),
    ensures
        decoded == encode_path(m, syms),
        seq_symbols(m, decoded) == syms,
{
    let p = encode_path(m, syms);
    assert forall|j: int| 0 <= j < p.len() implies 0 <= #[trigger] p[j] < m.entries@.len()
        && m.entries@[p[j]].symbol@ == syms[j] by {
        lemma_symbol_index_props(m, syms[j]);
    }
    let fin = path_state(m, p);
    lemma_path_state_bounds(m, p);
    assert(fin.low * fin.den < fin.high * fin.den) by (nonlinear_arith)
        requires
            fin.low < fin.high,
            fin.den >= 1,
    ;
    lemma_frac_lt_transfer(
        fin.low,
        fin.den,
        fin.high,
        fin.den,
        t.low_num,
        t.low_den,
        t.high_num,
        t.high_den,
    );
    lemma_witness_greedy(m, t, p);
    lemma_greedy_unique(m, t, decoded, p);
    assert(seq_symbols(m, p) =~= syms);
}

} // verus!
