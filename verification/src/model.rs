//! The probability model: an ordered alphabet of symbols, each owning a
//! disjoint sub-interval of the unit interval proportional to its weight.

use vstd::prelude::*;

verus! {

/// A half-open sub-interval `[start/unit, end/unit)` of the unit interval,
/// held as numerators over the owning model's common denominator.
#[derive(Clone, Copy, Debug)]
pub struct Range {
    pub start: u64,
    pub end: u64,
}

/// One alphabet member: its symbol, its assigned range, and its weight.
/// The weight equals the range's width and is kept for inspection.
#[derive(Debug)]
pub struct SymbolEntry {
    pub symbol: String,
    pub range: Range,
    pub weight: u64,
}

/// One (symbol, weight) pair consumed by model construction.  The weight is
/// the symbol's probability counted in units of `1/unit` for the `unit`
/// handed to [`Model::new`] beside it.
#[derive(Debug)]
pub struct Probability {
    pub symbol: String,
    pub weight: u64,
}

/// Why a model could not be built.
#[derive(Clone, Copy, Debug)]
pub enum ModelError {
    /// The running total of the weights left the representable range.
    Overflow,
    /// The running total of the weights exceeded the unit denominator,
    /// that is, the probabilities sum to more than one.
    RangeExceeded,
}

/// An immutable probability model.  The entries keep the caller-supplied
/// order; their ranges tile `[0, total)` contiguously over the common
/// denominator `unit`.
#[derive(Debug)]
pub struct Model {
    pub unit: u64,
    pub entries: Vec<SymbolEntry>,
}

impl Model {
    /// The model's structural invariant: a positive denominator, and
    /// contiguous, non-overlapping ranges within the unit interval, each
    /// entry's weight agreeing with its range's width.
    pub open spec fn wf(self) -> bool {
        &&& self.unit >= 1
        &&& forall|i: int|
            0 <= i < self.entries@.len() ==> {
                let e = #[trigger] self.entries@[i];
                &&& e.range.start <= e.range.end
                &&& e.range.end <= self.unit
                &&& e.weight == e.range.end - e.range.start
                &&& e.range.start == if i == 0 {
                    0
                } else {
                    self.entries@[i - 1].range.end
                }
            }
    }
}

/// The sum of the first `i` weights, as an unbounded integer.
pub open spec fn weight_sum(ps: Seq<Probability>, i: int) -> int
    decreases i,
{
    if i <= 0 {
        0
    } else {
        weight_sum(ps, i - 1) + ps[i - 1].weight
    }
}

/// The running weight total never decreases as more weights are taken.
pub proof fn lemma_weight_sum_mono(ps: Seq<Probability>, i: int, j: int)
    requires
        i <= j,
    ensures
        weight_sum(ps, i) <= weight_sum(ps, j),
    decreases j - i,
{
    if i < j {
        lemma_weight_sum_mono(ps, i, j - 1);
    }
}

impl Model {
    /// Builds a model from an ordered list of (symbol, weight) pairs, each
    /// weight counted in units of `1/unit`.  Ranges are assigned in input
    /// order from a running total that starts at zero.  Construction fails
    /// with `Overflow` when the running total leaves the representable
    /// range, and with `RangeExceeded` when it exceeds `unit` (the
    /// probabilities sum to more than one); in either case no model is
    /// produced.  Weights summing to less than `unit` leave a final dead
    /// zone matching no symbol; this is accepted, not corrected.
    pub fn new(probabilities: Vec<Probability>, unit: u64) -> (r: Result<Model, ModelError>)
        requires
            unit >= 1,
        ensures
            r is Ok <==> (forall|i: int|
                0 <= i <= probabilities@.len() ==> weight_sum(probabilities@, i) <= unit),
            r matches Ok(m) ==> {
                &&& m.wf()
                &&& m.unit == unit
                &&& m.entries@.len() == probabilities@.len()
                &&& forall|i: int|
                    0 <= i < probabilities@.len() ==> {
                        let e = #[trigger] m.entries@[i];
                        &&& e.symbol@ == probabilities@[i].symbol@
                        &&& e.weight == probabilities@[i].weight
                        &&& e.range.start == weight_sum(probabilities@, i)
                        &&& e.range.end == weight_sum(probabilities@, i + 1)
                    }
            },
            r == Result::<Model, ModelError>::Err(ModelError::Overflow) <==> (exists|k: int|
                {
                    &&& 1 <= k <= probabilities@.len()
                    &&& #[trigger] weight_sum(probabilities@, k) > u64::MAX
                    &&& forall|j: int| 1 <= j < k ==> weight_sum(probabilities@, j) <= unit
                }),
            r == Result::<Model, ModelError>::Err(ModelError::RangeExceeded) <==> (exists|k: int|
                {
                    &&& 1 <= k <= probabilities@.len()
                    &&& unit < #[trigger] weight_sum(probabilities@, k) <= u64::MAX
                    &&& forall|j: int| 1 <= j < k ==> weight_sum(probabilities@, j) <= unit
                }),
    {
        let ghost ps = probabilities@;
        let mut entries: Vec<SymbolEntry> = Vec::new();
        let mut cumulative: u64 = 0;
        let mut idx: usize = 0;
        let n = probabilities.len();
        while idx < n
            invariant
                unit >= 1,
                n == ps.len(),
                ps == probabilities@,
                idx <= n,
                cumulative == weight_sum(ps, idx as int),
                cumulative <= unit,
                forall|j: int| 0 <= j <= idx ==> weight_sum(ps, j) <= unit,
                entries@.len() == idx,
                forall|i: int|
                    0 <= i < idx ==> {
                        let e = #[trigger] entries@[i];
                        &&& e.symbol@ == ps[i].symbol@
                        &&& e.weight == ps[i].weight
                        &&& e.range.start == weight_sum(ps, i)
                        &&& e.range.end == weight_sum(ps, i + 1)
                    },
            decreases n - idx,
        {
            let p = &probabilities[idx];
            if p.weight > u64::MAX - cumulative {
                proof {
                    assert(weight_sum(ps, idx + 1) > u64::MAX);
                    assert forall|j: int| 1 <= j < idx + 1 implies weight_sum(ps, j) <= unit by {
                        lemma_weight_sum_mono(ps, j, idx as int);
                    }
                }
                return Err(ModelError::Overflow);
            }
            let end = cumulative + p.weight;
            if end > unit {
                proof {
                    assert(unit < weight_sum(ps, idx + 1) <= u64::MAX);
                    assert forall|j: int| 1 <= j < idx + 1 implies weight_sum(ps, j) <= unit by {
                        lemma_weight_sum_mono(ps, j, idx as int);
                    }
                }
                return Err(ModelError::RangeExceeded);
            }
            entries.push(
                SymbolEntry {
                    symbol: p.symbol.clone(),
                    range: Range { start: cumulative, end: end },
                    weight: p.weight,
                },
            );
            cumulative = end;
            idx = idx + 1;
        }
        proof {
            assert forall|i: int| 0 <= i <= ps.len() implies weight_sum(ps, i) <= unit by {
                lemma_weight_sum_mono(ps, i, ps.len() as int);
            }
        }
        Ok(Model { unit, entries })
    }
}

} // verus!
