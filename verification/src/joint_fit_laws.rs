//! Laws of joint ternary fitting.

use crate::float_bits::{
    f32_finite, f64_equal, f64_finite, f64_less, f64_units, f64_units_order, total_rank, F32_SIGN,
    F64_INFINITY, F64_SIGN,
};
use crate::joint_fit::{
    assignment_error, canonical_order, canonical_trits, dense_error, first_least, fit_error,
    invalid_at, lemma_order_covers, lemma_order_rank, nonfinite_at, nonfinite_entry_at,
    plane_before, unsigned_scale, JointFitConfig, JointFitError, JointFitUpdatePhase, MetricInput,
    ProgressView, ONE,
};
use vstd::arithmetic::power2::{lemma2_to64_rest, lemma_pow2_adds, pow2};
use vstd::prelude::*;

verus! {

/// A finite binary64 pattern as a multiple of `2^-1074`, with its sign.
pub open spec fn signed_units(bits: u64) -> int {
    if bits < F64_SIGN {
        f64_units(bits) as int
    } else {
        -(f64_units((bits - F64_SIGN) as u64) as int)
    }
}

/// What planes reconstruct of one weight, as an exact multiple of `2^-1074`.
pub open spec fn reconstructed(scales: Seq<u64>, trits: Seq<Seq<i8>>, weight: int) -> int
    decreases scales.len(),
{
    if scales.len() == 0 {
        0
    } else {
        reconstructed(scales.drop_last(), trits.drop_last(), weight) + signed_units(scales.last())
            * trits.last()[weight]
    }
}

/// The coefficients of planes in canonical form.
pub open spec fn ordered_scales(scales: Seq<u64>, order: Seq<usize>) -> Seq<u64> {
    Seq::new(order.len(), |k: int| unsigned_scale(scales[order[k] as int]))
}

/// The codes of planes in canonical form.
pub open spec fn ordered_trits(
    scales: Seq<u64>,
    trits: Seq<Seq<i8>>,
    order: Seq<usize>,
) -> Seq<Seq<i8>> {
    Seq::new(
        order.len(),
        |k: int| canonical_trits(scales[order[k] as int], trits[order[k] as int]),
    )
}

/// Dropping a coefficient's sign and flipping its codes keeps their product.
proof fn lemma_flip_keeps_products(scale: u64, trits: Seq<i8>, weight: int)
    requires
        0 <= weight < trits.len(),
        -1 <= trits[weight] <= 1,
    ensures
        signed_units(unsigned_scale(scale)) * canonical_trits(scale, trits)[weight]
            == signed_units(scale) * trits[weight],
{
    if unsigned_scale(scale) != scale {
        let magnitude = signed_units(unsigned_scale(scale));
        let code = trits[weight] as int;
        assert(signed_units(scale) == -magnitude);
        assert(canonical_trits(scale, trits)[weight] == -code);
        assert(magnitude * (-code) == (-magnitude) * code) by (nonlinear_arith);
    }
}

/// A reconstruction is the sum of the products that its planes stand for.
proof fn lemma_reconstructed_is_sum(
    scales: Seq<u64>,
    trits: Seq<Seq<i8>>,
    indices: Seq<usize>,
    shown_scales: Seq<u64>,
    shown_trits: Seq<Seq<i8>>,
    weight: int,
    count: int,
    start: int,
)
    requires
        0 <= count <= indices.len(),
        shown_scales.len() == indices.len(),
        shown_trits.len() == indices.len(),
        forall|k: int|
            0 <= k < indices.len() ==> signed_units(#[trigger] shown_scales[k])
                * shown_trits[k][weight] == signed_units(scales[indices[k] as int])
                * trits[indices[k] as int][weight],
    ensures
        indices.take(count).fold_right(
            |p: usize, sum: int| sum + signed_units(scales[p as int]) * trits[p as int][weight],
            start,
        ) == start + reconstructed(shown_scales.take(count), shown_trits.take(count), weight),
    decreases count,
{
    let add_term = |p: usize, sum: int|
        sum + signed_units(scales[p as int]) * trits[p as int][weight];
    let part = indices.take(count);
    if count > 0 {
        let last = part.last();
        assert(last == indices[count - 1]);
        assert(part.drop_last() =~= indices.take(count - 1));
        assert(shown_scales.take(count).drop_last() =~= shown_scales.take(count - 1));
        assert(shown_trits.take(count).drop_last() =~= shown_trits.take(count - 1));
        assert(shown_scales.take(count).last() == shown_scales[count - 1]);
        assert(shown_trits.take(count).last() == shown_trits[count - 1]);
        lemma_reconstructed_is_sum(
            scales,
            trits,
            indices,
            shown_scales,
            shown_trits,
            weight,
            count - 1,
            add_term(last, start),
        );
    }
}

/// A canonical order holds every plane once.
proof fn lemma_order_is_permutation(scales: Seq<u64>, order: Seq<usize>)
    requires
        scales.len() <= usize::MAX,
        canonical_order(scales, order),
    ensures
        order.to_multiset() == Seq::new(scales.len(), |p: int| p as usize).to_multiset(),
{
    broadcast use vstd::seq_lib::group_to_multiset_ensures;

    let all = Seq::new(scales.len(), |p: int| p as usize);
    lemma_order_rank(scales, order);
    assert(all.no_duplicates());
    order.lemma_multiset_has_no_duplicates();
    all.lemma_multiset_has_no_duplicates();
    assert forall|p: usize| order.to_multiset().count(p) == all.to_multiset().count(p) by {
        if p < scales.len() {
            lemma_order_covers(scales, order, p);
            assert(all[p as int] == p);
            assert(all.contains(p) && order.contains(p));
        } else {
            assert(!order.contains(p));
            assert(!all.contains(p));
        }
    }
    assert(order.to_multiset() =~= all.to_multiset());
}

/// Bringing solved planes into canonical form keeps what they reconstruct of every weight,
/// exactly.
pub proof fn canonical_planes_reconstruct_the_same(
    scales: Seq<u64>,
    trits: Seq<Seq<i8>>,
    order: Seq<usize>,
    weight: int,
)
    requires
        scales.len() <= usize::MAX,
        trits.len() == scales.len(),
        canonical_order(scales, order),
        forall|p: int|
            0 <= p < trits.len() ==> 0 <= weight < (#[trigger] trits[p]).len() && -1
                <= trits[p][weight] <= 1,
    ensures
        reconstructed(ordered_scales(scales, order), ordered_trits(scales, trits, order), weight)
            == reconstructed(scales, trits, weight),
{
    let add_term = |p: usize, sum: int|
        sum + signed_units(scales[p as int]) * trits[p as int][weight];
    let all = Seq::new(scales.len(), |p: int| p as usize);
    let shown_scales = ordered_scales(scales, order);
    let shown_trits = ordered_trits(scales, trits, order);
    assert forall|k: int| 0 <= k < order.len() implies signed_units(#[trigger] shown_scales[k])
        * shown_trits[k][weight] == signed_units(scales[order[k] as int])
        * trits[order[k] as int][weight] by {
        let p = order[k] as int;
        assert(trits[p].len() > weight);
        lemma_flip_keeps_products(scales[p], trits[p], weight);
    }
    let count = order.len() as int;
    lemma_reconstructed_is_sum(
        scales,
        trits,
        order,
        shown_scales,
        shown_trits,
        weight,
        count,
        0,
    );
    lemma_reconstructed_is_sum(scales, trits, all, scales, trits, weight, count, 0);
    assert(order.take(count) =~= order);
    assert(all.take(count) =~= all);
    assert(shown_scales.take(count) =~= shown_scales);
    assert(shown_trits.take(count) =~= shown_trits);
    assert(scales.take(count) =~= scales);
    assert(trits.take(count) =~= trits);
    lemma_order_is_permutation(scales, order);
    assert(vstd::seq_lib::commutative_foldr(add_term));
    vstd::seq_lib::lemma_fold_right_permutation(order, all, add_term, 0);
}

/// Among finite binary64 values the order is that of the numbers they stand for, and values are
/// equal exactly if these are. Every finite value is less than infinity.
pub proof fn finite_values_are_ordered_as_numbers(left: u64, right: u64)
    requires
        f64_finite(left),
        f64_finite(right),
    ensures
        f64_less(left, right) <==> signed_units(left) < signed_units(right),
        f64_equal(left, right) <==> signed_units(left) == signed_units(right),
        f64_less(left, F64_INFINITY),
        total_rank(left) < total_rank(right) ==> !f64_less(right, left),
{
    let a = (left % F64_SIGN) as u64;
    let b = (right % F64_SIGN) as u64;
    f64_units_order(a, b);
    f64_units_order(a, 0);
    f64_units_order(b, 0);
    assert(f64_units(0) == 0);
}

/// The pattern of one stands for one.
pub proof fn one_stands_for_one()
    ensures
        signed_units(ONE) == pow2(1074),
{
    lemma2_to64_rest();
    lemma_pow2_adds(52, 1022);
    assert(ONE / 0x10_0000_0000_0000 == 1023 && ONE % 0x10_0000_0000_0000 == 0);
}

/// Solved coefficients that are numbers come out nonnegative, with their magnitudes, the largest
/// first; of two equal patterns the earlier plane comes first.
pub proof fn canonical_coefficients_descend(scales: Seq<u64>, order: Seq<usize>, i: int, j: int)
    requires
        scales.len() <= usize::MAX,
        canonical_order(scales, order),
        0 <= i < j < order.len(),
        forall|p: int| 0 <= p < scales.len() ==> f64_finite(#[trigger] scales[p]),
    ensures
        !f64_less(ordered_scales(scales, order)[i], 0),
        signed_units(ordered_scales(scales, order)[i]) == signed_units(scales[order[i] as int])
            || signed_units(ordered_scales(scales, order)[i]) == -signed_units(
            scales[order[i] as int],
        ),
        signed_units(ordered_scales(scales, order)[j]) <= signed_units(
            ordered_scales(scales, order)[i],
        ),
        scales[order[i] as int] == scales[order[j] as int] ==> order[i] < order[j],
{
    let a = ordered_scales(scales, order)[i];
    let b = ordered_scales(scales, order)[j];
    assert(plane_before(scales, order[i] as int, order[j] as int));
    assert(f64_finite(scales[order[i] as int]) && f64_finite(scales[order[j] as int]));
    finite_values_are_ordered_as_numbers(a, b);
    finite_values_are_ordered_as_numbers(b, a);
    finite_values_are_ordered_as_numbers(a, 0);
}

/// No basin's objective is less than the selected one's, and an earlier basin's is not the same.
pub proof fn the_selected_basin_is_least(objectives: Seq<u64>, selected: int, other: int)
    requires
        first_least(objectives, selected),
        0 <= other < objectives.len(),
    ensures
        0 <= selected < objectives.len(),
        !f64_less(objectives[other], objectives[selected]),
        other < selected ==> objectives[other] != objectives[selected],
{
}

/// After an offer the objective is the offered one or the one before, never a greater one than
/// either, and a receipt is added exactly if it changed to a lesser one. What was recorded before
/// stays.
pub proof fn offers_keep_the_lesser_objective(
    progress: ProgressView,
    iteration: usize,
    phase: JointFitUpdatePhase,
    objective: u64,
)
    requires
        progress.valid(),
    ensures
        ({
            let after = progress.offered(iteration, phase, objective);
            &&& after.valid()
            &&& after.objective() == objective || after.objective() == progress.objective()
            &&& !f64_less(objective, after.objective())
            &&& !f64_less(progress.objective(), after.objective())
            &&& after.kind == progress.kind
            &&& after.solves == progress.solves
            &&& f64_less(after.objective(), progress.objective()) ==> {
                &&& after.updates.drop_last() == progress.updates
                &&& after.accepted.drop_last() == progress.accepted
                &&& after.updates.last().iteration == iteration
                &&& after.updates.last().phase == phase
                &&& after.updates.last().objective_before == progress.objective()
                &&& after.updates.last().objective_after == objective
            }
            &&& !f64_less(after.objective(), progress.objective()) ==> after == progress
        }),
{
    let after = progress.offered(iteration, phase, objective);
    if f64_less(objective, progress.objective()) {
        assert(after.updates.drop_last() =~= progress.updates);
        assert(after.accepted.drop_last() =~= progress.accepted);
        assert forall|k: int| 0 <= k < after.updates.len() implies {
            &&& (#[trigger] after.updates[k]).objective_before == after.accepted[k]
            &&& after.updates[k].objective_after == after.accepted[k + 1]
            &&& f64_less(after.accepted[k + 1], after.accepted[k])
        } by {
            if k < progress.updates.len() {
                assert(after.updates[k] == progress.updates[k]);
                assert(after.accepted[k] == progress.accepted[k]);
                assert(after.accepted[k + 1] == progress.accepted[k + 1]);
            }
        }
    }
}

/// Whether a binary32 pattern is a finite number that is not below zero.
pub open spec fn unsigned_number(bits: u32) -> bool {
    f32_finite(bits) && (bits < F32_SIGN || bits % F32_SIGN == 0)
}

proof fn lemma_nonfinite(values: Seq<u32>, from: int)
    requires
        0 <= from <= values.len(),
    ensures
        match nonfinite_at(values, from) {
            None => forall|k: int| from <= k < values.len() ==> f32_finite(#[trigger] values[k]),
            Some(index) => {
                &&& from <= index < values.len()
                &&& !f32_finite(values[index])
                &&& forall|k: int| from <= k < index ==> f32_finite(#[trigger] values[k])
            },
        },
    decreases values.len() - from,
{
    if from < values.len() {
        lemma_nonfinite(values, from + 1);
    }
}

proof fn lemma_invalid(values: Seq<u32>, from: int)
    requires
        0 <= from <= values.len(),
    ensures
        match invalid_at(values, from) {
            None => forall|k: int|
                from <= k < values.len() ==> unsigned_number(#[trigger] values[k]),
            Some(index) => {
                &&& from <= index < values.len()
                &&& !unsigned_number(values[index])
                &&& forall|k: int| from <= k < index ==> unsigned_number(#[trigger] values[k])
            },
        },
    decreases values.len() - from,
{
    if from < values.len() {
        lemma_invalid(values, from + 1);
    }
}

proof fn lemma_nonfinite_entry(values: Seq<u64>, from: int)
    requires
        0 <= from <= values.len(),
    ensures
        match nonfinite_entry_at(values, from) {
            None => forall|k: int| from <= k < values.len() ==> f64_finite(#[trigger] values[k]),
            Some(index) => {
                &&& from <= index < values.len()
                &&& !f64_finite(values[index])
                &&& forall|k: int| from <= k < index ==> f64_finite(#[trigger] values[k])
            },
        },
    decreases values.len() - from,
{
    if from < values.len() {
        lemma_nonfinite_entry(values, from + 1);
    }
}

/// Whether a configuration asks for something that can be fitted: one to three planes, at least
/// one iteration and one restart, a finite ridge above zero and a finite condition limit above
/// one.
pub open spec fn fittable(config: JointFitConfig) -> bool {
    &&& config.planes == 1 || config.planes == 2 || config.planes == 3
    &&& config.max_iterations >= 1
    &&& config.em_restarts >= 1
    &&& f64_finite(config.ridge) && signed_units(config.ridge) > 0
    &&& f64_finite(config.ridge_condition_limit) && signed_units(config.ridge_condition_limit)
        > pow2(1074)
}

/// Whether a metric scores a number of weights: a diagonal one has as many entries, none below
/// zero and one above, and a dense one has that dimension.
pub open spec fn scores(metric: MetricInput<'_>, weights: nat) -> bool {
    match metric {
        MetricInput::Identity => true,
        MetricInput::Diagonal(values) => {
            &&& values@.len() == weights
            &&& forall|k: int| 0 <= k < weights ==> unsigned_number(#[trigger] values@[k])
            &&& exists|k: int| 0 <= k < weights && #[trigger] values@[k] % F32_SIGN != 0
        },
        MetricInput::Dense(dimension) => dimension == weights,
    }
}

/// A fit is accepted exactly if there are weights, all of them finite, the configuration is
/// fittable and the metric scores the weights.
pub proof fn only_sound_fits_are_accepted(
    weights: Seq<u32>,
    metric: MetricInput<'_>,
    config: JointFitConfig,
)
    ensures
        fit_error(weights, metric, config) is None <==> {
            &&& weights.len() > 0
            &&& forall|k: int| 0 <= k < weights.len() ==> f32_finite(#[trigger] weights[k])
            &&& fittable(config)
            &&& scores(metric, weights.len())
        },
{
    lemma_nonfinite(weights, 0);
    one_stands_for_one();
    if f64_finite(config.ridge) {
        finite_values_are_ordered_as_numbers(0, config.ridge);
        assert(f64_units(0) == 0);
    }
    if f64_finite(config.ridge_condition_limit) {
        finite_values_are_ordered_as_numbers(ONE, config.ridge_condition_limit);
    }
    match metric {
        MetricInput::Diagonal(values) => {
            lemma_invalid(values@, 0);
            if values@.len() == weights.len() && invalid_at(values@, 0) is None {
                if crate::joint_fit::any_positive(values@) {
                    let k = choose|k: int|
                        0 <= k < values@.len() && 0 < #[trigger] values@[k] < F32_SIGN;
                    assert(values@[k] % F32_SIGN != 0);
                } else if scores(metric, weights.len()) {
                    let k = choose|k: int|
                        0 <= k < weights.len() && #[trigger] values@[k] % F32_SIGN != 0;
                    assert(unsigned_number(values@[k]));
                    assert(0 < values@[k] < F32_SIGN);
                }
            }
        },
        _ => {},
    }
}

/// Whether an error names a fault that the inputs of a fit have.
pub open spec fn fault_of_fit(
    error: JointFitError,
    weights: Seq<u32>,
    metric: MetricInput<'_>,
    config: JointFitConfig,
) -> bool {
    match error {
        JointFitError::InvalidPlaneCount { got } => got == config.planes && (got == 0 || got > 3),
        JointFitError::EmptyWeights => weights.len() == 0,
        JointFitError::InvalidMaxIterations => config.max_iterations == 0,
        JointFitError::InvalidRestartCount => config.em_restarts == 0,
        JointFitError::InvalidRidge => !(f64_finite(config.ridge) && signed_units(config.ridge)
            > 0),
        JointFitError::InvalidConditionLimit => !(f64_finite(config.ridge_condition_limit)
            && signed_units(config.ridge_condition_limit) > pow2(1074)),
        JointFitError::NonFiniteWeight { index } => {
            &&& index < weights.len()
            &&& !f32_finite(weights[index as int])
            &&& forall|k: int| 0 <= k < index ==> f32_finite(#[trigger] weights[k])
        },
        JointFitError::MetricLengthMismatch { expected, got } => {
            &&& metric matches MetricInput::Diagonal(values) && got == values@.len()
            &&& expected == weights.len()
            &&& expected != got
        },
        JointFitError::InvalidMetric { index } => {
            &&& metric matches MetricInput::Diagonal(values) && index < values@.len()
                && !unsigned_number(values@[index as int]) && forall|k: int|
                0 <= k < index ==> unsigned_number(#[trigger] values@[k])
        },
        JointFitError::ZeroMetric => {
            &&& metric matches MetricInput::Diagonal(values) && forall|k: int|
                0 <= k < values@.len() ==> #[trigger] values@[k] % F32_SIGN == 0
        },
        JointFitError::DenseMetricDimensionMismatch { expected, got } => {
            &&& metric matches MetricInput::Dense(dimension) && got == dimension
            &&& expected == weights.len()
            &&& expected != got
        },
        _ => false,
    }
}

/// A rejected fit is told a fault that it has, and of values the first faulty one.
pub proof fn rejected_fits_have_the_fault(
    weights: Seq<u32>,
    metric: MetricInput<'_>,
    config: JointFitConfig,
    error: JointFitError,
)
    requires
        weights.len() <= usize::MAX,
        fit_error(weights, metric, config) == Some(error),
    ensures
        fault_of_fit(error, weights, metric, config),
{
    lemma_nonfinite(weights, 0);
    one_stands_for_one();
    if f64_finite(config.ridge) {
        finite_values_are_ordered_as_numbers(0, config.ridge);
        assert(f64_units(0) == 0);
    }
    if f64_finite(config.ridge_condition_limit) {
        finite_values_are_ordered_as_numbers(ONE, config.ridge_condition_limit);
    }
    match metric {
        MetricInput::Diagonal(values) => {
            lemma_invalid(values@, 0);
            assert(values.len() == values@.len());
            if error == JointFitError::ZeroMetric {
                assert forall|k: int| 0 <= k < values@.len() implies #[trigger] values@[k]
                    % F32_SIGN == 0 by {
                    assert(unsigned_number(values@[k]));
                    assert(!(0 < values@[k] < F32_SIGN));
                }
            }
        },
        _ => {},
    }
}

/// A fixed-scale assignment is accepted exactly if there are weights, all of them finite, and one
/// to three scales, none of them below zero; otherwise it is told a fault that it has.
pub proof fn only_sound_assignments_are_accepted(weights: Seq<u32>, scales: Seq<u32>)
    requires
        weights.len() <= usize::MAX,
        scales.len() <= usize::MAX,
    ensures
        match assignment_error(weights, scales) {
            None => {
                &&& weights.len() > 0
                &&& forall|k: int| 0 <= k < weights.len() ==> f32_finite(#[trigger] weights[k])
                &&& 1 <= scales.len() <= 3
                &&& forall|k: int| 0 <= k < scales.len() ==> unsigned_number(#[trigger] scales[k])
            },
            Some(JointFitError::EmptyWeights) => weights.len() == 0,
            Some(JointFitError::NonFiniteWeight { index }) => {
                &&& index < weights.len()
                &&& !f32_finite(weights[index as int])
                &&& forall|k: int| 0 <= k < index ==> f32_finite(#[trigger] weights[k])
            },
            Some(JointFitError::InvalidScaleCount { got }) => got == scales.len() && (got == 0
                || got > 3),
            Some(JointFitError::InvalidScale { index }) => {
                &&& index < scales.len()
                &&& !unsigned_number(scales[index as int])
                &&& forall|k: int| 0 <= k < index ==> unsigned_number(#[trigger] scales[k])
            },
            Some(_) => false,
        },
{
    lemma_nonfinite(weights, 0);
    lemma_invalid(scales, 0);
}

/// A dense metric passes exactly if it has a dimension, as many entries as its square, all of
/// them finite and one of them not zero; otherwise it is told a fault that it has, and of entries
/// the row and the column.
pub proof fn only_sound_dense_metrics_pass(dimension: usize, values: Seq<u64>)
    requires
        values.len() < usize::MAX,
    ensures
        match dense_error(dimension, values) {
            None => {
                &&& dimension > 0
                &&& values.len() == dimension * dimension
                &&& forall|k: int| 0 <= k < values.len() ==> f64_finite(#[trigger] values[k])
                &&& exists|k: int| 0 <= k < values.len() && #[trigger] values[k] % F64_SIGN != 0
            },
            Some(JointFitError::InvalidDenseMetricDimension) => dimension == 0,
            Some(JointFitError::DenseMetricLengthMismatch { expected, got }) => {
                &&& got == values.len()
                &&& got != dimension * dimension
                &&& expected == dimension * dimension || (expected == usize::MAX && dimension
                    * dimension > usize::MAX)
            },
            Some(JointFitError::NonFiniteDenseMetric { row, col }) => {
                &&& row < dimension
                &&& col < dimension
                &&& row * dimension + col < values.len()
                &&& !f64_finite(values[row * dimension + col])
                &&& forall|k: int|
                    0 <= k < row * dimension + col ==> f64_finite(#[trigger] values[k])
            },
            Some(JointFitError::ZeroMetric) => forall|k: int|
                0 <= k < values.len() ==> #[trigger] values[k] % F64_SIGN == 0,
            Some(_) => false,
        },
{
    lemma_nonfinite_entry(values, 0);
    let side = dimension as int;
    match nonfinite_entry_at(values, 0) {
        Some(index) => {
            if dimension > 0 && values.len() == dimension * dimension {
                vstd::arithmetic::div_mod::lemma_fundamental_div_mod(index, side);
                assert(side * (index / side) == (index / side) * side) by (nonlinear_arith);
                assert(0 <= index / side < side) by (nonlinear_arith)
                    requires
                        0 <= index < side * side,
                        side > 0,
                ;
            }
        },
        None => {
            if dimension > 0 && values.len() == dimension * dimension && !(forall|k: int|
                0 <= k < values.len() ==> crate::float_bits::f64_magnitude(#[trigger] values[k])
                    == 0) {
                let k = choose|k: int|
                    0 <= k < values.len() && crate::float_bits::f64_magnitude(
                        #[trigger] values[k],
                    ) != 0;
                assert(values[k] % F64_SIGN != 0);
            }
        },
    }
}

} // verus!
