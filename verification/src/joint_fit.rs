//! Decisions of joint additive-ternary fitting: which inputs are accepted, which ternary state
//! wins, which updates and starts are kept, and how solved planes are put into canonical form.
//!
//! Reals are bit patterns (binary32 for weights, scales and diagonal metrics, binary64 for
//! everything else); the arithmetic on them is the caller's.

use crate::float_bits::{
    f32_finite, f32_finite_nonnegative, f32_is_finite, f32_is_finite_nonnegative, f64_finite,
    f64_equal, f64_is_equal, f64_is_finite, f64_is_less, f64_less, f64_magnitude, total_position,
    total_rank, F32_SIGN, F64_INFINITY, F64_SIGN,
};
use vstd::prelude::*;
use vstd::std_specs::cmp::PartialEqSpec;

verus! {

/// Precision used when scoring fitted scales.
#[derive(Clone, Copy, Debug, PartialEq, Eq, Structural)]
pub enum ScalePrecision {
    /// Score the fitted binary32 scales directly.
    F32,
    /// Round every fitted scale through the deployment binary16 representation before scoring.
    F16,
}

impl Default for ScalePrecision {
    /// Scales are scored as fitted.
    fn default() -> (precision: Self)
        ensures
            precision == ScalePrecision::F32,
    {
        ScalePrecision::F32
    }
}

/// Configuration of a joint ternary fit; reals are binary64 bit patterns.
#[derive(Clone, Copy, Debug)]
pub struct JointFitConfig {
    /// Number of additive ternary planes. Must be in `1..=3`.
    pub planes: usize,
    /// Maximum number of alternating scale/assignment updates.
    pub max_iterations: usize,
    /// Positive diagonal ridge added to the weighted scale normal equations.
    pub ridge: u64,
    /// Number of deterministic output-aware initialization basins to evaluate.
    pub em_restarts: usize,
    /// Maximum accepted condition number for the ridge-regularized scale system.
    pub ridge_condition_limit: u64,
    /// Precision at which scales are scored and returned.
    pub scale_precision: ScalePrecision,
}

impl PartialEq for JointFitConfig {
    fn eq(&self, other: &Self) -> (equal: bool) {
        self.planes == other.planes && self.max_iterations == other.max_iterations && f64_is_equal(
            self.ridge,
            other.ridge,
        ) && self.em_restarts == other.em_restarts && f64_is_equal(
            self.ridge_condition_limit,
            other.ridge_condition_limit,
        ) && self.scale_precision == other.scale_precision
    }
}

impl vstd::std_specs::cmp::PartialEqSpecImpl for JointFitConfig {
    open spec fn obeys_eq_spec() -> bool {
        true
    }

    /// Reals are equal as binary64 values.
    open spec fn eq_spec(&self, other: &Self) -> bool {
        &&& self.planes == other.planes
        &&& self.max_iterations == other.max_iterations
        &&& f64_equal(self.ridge, other.ridge)
        &&& self.em_restarts == other.em_restarts
        &&& f64_equal(self.ridge_condition_limit, other.ridge_condition_limit)
        &&& self.scale_precision == other.scale_precision
    }
}

/// Bit pattern of the default ridge, `1e-8`.
pub const DEFAULT_RIDGE: u64 = 0x3e45_798e_e230_8c3a;

/// Bit pattern of the default condition limit, `1e6`.
pub const DEFAULT_CONDITION_LIMIT: u64 = 0x412e_8480_0000_0000;

/// Bit pattern of one.
pub const ONE: u64 = 0x3ff0_0000_0000_0000;

impl Default for JointFitConfig {
    /// One plane, sixteen iterations and four restarts.
    fn default() -> (config: Self)
        ensures
            config == (JointFitConfig {
                planes: 1,
                max_iterations: 16,
                ridge: DEFAULT_RIDGE,
                em_restarts: 4,
                ridge_condition_limit: DEFAULT_CONDITION_LIMIT,
                scale_precision: ScalePrecision::F32,
            }),
    {
        JointFitConfig {
            planes: 1,
            max_iterations: 16,
            ridge: DEFAULT_RIDGE,
            em_restarts: 4,
            ridge_condition_limit: DEFAULT_CONDITION_LIMIT,
            scale_precision: ScalePrecision::F32,
        }
    }
}

/// Why a joint additive-ternary fit could not be produced.
#[derive(Clone, Copy, Debug, PartialEq, Eq)]
#[non_exhaustive]
pub enum JointFitError {
    /// The weight group was empty.
    EmptyWeights,
    /// Plane count was outside the supported `1..=3` range.
    InvalidPlaneCount {
        /// Rejected plane count.
        got: usize,
    },
    /// `max_iterations` was zero.
    InvalidMaxIterations,
    /// No deterministic EM initialization was requested.
    InvalidRestartCount,
    /// The ridge coefficient was not finite and strictly positive.
    InvalidRidge,
    /// The requested regularized condition limit was not finite and greater than one.
    InvalidConditionLimit,
    /// An input weight was NaN or infinite.
    NonFiniteWeight {
        /// Index of the rejected weight.
        index: usize,
    },
    /// The diagonal metric did not have one entry per weight.
    MetricLengthMismatch {
        /// Required metric length.
        expected: usize,
        /// Supplied metric length.
        got: usize,
    },
    /// A diagonal metric entry was negative, NaN, or infinite.
    InvalidMetric {
        /// Index of the rejected metric entry.
        index: usize,
    },
    /// Every diagonal metric entry was zero, leaving no scored objective.
    ZeroMetric,
    /// A fixed-scale assignment requested a scale count outside `1..=3`.
    InvalidScaleCount {
        /// Rejected scale count.
        got: usize,
    },
    /// A fixed assignment scale was negative, NaN, or infinite.
    InvalidScale {
        /// Index of the rejected scale.
        index: usize,
    },
    /// A dense metric used a zero matrix dimension.
    InvalidDenseMetricDimension,
    /// Dense row-major storage did not contain `dimension²` entries.
    DenseMetricLengthMismatch {
        /// Required entry count.
        expected: usize,
        /// Supplied entry count.
        got: usize,
    },
    /// A dense metric entry was NaN or infinite.
    NonFiniteDenseMetric {
        /// Matrix row.
        row: usize,
        /// Matrix column.
        col: usize,
    },
    /// A dense metric was not symmetric within the validation tolerance.
    AsymmetricDenseMetric {
        /// First mismatched row.
        row: usize,
        /// First mismatched column.
        col: usize,
    },
    /// A dense symmetric metric had a materially negative semidefinite factorization pivot.
    NonPositiveSemidefiniteMetric {
        /// First rejected pivot.
        pivot: usize,
    },
    /// K-FAC output-gradient curvature was not finite and strictly positive.
    InvalidKfacOutputWeight,
    /// Dense metric dimension did not match the fitted weight group.
    DenseMetricDimensionMismatch {
        /// Number of fitted weights.
        expected: usize,
        /// Dense matrix dimension.
        got: usize,
    },
    /// The ridge-regularized scale system could not be solved to finite scales.
    ScaleSolveFailed,
    /// Reconstruction objective arithmetic overflowed or otherwise became non-finite.
    NonFiniteObjective,
    /// A finite fitted scale overflowed the selected deployment representation.
    ScaleNotRepresentable {
        /// Plane containing the rejected scale.
        plane: usize,
    },
}

/// What a curvature metric brings to the input checks.
#[derive(Clone, Copy, Debug)]
pub enum MetricInput<'a> {
    /// Identity curvature.
    Identity,
    /// Diagonal curvature, one binary32 entry per weight.
    Diagonal(&'a [u32]),
    /// Dense curvature of the given dimension.
    Dense(usize),
}

/// Whether a pattern is finite and strictly positive.
pub open spec fn positive(bits: u64) -> bool {
    0 < bits < F64_INFINITY
}

/// The first weight from a position on that is not finite, if there is one.
pub open spec fn nonfinite_at(values: Seq<u32>, from: int) -> Option<int>
    decreases values.len() - from,
{
    if from < 0 || from >= values.len() {
        None
    } else if !f32_finite(values[from]) {
        Some(from)
    } else {
        nonfinite_at(values, from + 1)
    }
}

/// The first entry from a position on that is not finite and nonnegative, if there is one.
pub open spec fn invalid_at(values: Seq<u32>, from: int) -> Option<int>
    decreases values.len() - from,
{
    if from < 0 || from >= values.len() {
        None
    } else if !f32_finite_nonnegative(values[from]) {
        Some(from)
    } else {
        invalid_at(values, from + 1)
    }
}

/// Whether some entry is positive.
pub open spec fn any_positive(values: Seq<u32>) -> bool {
    exists|k: int| 0 <= k < values.len() && 0 < #[trigger] values[k] < F32_SIGN
}

/// The reason why a configuration does not suit a number of weights, if there is one.
pub open spec fn config_error(weights: nat, config: JointFitConfig) -> Option<JointFitError> {
    if !(1 <= config.planes <= 3) {
        Some(JointFitError::InvalidPlaneCount { got: config.planes })
    } else if weights == 0 {
        Some(JointFitError::EmptyWeights)
    } else if config.max_iterations == 0 {
        Some(JointFitError::InvalidMaxIterations)
    } else if config.em_restarts == 0 {
        Some(JointFitError::InvalidRestartCount)
    } else if !positive(config.ridge) {
        Some(JointFitError::InvalidRidge)
    } else if !(ONE < config.ridge_condition_limit < F64_INFINITY) {
        Some(JointFitError::InvalidConditionLimit)
    } else {
        None
    }
}

/// The reason why a metric does not suit a number of weights, if there is one.
pub open spec fn metric_error(weights: nat, metric: MetricInput<'_>) -> Option<JointFitError> {
    match metric {
        MetricInput::Identity => None,
        MetricInput::Diagonal(values) => if values@.len() != weights {
            Some(
                JointFitError::MetricLengthMismatch {
                    expected: weights as usize,
                    got: values@.len() as usize,
                },
            )
        } else {
            match invalid_at(values@, 0) {
                Some(index) => Some(JointFitError::InvalidMetric { index: index as usize }),
                None => if any_positive(values@) {
                    None
                } else {
                    Some(JointFitError::ZeroMetric)
                },
            }
        },
        MetricInput::Dense(dimension) => if dimension != weights {
            Some(
                JointFitError::DenseMetricDimensionMismatch {
                    expected: weights as usize,
                    got: dimension,
                },
            )
        } else {
            None
        },
    }
}

/// The reason why the inputs of a fit are rejected, if there is one.
pub open spec fn fit_error(
    weights: Seq<u32>,
    metric: MetricInput<'_>,
    config: JointFitConfig,
) -> Option<JointFitError> {
    match config_error(weights.len(), config) {
        Some(error) => Some(error),
        None => match nonfinite_at(weights, 0) {
            Some(index) => Some(JointFitError::NonFiniteWeight { index: index as usize }),
            None => metric_error(weights.len(), metric),
        },
    }
}

/// The reason why the inputs of a fixed-scale assignment are rejected, if there is one.
pub open spec fn assignment_error(weights: Seq<u32>, scales: Seq<u32>) -> Option<JointFitError> {
    if weights.len() == 0 {
        Some(JointFitError::EmptyWeights)
    } else {
        match nonfinite_at(weights, 0) {
            Some(index) => Some(JointFitError::NonFiniteWeight { index: index as usize }),
            None => if !(1 <= scales.len() <= 3) {
                Some(JointFitError::InvalidScaleCount { got: scales.len() as usize })
            } else {
                match invalid_at(scales, 0) {
                    Some(index) => Some(JointFitError::InvalidScale { index: index as usize }),
                    None => None,
                }
            },
        }
    }
}

/// The first entry from a position on that is not a finite binary64, if there is one.
pub open spec fn nonfinite_entry_at(values: Seq<u64>, from: int) -> Option<int>
    decreases values.len() - from,
{
    if from < 0 || from >= values.len() {
        None
    } else if !f64_finite(values[from]) {
        Some(from)
    } else {
        nonfinite_entry_at(values, from + 1)
    }
}

/// The entries that a dense matrix of a dimension needs, as far as they can be counted.
pub open spec fn square(dimension: usize) -> usize {
    if dimension * dimension > usize::MAX {
        usize::MAX
    } else {
        (dimension * dimension) as usize
    }
}

/// The reason why row-major entries cannot be a dense metric whatever their values relate, if
/// there is one.
pub open spec fn dense_error(dimension: usize, values: Seq<u64>) -> Option<JointFitError> {
    if dimension == 0 {
        Some(JointFitError::InvalidDenseMetricDimension)
    } else if values.len() != square(dimension) {
        Some(
            JointFitError::DenseMetricLengthMismatch {
                expected: square(dimension),
                got: values.len() as usize,
            },
        )
    } else {
        match nonfinite_entry_at(values, 0) {
            Some(index) => Some(
                JointFitError::NonFiniteDenseMetric {
                    row: (index / dimension as int) as usize,
                    col: (index % dimension as int) as usize,
                },
            ),
            None => if forall|k: int|
                0 <= k < values.len() ==> f64_magnitude(#[trigger] values[k]) == 0 {
                Some(JointFitError::ZeroMetric)
            } else {
                None
            },
        }
    }
}

/// Where the first weight that is not finite stands.
fn find_nonfinite(values: &[u32]) -> (position: Option<usize>)
    ensures
        match position {
            Some(index) => nonfinite_at(values@, 0) == Some(index as int),
            None => nonfinite_at(values@, 0) is None,
        },
{
    let mut index: usize = 0;
    while index < values.len()
        invariant
            index <= values@.len(),
            nonfinite_at(values@, 0) == nonfinite_at(values@, index as int),
        decreases values@.len() - index,
    {
        if !f32_is_finite(values[index]) {
            return Some(index);
        }
        index = index + 1;
    }
    None
}

/// Where the first entry that is not finite and nonnegative stands.
fn find_invalid(values: &[u32]) -> (position: Option<usize>)
    ensures
        match position {
            Some(index) => invalid_at(values@, 0) == Some(index as int),
            None => invalid_at(values@, 0) is None,
        },
{
    let mut index: usize = 0;
    while index < values.len()
        invariant
            index <= values@.len(),
            invalid_at(values@, 0) == invalid_at(values@, index as int),
        decreases values@.len() - index,
    {
        if !f32_is_finite_nonnegative(values[index]) {
            return Some(index);
        }
        index = index + 1;
    }
    None
}

/// Whether some entry is positive.
fn has_positive(values: &[u32]) -> (found: bool)
    ensures
        found == any_positive(values@),
{
    let mut index: usize = 0;
    while index < values.len()
        invariant
            index <= values@.len(),
            forall|k: int| 0 <= k < index ==> !(0 < #[trigger] values@[k] < F32_SIGN),
        decreases values@.len() - index,
    {
        let value: u32 = values[index];
        if 0 < value && value < F32_SIGN {
            assert(values@[index as int] == value);
            return true;
        }
        index = index + 1;
    }
    false
}

/// Checks the inputs of a fit.
pub fn check_fit(weights: &[u32], metric: MetricInput<'_>, config: &JointFitConfig) -> (result:
    Result<(), JointFitError>)
    ensures
        match fit_error(weights@, metric, *config) {
            Some(error) => result == Err::<(), JointFitError>(error),
            None => result is Ok,
        },
{
    if config.planes < 1 || config.planes > 3 {
        return Err(JointFitError::InvalidPlaneCount { got: config.planes });
    }
    if weights.len() == 0 {
        return Err(JointFitError::EmptyWeights);
    }
    if config.max_iterations == 0 {
        return Err(JointFitError::InvalidMaxIterations);
    }
    if config.em_restarts == 0 {
        return Err(JointFitError::InvalidRestartCount);
    }
    if config.ridge == 0 || config.ridge >= F64_INFINITY {
        return Err(JointFitError::InvalidRidge);
    }
    if config.ridge_condition_limit <= ONE || config.ridge_condition_limit >= F64_INFINITY {
        return Err(JointFitError::InvalidConditionLimit);
    }
    match find_nonfinite(weights) {
        Some(index) => {
            return Err(JointFitError::NonFiniteWeight { index });
        },
        None => {},
    }
    match metric {
        MetricInput::Identity => {},
        MetricInput::Diagonal(values) => {
            if values.len() != weights.len() {
                return Err(
                    JointFitError::MetricLengthMismatch {
                        expected: weights.len(),
                        got: values.len(),
                    },
                );
            }
            match find_invalid(values) {
                Some(index) => {
                    return Err(JointFitError::InvalidMetric { index });
                },
                None => {},
            }
            if !has_positive(values) {
                return Err(JointFitError::ZeroMetric);
            }
        },
        MetricInput::Dense(dimension) => {
            if dimension != weights.len() {
                return Err(
                    JointFitError::DenseMetricDimensionMismatch {
                        expected: weights.len(),
                        got: dimension,
                    },
                );
            }
        },
    }
    Ok(())
}

/// Checks the inputs of a fixed-scale assignment.
pub fn check_assignment(weights: &[u32], scales: &[u32]) -> (result: Result<(), JointFitError>)
    ensures
        match assignment_error(weights@, scales@) {
            Some(error) => result == Err::<(), JointFitError>(error),
            None => result is Ok,
        },
{
    if weights.len() == 0 {
        return Err(JointFitError::EmptyWeights);
    }
    match find_nonfinite(weights) {
        Some(index) => {
            return Err(JointFitError::NonFiniteWeight { index });
        },
        None => {},
    }
    if scales.len() < 1 || scales.len() > 3 {
        return Err(JointFitError::InvalidScaleCount { got: scales.len() });
    }
    match find_invalid(scales) {
        Some(index) => Err(JointFitError::InvalidScale { index }),
        None => Ok(()),
    }
}

/// Checks the dimension, the length and the finiteness of a dense metric, and that it is not
/// zero.
pub fn check_dense(dimension: usize, values: &[u64]) -> (result: Result<(), JointFitError>)
    ensures
        match dense_error(dimension, values@) {
            Some(error) => result == Err::<(), JointFitError>(error),
            None => result is Ok,
        },
{
    if dimension == 0 {
        return Err(JointFitError::InvalidDenseMetricDimension);
    }
    let expected: usize = match dimension.checked_mul(dimension) {
        Some(count) => count,
        None => usize::MAX,
    };
    if values.len() != expected {
        return Err(
            JointFitError::DenseMetricLengthMismatch { expected, got: values.len() },
        );
    }
    let mut zero: bool = true;
    let mut index: usize = 0;
    while index < values.len()
        invariant
            index <= values@.len(),
            dimension > 0,
            expected == square(dimension),
            values@.len() == expected,
            nonfinite_entry_at(values@, 0) == nonfinite_entry_at(values@, index as int),
            zero == (forall|k: int|
                0 <= k < index ==> f64_magnitude(#[trigger] values@[k]) == 0),
        decreases values@.len() - index,
    {
        if !f64_is_finite(values[index]) {
            return Err(
                JointFitError::NonFiniteDenseMetric {
                    row: index / dimension,
                    col: index % dimension,
                },
            );
        }
        let nonzero: bool = values[index] % F64_SIGN != 0;
        assert(nonzero == (f64_magnitude(values@[index as int]) != 0));
        if nonzero {
            zero = false;
        }
        index = index + 1;
    }
    if zero {
        return Err(JointFitError::ZeroMetric);
    }
    Ok(())
}

/// Alternating-optimization phase that produced an accepted objective reduction.
#[derive(Clone, Copy, Debug, PartialEq, Eq, Structural)]
pub enum JointFitUpdatePhase {
    /// The joint scale M step.
    Scale,
    /// The exact-state coordinate E step.
    Assignment,
}

/// Evidence for one accepted E or M update.
#[derive(Clone, Copy, Debug)]
pub struct JointFitUpdateReceipt {
    /// Zero-based alternating-optimization iteration.
    pub iteration: usize,
    /// Update phase.
    pub phase: JointFitUpdatePhase,
    /// Objective before the phase.
    pub objective_before: u64,
    /// Strictly lower objective after the phase.
    pub objective_after: u64,
}

impl PartialEq for JointFitUpdateReceipt {
    fn eq(&self, other: &Self) -> (equal: bool) {
        self.iteration == other.iteration && self.phase == other.phase && f64_is_equal(
            self.objective_before,
            other.objective_before,
        ) && f64_is_equal(self.objective_after, other.objective_after)
    }
}

impl vstd::std_specs::cmp::PartialEqSpecImpl for JointFitUpdateReceipt {
    open spec fn obeys_eq_spec() -> bool {
        true
    }

    /// Objectives are equal as binary64 values.
    open spec fn eq_spec(&self, other: &Self) -> bool {
        &&& self.iteration == other.iteration
        &&& self.phase == other.phase
        &&& f64_equal(self.objective_before, other.objective_before)
        &&& f64_equal(self.objective_after, other.objective_after)
    }
}

/// Numerical evidence from one conditioned joint scale solve.
#[derive(Clone, Copy, Debug)]
pub struct ScaleSolveTelemetry {
    /// Spectral condition number before ridge regularization.
    pub condition_before: u64,
    /// Spectral condition number after ridge regularization.
    pub condition_after: u64,
    /// Diagonal ridge actually used.
    pub ridge_used: u64,
    /// Whether the condition limit increased the configured minimum ridge.
    pub adaptive_ridge: bool,
}

impl PartialEq for ScaleSolveTelemetry {
    fn eq(&self, other: &Self) -> (equal: bool) {
        f64_is_equal(self.condition_before, other.condition_before) && f64_is_equal(
            self.condition_after,
            other.condition_after,
        ) && f64_is_equal(self.ridge_used, other.ridge_used) && self.adaptive_ridge
            == other.adaptive_ridge
    }
}

impl vstd::std_specs::cmp::PartialEqSpecImpl for ScaleSolveTelemetry {
    open spec fn obeys_eq_spec() -> bool {
        true
    }

    /// Reals are equal as binary64 values.
    open spec fn eq_spec(&self, other: &Self) -> bool {
        &&& f64_equal(self.condition_before, other.condition_before)
        &&& f64_equal(self.condition_after, other.condition_after)
        &&& f64_equal(self.ridge_used, other.ridge_used)
        &&& self.adaptive_ridge == other.adaptive_ridge
    }
}

/// Evidence for one attempted M step.
#[derive(Clone, Copy, Debug)]
pub struct ScaleSolveReceipt {
    /// Zero-based alternating-optimization iteration.
    pub iteration: usize,
    /// Numerical solve telemetry.
    pub telemetry: ScaleSolveTelemetry,
    /// Whether the unregularized reconstruction objective strictly improved and was accepted.
    pub accepted: bool,
}

impl PartialEq for ScaleSolveReceipt {
    fn eq(&self, other: &Self) -> (equal: bool) {
        self.iteration == other.iteration && self.telemetry == other.telemetry && self.accepted
            == other.accepted
    }
}

impl vstd::std_specs::cmp::PartialEqSpecImpl for ScaleSolveReceipt {
    open spec fn obeys_eq_spec() -> bool {
        true
    }

    /// The telemetry's reals are equal as binary64 values.
    open spec fn eq_spec(&self, other: &Self) -> bool {
        &&& self.iteration == other.iteration
        &&& PartialEqSpec::eq_spec(&self.telemetry, &other.telemetry)
        &&& self.accepted == other.accepted
    }
}

/// Source of a deterministic initialization basin.
#[derive(Clone, Copy, Debug, PartialEq, Eq, Structural)]
pub enum JointFitStartKind {
    /// Output-aware EM basin with the given deterministic restart index.
    DeterministicRestart(usize),
    /// Embedded best solution with one fewer active plane and a zero final plane.
    LowerPlaneFallback,
}

/// Complete optimization evidence for one initialization basin.
#[derive(Clone, Debug)]
pub struct JointFitRestartReceipt {
    /// Initialization source.
    pub kind: JointFitStartKind,
    /// Objective before alternating updates.
    pub initial_objective: u64,
    /// Objective after the final accepted update.
    pub final_objective: u64,
    /// Every accepted E and M phase, in execution order.
    pub accepted_updates: Vec<JointFitUpdateReceipt>,
    /// Every attempted conditioned scale solve.
    pub scale_solves: Vec<ScaleSolveReceipt>,
}

/// Whether two lists of accepted updates are equal, entry by entry.
pub open spec fn updates_equal(
    left: Seq<JointFitUpdateReceipt>,
    right: Seq<JointFitUpdateReceipt>,
) -> bool {
    &&& left.len() == right.len()
    &&& forall|k: int| 0 <= k < left.len() ==> (#[trigger] left[k]).eq_spec(&right[k])
}

/// Whether two lists of accepted updates are equal, entry by entry.
fn same_updates(left: &[JointFitUpdateReceipt], right: &[JointFitUpdateReceipt]) -> (equal: bool)
    ensures
        equal == updates_equal(left@, right@),
{
    if left.len() != right.len() {
        return false;
    }
    let mut index: usize = 0;
    while index < left.len()
        invariant
            index <= left@.len(),
            left@.len() == right@.len(),
            forall|k: int| 0 <= k < index ==> (#[trigger] left@[k]).eq_spec(&right@[k]),
        decreases left@.len() - index,
    {
        if left[index] != right[index] {
            assert(!left@[index as int].eq_spec(&right@[index as int]));
            return false;
        }
        index = index + 1;
    }
    true
}

/// Whether two lists of scale solves are equal, entry by entry.
pub open spec fn solves_equal(left: Seq<ScaleSolveReceipt>, right: Seq<ScaleSolveReceipt>) -> bool {
    &&& left.len() == right.len()
    &&& forall|k: int| 0 <= k < left.len() ==> (#[trigger] left[k]).eq_spec(&right[k])
}

/// Whether two lists of scale solves are equal, entry by entry.
fn same_solves(left: &[ScaleSolveReceipt], right: &[ScaleSolveReceipt]) -> (equal: bool)
    ensures
        equal == solves_equal(left@, right@),
{
    if left.len() != right.len() {
        return false;
    }
    let mut index: usize = 0;
    while index < left.len()
        invariant
            index <= left@.len(),
            left@.len() == right@.len(),
            forall|k: int| 0 <= k < index ==> (#[trigger] left@[k]).eq_spec(&right@[k]),
        decreases left@.len() - index,
    {
        if left[index] != right[index] {
            assert(!left@[index as int].eq_spec(&right@[index as int]));
            return false;
        }
        index = index + 1;
    }
    true
}

impl PartialEq for JointFitRestartReceipt {
    fn eq(&self, other: &Self) -> (equal: bool) {
        self.kind == other.kind && f64_is_equal(self.initial_objective, other.initial_objective)
            && f64_is_equal(self.final_objective, other.final_objective) && same_updates(
            self.accepted_updates.as_slice(),
            other.accepted_updates.as_slice(),
        ) && same_solves(self.scale_solves.as_slice(), other.scale_solves.as_slice())
    }
}

impl vstd::std_specs::cmp::PartialEqSpecImpl for JointFitRestartReceipt {
    open spec fn obeys_eq_spec() -> bool {
        true
    }

    /// Reals are equal as binary64 values.
    open spec fn eq_spec(&self, other: &Self) -> bool {
        &&& self.kind == other.kind
        &&& f64_equal(self.initial_objective, other.initial_objective)
        &&& f64_equal(self.final_objective, other.final_objective)
        &&& updates_equal(self.accepted_updates@, other.accepted_updates@)
        &&& solves_equal(self.scale_solves@, other.scale_solves@)
    }
}

/// What an optimization in progress holds.
pub struct ProgressView {
    /// Where the basin comes from.
    pub kind: JointFitStartKind,
    /// The initial objective, then each accepted one.
    pub accepted: Seq<u64>,
    /// Accepted phases.
    pub updates: Seq<JointFitUpdateReceipt>,
    /// Attempted scale solves.
    pub solves: Seq<ScaleSolveReceipt>,
}

impl ProgressView {
    /// The objective reached.
    pub open spec fn objective(self) -> u64 {
        self.accepted.last()
    }

    /// Whether every accepted update lowered the objective and its receipt says so.
    pub open spec fn valid(self) -> bool {
        &&& self.accepted.len() == self.updates.len() + 1
        &&& forall|k: int|
            0 <= k < self.updates.len() ==> {
                &&& (#[trigger] self.updates[k]).objective_before == self.accepted[k]
                &&& self.updates[k].objective_after == self.accepted[k + 1]
                &&& f64_less(self.accepted[k + 1], self.accepted[k])
            }
    }

    /// The progress after an update with an objective is offered: taken only where it lowers
    /// the objective.
    pub open spec fn offered(
        self,
        iteration: usize,
        phase: JointFitUpdatePhase,
        objective: u64,
    ) -> ProgressView {
        if f64_less(objective, self.objective()) {
            ProgressView {
                accepted: self.accepted.push(objective),
                updates: self.updates.push(
                    JointFitUpdateReceipt {
                        iteration,
                        phase,
                        objective_before: self.objective(),
                        objective_after: objective,
                    },
                ),
                ..self
            }
        } else {
            self
        }
    }
}

/// Objectives of a valid progress strictly decrease from each accepted update to any later one.
pub proof fn accepted_objectives_decrease(progress: ProgressView, earlier: int, later: int)
    requires
        progress.valid(),
        0 <= earlier < later < progress.accepted.len(),
    ensures
        f64_less(progress.accepted[later], progress.accepted[earlier]),
    decreases later - earlier,
{
    assert(progress.updates[later - 1].objective_before == progress.accepted[later - 1]);
    if earlier < later - 1 {
        accepted_objectives_decrease(progress, earlier, later - 1);
    }
}

/// One basin's alternating optimization.
#[derive(Clone, Debug)]
pub struct FitProgress {
    kind: JointFitStartKind,
    accepted: Vec<u64>,
    updates: Vec<JointFitUpdateReceipt>,
    solves: Vec<ScaleSolveReceipt>,
}

impl View for FitProgress {
    type V = ProgressView;

    closed spec fn view(&self) -> ProgressView {
        ProgressView {
            kind: self.kind,
            accepted: self.accepted@,
            updates: self.updates@,
            solves: self.solves@,
        }
    }
}

impl FitProgress {
    /// A basin that starts at an objective.
    pub fn start(kind: JointFitStartKind, objective: u64) -> (progress: Self)
        ensures
            progress@ == (ProgressView {
                kind,
                accepted: seq![objective],
                updates: Seq::empty(),
                solves: Seq::empty(),
            }),
            progress@.valid(),
    {
        let mut accepted: Vec<u64> = Vec::new();
        accepted.push(objective);
        let progress = FitProgress { kind, accepted, updates: Vec::new(), solves: Vec::new() };
        assert(progress@.accepted =~= seq![objective]);
        progress
    }

    /// The objective reached.
    pub fn objective(&self) -> (objective: u64)
        requires
            self@.valid(),
        ensures
            objective == self@.objective(),
    {
        self.accepted[self.accepted.len() - 1]
    }

    fn offer(&mut self, iteration: usize, phase: JointFitUpdatePhase, objective: u64) -> (accepted:
        bool)
        requires
            old(self)@.valid(),
        ensures
            final(self)@ == old(self)@.offered(iteration, phase, objective),
            final(self)@.valid(),
            accepted == f64_less(objective, old(self)@.objective()),
    {
        let ghost before = self@;
        let objective_before: u64 = self.objective();
        if !f64_is_less(objective, objective_before) {
            return false;
        }
        self.accepted.push(objective);
        self.updates.push(
            JointFitUpdateReceipt {
                iteration,
                phase,
                objective_before,
                objective_after: objective,
            },
        );
        proof {
            let after = self@;
            assert forall|k: int| 0 <= k < after.updates.len() implies {
                &&& (#[trigger] after.updates[k]).objective_before == after.accepted[k]
                &&& after.updates[k].objective_after == after.accepted[k + 1]
                &&& f64_less(after.accepted[k + 1], after.accepted[k])
            } by {
                if k < before.updates.len() {
                    assert(after.updates[k] == before.updates[k]);
                    assert(after.accepted[k] == before.accepted[k]);
                    assert(after.accepted[k + 1] == before.accepted[k + 1]);
                }
            }
        }
        true
    }

    /// Offers the outcome of a scale solve; it is kept only where it strictly lowers the
    /// objective, and the solve is recorded either way.
    pub fn offer_scales(
        &mut self,
        iteration: usize,
        telemetry: ScaleSolveTelemetry,
        objective: u64,
    ) -> (accepted: bool)
        requires
            old(self)@.valid(),
        ensures
            final(self)@.valid(),
            accepted == f64_less(objective, old(self)@.objective()),
            final(self)@ == (ProgressView {
                solves: old(self)@.solves.push(
                    ScaleSolveReceipt { iteration, telemetry, accepted },
                ),
                ..old(self)@.offered(iteration, JointFitUpdatePhase::Scale, objective)
            }),
    {
        let accepted: bool = self.offer(iteration, JointFitUpdatePhase::Scale, objective);
        self.solves.push(ScaleSolveReceipt { iteration, telemetry, accepted });
        accepted
    }

    /// Offers the outcome of an assignment step; it is kept only where it strictly lowers the
    /// objective.
    pub fn offer_assignment(&mut self, iteration: usize, objective: u64) -> (accepted: bool)
        requires
            old(self)@.valid(),
        ensures
            final(self)@.valid(),
            accepted == f64_less(objective, old(self)@.objective()),
            final(self)@ == old(self)@.offered(
                iteration,
                JointFitUpdatePhase::Assignment,
                objective,
            ),
    {
        self.offer(iteration, JointFitUpdatePhase::Assignment, objective)
    }

    /// The accepted objectives and the basin's receipt.
    pub fn finish(self) -> (evidence: (Vec<u64>, JointFitRestartReceipt))
        requires
            self@.valid(),
        ensures
            evidence.0@ == self@.accepted,
            evidence.1.kind == self@.kind,
            evidence.1.initial_objective == self@.accepted[0],
            evidence.1.final_objective == self@.objective(),
            evidence.1.accepted_updates@ == self@.updates,
            evidence.1.scale_solves@ == self@.solves,
    {
        let receipt = JointFitRestartReceipt {
            kind: self.kind,
            initial_objective: self.accepted[0],
            final_objective: self.accepted[self.accepted.len() - 1],
            accepted_updates: self.updates,
            scale_solves: self.solves,
        };
        (self.accepted, receipt)
    }
}

impl JointFitRestartReceipt {
    /// The receipt of a solution with fewer planes, embedded as a fallback basin.
    pub fn into_fallback(self) -> (receipt: Self)
        ensures
            receipt == (JointFitRestartReceipt {
                kind: JointFitStartKind::LowerPlaneFallback,
                ..self
            }),
    {
        JointFitRestartReceipt {
            kind: JointFitStartKind::LowerPlaneFallback,
            initial_objective: self.initial_objective,
            final_objective: self.final_objective,
            accepted_updates: self.accepted_updates,
            scale_solves: self.scale_solves,
        }
    }
}

/// Whether alternation stops after an iteration: neither update was accepted, or it was the last
/// one that the limit allows.
pub fn stops(scaled: bool, assigned: bool, iteration: usize, limit: usize) -> (stop: bool)
    ensures
        stop == ((!scaled && !assigned) || iteration + 1 >= limit),
{
    (!scaled && !assigned) || limit == 0 || iteration >= limit - 1
}

/// Whether a position holds the first of the least objectives in the total order of patterns.
pub open spec fn first_least(objectives: Seq<u64>, index: int) -> bool {
    &&& 0 <= index < objectives.len()
    &&& forall|k: int|
        0 <= k < objectives.len() ==> total_rank(objectives[index]) <= total_rank(
            #[trigger] objectives[k],
        )
    &&& forall|k: int|
        0 <= k < index ==> total_rank(objectives[index]) < total_rank(#[trigger] objectives[k])
}

/// The basin whose objective is least, the first of equal ones.
pub fn select_start(objectives: &[u64]) -> (selected: usize)
    requires
        objectives@.len() > 0,
    ensures
        first_least(objectives@, selected as int),
{
    let mut selected: usize = 0;
    let mut index: usize = 1;
    while index < objectives.len()
        invariant
            1 <= index <= objectives@.len(),
            selected < index,
            forall|k: int|
                0 <= k < index ==> total_rank(objectives@[selected as int]) <= total_rank(
                    #[trigger] objectives@[k],
                ),
            forall|k: int|
                0 <= k < selected ==> total_rank(objectives@[selected as int]) < total_rank(
                    #[trigger] objectives@[k],
                ),
        decreases objectives@.len() - index,
    {
        if total_position(objectives[index]) < total_position(objectives[selected]) {
            selected = index;
        }
        index = index + 1;
    }
    selected
}

/// Adding the basin of a fit with fewer planes never selects a larger objective than that fit's:
/// more planes never fit worse.
pub proof fn fallback_bounds_the_selection(objectives: Seq<u64>, selected: int, fallback: int)
    requires
        first_least(objectives, selected),
        0 <= fallback < objectives.len(),
    ensures
        total_rank(objectives[selected]) <= total_rank(objectives[fallback]),
{
}

/// A solved coefficient without its sign, where it is below zero.
pub open spec fn unsigned_scale(scale: u64) -> u64 {
    if f64_less(scale, 0) {
        (scale - F64_SIGN) as u64
    } else {
        scale
    }
}

/// Codes with the opposite signs.
pub open spec fn flipped(trits: Seq<i8>) -> Seq<i8> {
    Seq::new(trits.len(), |k: int| (-trits[k]) as i8)
}

/// The codes of a plane whose coefficient is made nonnegative: flipped where it was below zero.
pub open spec fn canonical_trits(scale: u64, trits: Seq<i8>) -> Seq<i8> {
    if f64_less(scale, 0) {
        flipped(trits)
    } else {
        trits
    }
}

/// Whether a plane comes before another: the larger coefficient first, and of equal ones the
/// earlier plane.
pub open spec fn plane_before(scales: Seq<u64>, left: int, right: int) -> bool {
    let a = total_rank(unsigned_scale(scales[left]));
    let b = total_rank(unsigned_scale(scales[right]));
    a > b || (a == b && left < right)
}

/// Whether positions are those of all planes, in canonical order.
pub open spec fn canonical_order(scales: Seq<u64>, order: Seq<usize>) -> bool {
    &&& order.len() == scales.len()
    &&& forall|k: int| 0 <= k < order.len() ==> #[trigger] order[k] < scales.len()
    &&& forall|i: int, j: int|
        0 <= i < j < order.len() ==> plane_before(
            scales,
            #[trigger] order[i] as int,
            #[trigger] order[j] as int,
        )
}

/// Planes in canonical form.
#[derive(Clone, Debug)]
pub struct CanonicalPlanes {
    /// Coefficients without signs, largest first.
    pub scales: Vec<u64>,
    /// Codes of each plane.
    pub trits: Vec<Vec<i8>>,
    /// Which solved plane each one was.
    pub order: Vec<usize>,
}

fn without_sign(scale: u64) -> (magnitude: u64)
    ensures
        magnitude == unsigned_scale(scale),
{
    if f64_is_less(scale, 0) {
        scale - F64_SIGN
    } else {
        scale
    }
}

fn copy_trits(trits: &Vec<i8>, flip: bool) -> (copy: Vec<i8>)
    requires
        forall|k: int| 0 <= k < trits@.len() ==> -1 <= #[trigger] trits@[k] <= 1,
    ensures
        copy@ == if flip {
            flipped(trits@)
        } else {
            trits@
        },
{
    let mut copy: Vec<i8> = Vec::new();
    let mut index: usize = 0;
    while index < trits.len()
        invariant
            index <= trits@.len(),
            copy@.len() == index,
            forall|k: int| 0 <= k < trits@.len() ==> -1 <= #[trigger] trits@[k] <= 1,
            forall|k: int|
                0 <= k < index ==> #[trigger] copy@[k] == if flip {
                    (-trits@[k]) as i8
                } else {
                    trits@[k]
                },
        decreases trits@.len() - index,
    {
        copy.push(
            if flip {
                -trits[index]
            } else {
                trits[index]
            },
        );
        index = index + 1;
    }
    assert(copy@ =~= if flip {
        flipped(trits@)
    } else {
        trits@
    });
    copy
}

/// Adds a plane to positions in canonical order.
fn insert_plane(scales: &[u64], order: &mut Vec<usize>, plane: usize)
    requires
        plane < scales@.len(),
        old(order)@.len() == plane,
        forall|k: int| 0 <= k < plane ==> #[trigger] old(order)@[k] < plane,
        forall|i: int, j: int|
            0 <= i < j < plane ==> plane_before(
                scales@,
                #[trigger] old(order)@[i] as int,
                #[trigger] old(order)@[j] as int,
            ),
    ensures
        final(order)@.len() == plane + 1,
        forall|k: int| 0 <= k < plane + 1 ==> #[trigger] final(order)@[k] < plane + 1,
        forall|i: int, j: int|
            0 <= i < j < plane + 1 ==> plane_before(
                scales@,
                #[trigger] final(order)@[i] as int,
                #[trigger] final(order)@[j] as int,
            ),
{
    let ghost before = order@;
    let rank: u128 = total_position(without_sign(scales[plane]));
    let mut at: usize = 0;
    while at < order.len() && total_position(without_sign(scales[order[at]])) >= rank
        invariant
            at <= order@.len(),
            order@ == before,
            before.len() == plane,
            plane < scales@.len(),
            rank == total_rank(unsigned_scale(scales@[plane as int])) + 0x8000_0000_0000_0000,
            forall|k: int| 0 <= k < plane ==> #[trigger] before[k] < plane,
            forall|k: int|
                0 <= k < at ==> plane_before(scales@, #[trigger] before[k] as int, plane as int),
        decreases order@.len() - at,
    {
        at = at + 1;
    }
    order.insert(at, plane);
    proof {
        let after = order@;
        assert(after == before.insert(at as int, plane));
        assert forall|i: int, j: int| 0 <= i < j < plane + 1 implies plane_before(
            scales@,
            #[trigger] after[i] as int,
            #[trigger] after[j] as int,
        ) by {
            if at < before.len() {
                assert(plane_before(scales@, plane as int, before[at as int] as int));
            }
            if i == at {
                assert(after[j] == before[j - 1]);
                if j - 1 > at {
                    assert(plane_before(
                        scales@,
                        before[at as int] as int,
                        before[j - 1] as int,
                    ));
                }
            } else if j == at {
                assert(after[i] == before[i]);
            } else {
                let a = if i < at {
                    i
                } else {
                    i - 1
                };
                let b = if j < at {
                    j
                } else {
                    j - 1
                };
                assert(plane_before(scales@, before[a] as int, before[b] as int));
            }
        }
    }
}

/// Puts solved planes into canonical form: every coefficient below zero is negated together with
/// its codes, and the planes are sorted by coefficient, largest first.
pub fn canonicalize(scales: &[u64], trits: &Vec<Vec<i8>>) -> (planes: CanonicalPlanes)
    requires
        scales@.len() == trits@.len(),
        forall|p: int, k: int|
            0 <= p < trits@.len() && 0 <= k < trits@[p]@.len() ==> -1
                <= #[trigger] trits@[p]@[k] <= 1,
    ensures
        canonical_order(scales@, planes.order@),
        planes.scales@ == Seq::new(
            scales@.len(),
            |k: int| unsigned_scale(scales@[planes.order@[k] as int]),
        ),
        planes.trits@.len() == scales@.len(),
        forall|k: int|
            0 <= k < scales@.len() ==> (#[trigger] planes.trits@[k])@ == canonical_trits(
                scales@[planes.order@[k] as int],
                trits@[planes.order@[k] as int]@,
            ),
{
    let count: usize = scales.len();
    let mut order: Vec<usize> = Vec::new();
    let mut plane: usize = 0;
    while plane < count
        invariant
            plane <= count == scales@.len(),
            order@.len() == plane,
            forall|k: int| 0 <= k < plane ==> #[trigger] order@[k] < plane,
            forall|i: int, j: int|
                0 <= i < j < plane ==> plane_before(
                    scales@,
                    #[trigger] order@[i] as int,
                    #[trigger] order@[j] as int,
                ),
        decreases count - plane,
    {
        insert_plane(scales, &mut order, plane);
        plane = plane + 1;
    }
    let mut ordered: Vec<u64> = Vec::new();
    let mut codes: Vec<Vec<i8>> = Vec::new();
    let mut at: usize = 0;
    while at < count
        invariant
            at <= count == scales@.len(),
            count == trits@.len(),
            order@.len() == count,
            forall|k: int| 0 <= k < count ==> #[trigger] order@[k] < count,
            forall|p: int, k: int|
                0 <= p < trits@.len() && 0 <= k < trits@[p]@.len() ==> -1
                    <= #[trigger] trits@[p]@[k] <= 1,
            ordered@.len() == at,
            codes@.len() == at,
            forall|k: int|
                0 <= k < at ==> #[trigger] ordered@[k] == unsigned_scale(
                    scales@[order@[k] as int],
                ),
            forall|k: int|
                0 <= k < at ==> (#[trigger] codes@[k])@ == canonical_trits(
                    scales@[order@[k] as int],
                    trits@[order@[k] as int]@,
                ),
        decreases count - at,
    {
        let source: usize = order[at];
        ordered.push(without_sign(scales[source]));
        codes.push(copy_trits(&trits[source], f64_is_less(scales[source], 0)));
        at = at + 1;
    }
    assert(ordered@ =~= Seq::new(count as nat, |k: int| unsigned_scale(scales@[order@[k] as int])));
    CanonicalPlanes { scales: ordered, trits: codes, order }
}

/// The canonical order of planes is determined by their coefficients.
pub proof fn canonical_order_is_unique(scales: Seq<u64>, left: Seq<usize>, right: Seq<usize>)
    requires
        scales.len() <= usize::MAX,
        canonical_order(scales, left),
        canonical_order(scales, right),
    ensures
        left == right,
{
    lemma_order_rank(scales, left);
    lemma_order_rank(scales, right);
    assert forall|k: int| 0 <= k < left.len() implies left[k] == right[k] by {
        lemma_order_covers(scales, right, left[k]);
        let m = choose|m: int| 0 <= m < right.len() && right[m] == left[k];
        lemma_same_place(scales, left, right, k, m);
    }
    assert(left =~= right);
}

/// No plane occurs twice in a canonical order.
pub proof fn lemma_order_rank(scales: Seq<u64>, order: Seq<usize>)
    requires
        canonical_order(scales, order),
    ensures
        order.no_duplicates(),
{
    assert forall|i: int, j: int|
        0 <= i < order.len() && 0 <= j < order.len() && i != j implies order[i] != order[j] by {
        if i < j {
            assert(plane_before(scales, order[i] as int, order[j] as int));
        } else {
            assert(plane_before(scales, order[j] as int, order[i] as int));
        }
    }
}

/// Every plane occurs in a canonical order.
pub proof fn lemma_order_covers(scales: Seq<u64>, order: Seq<usize>, plane: usize)
    requires
        scales.len() <= usize::MAX,
        canonical_order(scales, order),
        plane < scales.len(),
    ensures
        exists|m: int| 0 <= m < order.len() && order[m] == plane,
{
    lemma_order_rank(scales, order);
    order.unique_seq_to_set();
    let found = order.to_set();
    let all = Set::<usize>::new(|p: usize| p < scales.len());
    lemma_count_below(scales.len());
    assert(found.subset_of(all)) by {
        assert forall|p: usize| found.contains(p) implies all.contains(p) by {
            let k = choose|k: int| 0 <= k < order.len() && order[k] == p;
            assert(order[k] < scales.len());
        }
    }
    vstd::set_lib::lemma_subset_equality(found, all);
    assert(all.contains(plane));
    assert(order.contains(plane));
}

/// There are as many positions below a length as the length says.
proof fn lemma_count_below(length: nat)
    requires
        length <= usize::MAX,
    ensures
        Set::<usize>::new(|p: usize| p < length).finite(),
        Set::<usize>::new(|p: usize| p < length).len() == length,
    decreases length,
{
    let all = Set::<usize>::new(|p: usize| p < length);
    if length == 0 {
        assert(all =~= Set::<usize>::empty());
    } else {
        let less = (length - 1) as nat;
        lemma_count_below(less);
        let shorter = Set::<usize>::new(|p: usize| p < less);
        assert(all =~= shorter.insert(less as usize));
    }
}

/// A plane has one place in the canonical orders.
proof fn lemma_same_place(
    scales: Seq<u64>,
    left: Seq<usize>,
    right: Seq<usize>,
    k: int,
    m: int,
)
    requires
        scales.len() <= usize::MAX,
        canonical_order(scales, left),
        canonical_order(scales, right),
        0 <= k < left.len(),
        0 <= m < right.len(),
        right[m] == left[k],
    ensures
        k == m,
    decreases k + m,
{
    if k < m {
        lemma_before_count(scales, left, right, k, m);
    } else if m < k {
        lemma_before_count(scales, right, left, m, k);
    }
}

/// As many planes come before a plane in one canonical order as in another.
proof fn lemma_before_count(
    scales: Seq<u64>,
    left: Seq<usize>,
    right: Seq<usize>,
    k: int,
    m: int,
)
    requires
        scales.len() <= usize::MAX,
        canonical_order(scales, left),
        canonical_order(scales, right),
        0 <= k < m < right.len(),
        right[m] == left[k],
    ensures
        k == m,
{
    lemma_order_rank(scales, left);
    lemma_order_rank(scales, right);
    let a = left.take(k);
    let b = right.take(m);
    assert(b.no_duplicates());
    assert(a.no_duplicates());
    a.unique_seq_to_set();
    b.unique_seq_to_set();
    assert(b.to_set().subset_of(a.to_set())) by {
        assert forall|p: usize| b.to_set().contains(p) implies a.to_set().contains(p) by {
            let i = choose|i: int| 0 <= i < b.len() && b[i] == p;
            assert(right[i] == p);
            assert(plane_before(scales, right[i] as int, right[m] as int));
            lemma_order_covers(scales, left, p);
            let j = choose|j: int| 0 <= j < left.len() && left[j] == p;
            if j > k {
                assert(plane_before(scales, left[k] as int, left[j] as int));
            }
            assert(j < k);
            assert(a[j] == p);
        }
    }
    vstd::set_lib::lemma_len_subset(b.to_set(), a.to_set());
}

} // verus!
