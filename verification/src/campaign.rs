//! Multi-objective campaign ledgers.

use crate::campaign_error::{CampaignError, CampaignObjective};
use crate::campaign_provenance::{
    CalibrationId, CalibrationProvenance, CalibrationView, CampaignId, EvaluationId,
    EvaluationProvenance, EvaluationView, ModelId, PackageId, RecipeId, RecipeProvenance,
    RecipeView,
};
use crate::campaign_size::{
    lemma_wide_product, measurement_mismatch, MeasuredPackage, PhysicalSizeReport, ReportView,
};
use crate::float_bits::{
    canonical_nonnegative_bits, f64_canonical, f64_finite, f64_finite_nonnegative, f64_is_finite,
    f64_is_finite_nonnegative, total_position, total_rank, F64_INFINITY, F64_SIGN,
};
use crate::hashing::{blake3_derived, derive_digest};
use crate::ledger::planes_lex_greater;
use crate::plane_model::{
    lemma_lex_asymmetric, lemma_lex_total, lemma_lex_transitive, lex_greater,
};
use crate::wire::{le, push_bytes, push_le};
use vstd::prelude::*;

verus! {

/// Measured values of a point; reals are binary64 bit patterns.
pub struct MetricsView {
    /// Logical bits per source weight.
    pub logical_bpw: u64,
    /// Held-out perplexity.
    pub perplexity: Option<u64>,
    /// Reconstruction mean squared error.
    pub reconstruction_mse: Option<u64>,
    /// Pinned end-task score.
    pub task_score: Option<u64>,
    /// Decode throughput.
    pub tokens_per_second: Option<u64>,
    /// Peak inference device memory.
    pub peak_vram_bytes: Option<u64>,
    /// Checked physical accounting.
    pub physical_size_report: Option<ReportView>,
}

/// Whether a pattern is a finite value above zero.
pub open spec fn positive_finite(bits: u64) -> bool {
    0 < bits < F64_INFINITY
}

impl MetricsView {
    /// Whether every measured value is one that its measurement can give.
    pub open spec fn valid(self) -> bool {
        &&& positive_finite(self.logical_bpw)
        &&& self.perplexity matches Some(bits) ==> positive_finite(bits)
        &&& self.reconstruction_mse matches Some(bits) ==> bits < F64_INFINITY
        &&& self.task_score matches Some(bits) ==> f64_finite(bits) && bits != F64_SIGN
        &&& self.tokens_per_second matches Some(bits) ==> positive_finite(bits)
        &&& self.peak_vram_bytes matches Some(bytes) ==> bytes > 0
        &&& self.physical_size_report matches Some(report) ==> report.valid()
    }
}

/// Checks that a measurement is finite and above zero.
pub fn validate_positive_finite(field: &'static str, bits: u64) -> (result: Result<
    (),
    CampaignError,
>)
    ensures
        if positive_finite(bits) {
            result is Ok
        } else {
            result == Err::<(), CampaignError>(CampaignError::InvalidMetric(field))
        },
{
    if 0 < bits && bits < F64_INFINITY {
        Ok(())
    } else {
        Err(CampaignError::InvalidMetric(field))
    }
}

/// Logical-rate metrics plus optional quality and checked physical evidence.
#[derive(Clone, Copy, Debug, PartialEq)]
pub struct CampaignMetrics {
    logical_bpw: u64,
    perplexity: Option<u64>,
    reconstruction_mse: Option<u64>,
    task_score: Option<u64>,
    tokens_per_second: Option<u64>,
    peak_vram_bytes: Option<u64>,
    physical_size_report: Option<PhysicalSizeReport>,
}

impl View for CampaignMetrics {
    type V = MetricsView;

    closed spec fn view(&self) -> MetricsView {
        MetricsView {
            logical_bpw: self.logical_bpw,
            perplexity: self.perplexity,
            reconstruction_mse: self.reconstruction_mse,
            task_score: self.task_score,
            tokens_per_second: self.tokens_per_second,
            peak_vram_bytes: self.peak_vram_bytes,
            physical_size_report: match self.physical_size_report {
                Some(report) => Some(report@),
                None => None,
            },
        }
    }
}

impl CampaignMetrics {
    /// The values are valid and an attached report is well formed.
    pub closed spec fn wf(&self) -> bool {
        &&& self@.valid()
        &&& self.physical_size_report matches Some(report) ==> report.wf()
    }

    /// Well-formed metrics hold valid values.
    pub proof fn wf_valid(&self)
        requires
            self.wf(),
        ensures
            self@.valid(),
    {
        if let Some(report) = self.physical_size_report {
            report.wf_valid();
        }
    }

    /// Build metrics with the logical allocator rate.
    pub fn new(logical_bpw: u64) -> (metrics: Result<Self, CampaignError>)
        ensures
            if positive_finite(logical_bpw) {
                metrics matches Ok(made) && made.wf() && made@ == (MetricsView {
                    logical_bpw,
                    perplexity: None,
                    reconstruction_mse: None,
                    task_score: None,
                    tokens_per_second: None,
                    peak_vram_bytes: None,
                    physical_size_report: None,
                })
            } else {
                metrics == Err::<Self, CampaignError>(CampaignError::InvalidMetric("logical_bpw"))
            },
    {
        validate_positive_finite("logical_bpw", logical_bpw)?;
        Ok(
            CampaignMetrics {
                logical_bpw,
                perplexity: None,
                reconstruction_mse: None,
                task_score: None,
                tokens_per_second: None,
                peak_vram_bytes: None,
                physical_size_report: None,
            },
        )
    }

    /// Add held-out perplexity measured under pinned evaluation provenance.
    pub fn with_perplexity(self, perplexity: u64) -> (metrics: Result<Self, CampaignError>)
        requires
            self.wf(),
        ensures
            if positive_finite(perplexity) {
                metrics matches Ok(made) && made.wf() && made@ == (MetricsView {
                    perplexity: Some(perplexity),
                    ..self@
                })
            } else {
                metrics == Err::<Self, CampaignError>(CampaignError::InvalidMetric("perplexity"))
            },
    {
        validate_positive_finite("perplexity", perplexity)?;
        let mut metrics: CampaignMetrics = self;
        metrics.perplexity = Some(perplexity);
        Ok(metrics)
    }

    /// Add source-vs-converted reconstruction mean squared error.
    pub fn with_reconstruction_mse(self, mse: u64) -> (metrics: Result<Self, CampaignError>)
        requires
            self.wf(),
        ensures
            if f64_finite_nonnegative(mse) {
                metrics matches Ok(made) && made.wf() && made@ == (MetricsView {
                    reconstruction_mse: Some(f64_canonical(mse)),
                    ..self@
                })
            } else {
                metrics == Err::<Self, CampaignError>(
                    CampaignError::InvalidMetric("reconstruction_mse"),
                )
            },
    {
        if !f64_is_finite_nonnegative(mse) {
            return Err(CampaignError::InvalidMetric("reconstruction_mse"));
        }
        let mut metrics: CampaignMetrics = self;
        metrics.reconstruction_mse = Some(canonical_nonnegative_bits(mse));
        Ok(metrics)
    }

    /// Add a pinned end-task score. Higher values are better.
    pub fn with_task_score(self, score: u64) -> (metrics: Result<Self, CampaignError>)
        requires
            self.wf(),
        ensures
            if f64_finite(score) {
                metrics matches Ok(made) && made.wf() && made@ == (MetricsView {
                    task_score: Some(f64_canonical(score)),
                    ..self@
                })
            } else {
                metrics == Err::<Self, CampaignError>(CampaignError::InvalidMetric("task_score"))
            },
    {
        if !f64_is_finite(score) {
            return Err(CampaignError::InvalidMetric("task_score"));
        }
        let mut metrics: CampaignMetrics = self;
        metrics.task_score = Some(canonical_nonnegative_bits(score));
        Ok(metrics)
    }

    /// Add measured decode throughput. Higher values are better.
    pub fn with_tokens_per_second(self, throughput: u64) -> (metrics: Result<Self, CampaignError>)
        requires
            self.wf(),
        ensures
            if positive_finite(throughput) {
                metrics matches Ok(made) && made.wf() && made@ == (MetricsView {
                    tokens_per_second: Some(throughput),
                    ..self@
                })
            } else {
                metrics == Err::<Self, CampaignError>(
                    CampaignError::InvalidMetric("tokens_per_second"),
                )
            },
    {
        validate_positive_finite("tokens_per_second", throughput)?;
        let mut metrics: CampaignMetrics = self;
        metrics.tokens_per_second = Some(throughput);
        Ok(metrics)
    }

    /// Add measured peak inference device memory.
    pub fn with_peak_vram_bytes(self, bytes: u64) -> (metrics: Result<Self, CampaignError>)
        requires
            self.wf(),
        ensures
            if bytes == 0 {
                metrics == Err::<Self, CampaignError>(
                    CampaignError::InvalidMetric("peak_vram_bytes"),
                )
            } else if report_peak(self@) is Some && report_peak(self@)->0 != bytes {
                metrics == Err::<Self, CampaignError>(
                    CampaignError::PhysicalMetricMismatch("peak_vram_bytes"),
                )
            } else {
                metrics matches Ok(made) && made.wf() && made@ == (MetricsView {
                    peak_vram_bytes: Some(bytes),
                    ..self@
                })
            },
    {
        if bytes == 0 {
            return Err(CampaignError::InvalidMetric("peak_vram_bytes"));
        }
        match self.physical_size_report {
            Some(report) => match report.peak_resident_bytes() {
                Some(peak) => {
                    if peak != bytes {
                        return Err(CampaignError::PhysicalMetricMismatch("peak_vram_bytes"));
                    }
                },
                None => {},
            },
            None => {},
        }
        let mut metrics: CampaignMetrics = self;
        metrics.peak_vram_bytes = Some(bytes);
        Ok(metrics)
    }

    /// Attach checked physical accounting to these metrics.
    ///
    /// `logical_bpw` is the display value of the report's exact trit/weight ratio, which is
    /// finite and above zero. When the report includes an independently measured peak, that
    /// total becomes the peak-VRAM objective; an existing value must agree. A report with no
    /// peak measurement does not invent one.
    pub fn with_physical_size_report(
        self,
        report: PhysicalSizeReport,
        logical_bpw: u64,
    ) -> (metrics: Result<Self, CampaignError>)
        requires
            self.wf(),
            report.wf(),
        ensures
            if !positive_finite(logical_bpw) {
                metrics == Err::<Self, CampaignError>(CampaignError::InvalidMetric("logical_bpw"))
            } else {
                match report@.peak_bytes() {
                    Some(peak) => if self@.peak_vram_bytes is Some && self@.peak_vram_bytes->0
                        != peak {
                        metrics == Err::<Self, CampaignError>(
                            CampaignError::PhysicalMetricMismatch("peak_vram_bytes"),
                        )
                    } else {
                        metrics matches Ok(made) && made.wf() && made@ == (MetricsView {
                            logical_bpw,
                            peak_vram_bytes: Some(peak),
                            physical_size_report: Some(report@),
                            ..self@
                        })
                    },
                    None => metrics matches Ok(made) && made.wf() && made@ == (MetricsView {
                        logical_bpw,
                        physical_size_report: Some(report@),
                        ..self@
                    }),
                }
            },
    {
        validate_positive_finite("logical_bpw", logical_bpw)?;
        proof {
            report.wf_valid();
        }
        let mut metrics: CampaignMetrics = self;
        match report.peak_resident_bytes() {
            Some(peak) => {
                match self.peak_vram_bytes {
                    Some(bytes) => {
                        if bytes != peak {
                            return Err(CampaignError::PhysicalMetricMismatch("peak_vram_bytes"));
                        }
                    },
                    None => {},
                }
                metrics.peak_vram_bytes = Some(peak);
            },
            None => {},
        }
        metrics.logical_bpw = logical_bpw;
        metrics.physical_size_report = Some(report);
        Ok(metrics)
    }

    /// Logical bits per source weight assigned by the allocator.
    pub fn logical_bpw(&self) -> (bits: u64)
        ensures
            bits == self@.logical_bpw,
    {
        self.logical_bpw
    }

    /// Held-out perplexity, when measured.
    pub fn perplexity(&self) -> (bits: Option<u64>)
        ensures
            bits == self@.perplexity,
    {
        self.perplexity
    }

    /// Reconstruction MSE, when measured.
    pub fn reconstruction_mse(&self) -> (bits: Option<u64>)
        ensures
            bits == self@.reconstruction_mse,
    {
        self.reconstruction_mse
    }

    /// Pinned end-task score, when measured.
    pub fn task_score(&self) -> (bits: Option<u64>)
        ensures
            bits == self@.task_score,
    {
        self.task_score
    }

    /// Decode throughput, when measured.
    pub fn tokens_per_second(&self) -> (bits: Option<u64>)
        ensures
            bits == self@.tokens_per_second,
    {
        self.tokens_per_second
    }

    /// Peak inference device memory, when measured.
    pub fn peak_vram_bytes(&self) -> (bytes: Option<u64>)
        ensures
            bytes == self@.peak_vram_bytes,
    {
        self.peak_vram_bytes
    }

    /// Checked exact physical accounting, when supplied.
    pub fn physical_size_report(&self) -> (report: Option<PhysicalSizeReport>)
        requires
            self.wf(),
        ensures
            match self@.physical_size_report {
                Some(view) => report matches Some(held) && held@ == view && held.wf(),
                None => report is None,
            },
    {
        self.physical_size_report
    }
}

/// The peak that an attached report measured.
pub open spec fn report_peak(metrics: MetricsView) -> Option<u64> {
    match metrics.physical_size_report {
        Some(report) => report.peak_bytes(),
        None => None,
    }
}

/// What a campaign point records.
pub struct PointView {
    /// Full-precision source model.
    pub source_model_id: Seq<u8>,
    /// Converted model.
    pub model_id: Seq<u8>,
    /// Measured package.
    pub package: MeasuredPackage,
    /// Conversion recipe.
    pub recipe: RecipeView,
    /// Calibration identity.
    pub calibration_id: Seq<u8>,
    /// Evaluation identity.
    pub evaluation_id: Seq<u8>,
    /// Measured metrics.
    pub metrics: MetricsView,
}

impl PointView {
    /// The bytes of the package identity.
    pub open spec fn package_bytes(self) -> Seq<u8> {
        self.package.package_id()@
    }
}

/// One immutable converted artifact and its measured campaign metrics.
#[derive(Clone, Debug, PartialEq)]
pub struct CampaignPoint {
    source_model_id: ModelId,
    model_id: ModelId,
    package: MeasuredPackage,
    recipe: RecipeProvenance,
    calibration_id: CalibrationId,
    evaluation_id: EvaluationId,
    metrics: CampaignMetrics,
}

impl View for CampaignPoint {
    type V = PointView;

    closed spec fn view(&self) -> PointView {
        PointView {
            source_model_id: self.source_model_id@,
            model_id: self.model_id@,
            package: self.package,
            recipe: self.recipe@,
            calibration_id: self.calibration_id@,
            evaluation_id: self.evaluation_id@,
            metrics: self.metrics@,
        }
    }
}

impl CampaignPoint {
    /// The recipe is accepted and an attached report well formed.
    pub closed spec fn wf(&self) -> bool {
        &&& self.recipe@.valid()
        &&& self.metrics.wf()
    }

    /// What a well-formed point shows.
    pub proof fn wf_valid(&self)
        requires
            self.wf(),
        ensures
            point_valid(self@),
            self@.metrics.valid(),
    {
        self.metrics.wf_valid();
        PackageId::bytes_determine(self.package.package_id(), self.package.package_id());
        ModelId::bytes_determine(self.model_id, self.model_id);
    }

    /// Record identities and measurements for one conversion recipe output.
    ///
    /// Construction alone does not prove provenance or bind an optional physical
    /// report to `package`. [`CampaignLedger::add`] performs both trust-boundary
    /// validations.
    pub fn new(
        source_model_id: ModelId,
        model_id: ModelId,
        package: MeasuredPackage,
        recipe: RecipeProvenance,
        calibration_id: CalibrationId,
        evaluation_id: EvaluationId,
        metrics: CampaignMetrics,
    ) -> (point: Self)
        requires
            recipe@.valid(),
            metrics.wf(),
        ensures
            point.wf(),
            point@ == (PointView {
                source_model_id: source_model_id@,
                model_id: model_id@,
                package,
                recipe: recipe@,
                calibration_id: calibration_id@,
                evaluation_id: evaluation_id@,
                metrics: metrics@,
            }),
    {
        CampaignPoint {
            source_model_id,
            model_id,
            package,
            recipe,
            calibration_id,
            evaluation_id,
            metrics,
        }
    }

    /// Full-precision source model identity.
    pub fn source_model_id(&self) -> (id: ModelId)
        ensures
            id@ == self@.source_model_id,
    {
        self.source_model_id
    }

    /// Converted model's semantic identity.
    pub fn model_id(&self) -> (id: ModelId)
        ensures
            id@ == self@.model_id,
    {
        self.model_id
    }

    /// Exact converted package identity.
    pub fn package_id(&self) -> (id: PackageId)
        ensures
            id == self@.package.package_id(),
    {
        self.package.id()
    }

    /// Exact serialized inference-artifact size.
    pub fn physical_bytes(&self) -> (bytes: u64)
        ensures
            bytes == self@.package.length(),
    {
        self.package.physical_bytes()
    }

    /// Embedded conversion recipe.
    pub fn recipe(&self) -> (recipe: &RecipeProvenance)
        ensures
            recipe@ == self@.recipe,
    {
        &self.recipe
    }

    /// Conversion recipe identity.
    pub fn recipe_id(&self) -> (id: RecipeId)
        requires
            self.wf(),
        ensures
            id@ == self@.recipe.id(),
    {
        self.recipe.id()
    }

    /// Calibration provenance identity.
    pub fn calibration_id(&self) -> (id: CalibrationId)
        ensures
            id@ == self@.calibration_id,
    {
        self.calibration_id
    }

    /// Evaluation provenance identity.
    pub fn evaluation_id(&self) -> (id: EvaluationId)
        ensures
            id@ == self@.evaluation_id,
    {
        self.evaluation_id
    }

    /// Measured campaign metrics.
    pub fn metrics(&self) -> (metrics: &CampaignMetrics)
        requires
            self.wf(),
        ensures
            metrics@ == self@.metrics,
            metrics.wf(),
    {
        &self.metrics
    }
}

/// Whether a point's identities have their length, its recipe is accepted, and an attached
/// report accounts validly.
pub open spec fn point_valid(point: PointView) -> bool {
    &&& point.package_bytes().len() == 32
    &&& point.model_id.len() == 32
    &&& point.recipe.valid()
    &&& point.metrics.physical_size_report matches Some(report) ==> report.valid()
}

/// Whether a point carries the measurement of an objective.
pub open spec fn measured(point: PointView, objective: CampaignObjective) -> bool {
    match objective {
        CampaignObjective::PhysicalBytes => true,
        CampaignObjective::LogicalBpw => point.metrics.physical_size_report is Some,
        CampaignObjective::Perplexity => point.metrics.perplexity is Some,
        CampaignObjective::ReconstructionMse => point.metrics.reconstruction_mse is Some,
        CampaignObjective::TaskScore => point.metrics.task_score is Some,
        CampaignObjective::TokensPerSecond => point.metrics.tokens_per_second is Some,
        CampaignObjective::PeakVramBytes => point.metrics.peak_vram_bytes is Some,
    }
}

/// Trits of a point's core.
pub open spec fn rate_trits(point: PointView) -> int {
    (point.metrics.physical_size_report->0).logical_core_trits.count() as int
}

/// Weights of a point's core.
pub open spec fn rate_weights(point: PointView) -> int {
    (point.metrics.physical_size_report->0).core_parameter_count as int
}

/// How far behind `right` the point `left` is on an objective: negative when `left` is better,
/// zero when they are equal.
pub open spec fn lag(left: PointView, right: PointView, objective: CampaignObjective) -> int {
    match objective {
        CampaignObjective::PhysicalBytes => left.package.length() - right.package.length(),
        CampaignObjective::LogicalBpw => rate_trits(left) * rate_weights(right) - rate_trits(right)
            * rate_weights(left),
        CampaignObjective::Perplexity => total_rank(left.metrics.perplexity->0) - total_rank(
            right.metrics.perplexity->0,
        ),
        CampaignObjective::ReconstructionMse => total_rank(left.metrics.reconstruction_mse->0)
            - total_rank(right.metrics.reconstruction_mse->0),
        CampaignObjective::TaskScore => total_rank(right.metrics.task_score->0) - total_rank(
            left.metrics.task_score->0,
        ),
        CampaignObjective::TokensPerSecond => total_rank(right.metrics.tokens_per_second->0)
            - total_rank(left.metrics.tokens_per_second->0),
        CampaignObjective::PeakVramBytes => left.metrics.peak_vram_bytes->0
            - right.metrics.peak_vram_bytes->0,
    }
}

/// Whether `left` is no worse than `right` on every objective and better on at least one.
pub open spec fn dominates(
    left: PointView,
    right: PointView,
    objectives: Seq<CampaignObjective>,
) -> bool {
    &&& forall|k: int| 0 <= k < objectives.len() ==> lag(left, right, #[trigger] objectives[k]) <= 0
    &&& exists|k: int| 0 <= k < objectives.len() && lag(left, right, #[trigger] objectives[k]) < 0
}

/// Whether some point with another package dominates the point.
pub open spec fn dominated(
    points: Seq<PointView>,
    point: PointView,
    objectives: Seq<CampaignObjective>,
) -> bool {
    exists|k: int|
        0 <= k < points.len() && (#[trigger] points[k]).package_bytes() != point.package_bytes()
            && dominates(points[k], point, objectives)
}

/// The undominated points among the first `count`, in order.
pub open spec fn undominated(
    points: Seq<PointView>,
    objectives: Seq<CampaignObjective>,
    count: nat,
) -> Seq<PointView>
    decreases count,
{
    if count == 0 {
        Seq::empty()
    } else {
        let before = undominated(points, objectives, (count - 1) as nat);
        let point = points[count - 1];
        if dominated(points, point, objectives) {
            before
        } else {
            before.push(point)
        }
    }
}

/// Whether `left` comes before `right` by the objectives from `from` on, then by package identity.
pub open spec fn comes_first(
    left: PointView,
    right: PointView,
    objectives: Seq<CampaignObjective>,
    from: nat,
) -> bool
    decreases objectives.len() - from,
{
    if from >= objectives.len() {
        lex_greater(right.package_bytes(), left.package_bytes())
    } else {
        lag(left, right, objectives[from as int]) < 0 || (lag(
            left,
            right,
            objectives[from as int],
        ) == 0 && comes_first(left, right, objectives, from + 1))
    }
}

/// The first position at or after `from` whose point comes after `point`.
pub open spec fn place(
    sorted: Seq<PointView>,
    point: PointView,
    objectives: Seq<CampaignObjective>,
    from: nat,
) -> nat
    decreases sorted.len() - from,
{
    if from < sorted.len() && !comes_first(point, sorted[from as int], objectives, 0) {
        place(sorted, point, objectives, from + 1)
    } else {
        from
    }
}

/// The points in objective order.
pub open spec fn in_objective_order(
    points: Seq<PointView>,
    objectives: Seq<CampaignObjective>,
) -> Seq<PointView>
    decreases points.len(),
{
    if points.len() == 0 {
        Seq::empty()
    } else {
        let before = in_objective_order(points.drop_last(), objectives);
        before.insert(place(before, points.last(), objectives, 0) as int, points.last())
    }
}

/// The first objective from `from` on that occurs before, if there is one.
pub open spec fn repeated(objectives: Seq<CampaignObjective>, from: nat) -> Option<CampaignError>
    decreases objectives.len() - from,
{
    if from >= objectives.len() {
        None
    } else if objectives.take(from as int).contains(objectives[from as int]) {
        Some(CampaignError::DuplicateObjective(objectives[from as int]))
    } else {
        repeated(objectives, from + 1)
    }
}

/// The first objective from `from` on that a point lacks, if there is one.
pub open spec fn lacking(
    point: PointView,
    objectives: Seq<CampaignObjective>,
    from: nat,
) -> Option<CampaignError>
    decreases objectives.len() - from,
{
    if from >= objectives.len() {
        None
    } else if !measured(point, objectives[from as int]) {
        Some(
            CampaignError::MissingObjective {
                package_id: point.package.package_id(),
                objective: objectives[from as int],
            },
        )
    } else {
        lacking(point, objectives, from + 1)
    }
}

/// The first lacking measurement of the points from `from` on, if there is one.
pub open spec fn first_lacking(
    points: Seq<PointView>,
    objectives: Seq<CampaignObjective>,
    from: nat,
) -> Option<CampaignError>
    decreases points.len() - from,
{
    if from >= points.len() {
        None
    } else if lacking(points[from as int], objectives, 0) is Some {
        lacking(points[from as int], objectives, 0)
    } else {
        first_lacking(points, objectives, from + 1)
    }
}

/// The reason to refuse a selection, if there is one.
pub open spec fn selection_error(
    points: Seq<PointView>,
    objectives: Seq<CampaignObjective>,
) -> Option<CampaignError> {
    if objectives.len() == 0 {
        Some(CampaignError::EmptyObjectives)
    } else if repeated(objectives, 0) is Some {
        repeated(objectives, 0)
    } else {
        first_lacking(points, objectives, 0)
    }
}

/// The Pareto frontier of some points.
pub open spec fn frontier(points: Seq<PointView>, objectives: Seq<CampaignObjective>) -> Seq<
    PointView,
> {
    in_objective_order(undominated(points, objectives, points.len()), objectives)
}

proof fn lemma_lag_flip(left: PointView, right: PointView, objective: CampaignObjective)
    ensures
        lag(left, right, objective) == -lag(right, left, objective),
{
}

/// Being behind adds up: no worse than one that is no worse is no worse, strictly so when either
/// step is strict.
proof fn lemma_lag_chain(
    a: PointView,
    b: PointView,
    c: PointView,
    objective: CampaignObjective,
)
    requires
        point_valid(a),
        point_valid(b),
        point_valid(c),
        measured(a, objective),
        measured(b, objective),
        measured(c, objective),
        lag(a, b, objective) <= 0,
        lag(b, c, objective) <= 0,
    ensures
        lag(a, c, objective) <= 0,
        lag(a, b, objective) < 0 || lag(b, c, objective) < 0 ==> lag(a, c, objective) < 0,
        lag(a, b, objective) == 0 && lag(b, c, objective) == 0 ==> lag(a, c, objective) == 0,
{
    if objective is LogicalBpw {
        let at = rate_trits(a);
        let bt = rate_trits(b);
        let ct = rate_trits(c);
        let aw = rate_weights(a);
        let bw = rate_weights(b);
        let cw = rate_weights(c);
        lemma_ratio_chain(at, aw, bt, bw, ct, cw);
    }
}

proof fn lemma_ratio_chain(at: int, aw: int, bt: int, bw: int, ct: int, cw: int)
    requires
        aw > 0,
        bw > 0,
        cw > 0,
        at * bw <= bt * aw,
        bt * cw <= ct * bw,
    ensures
        at * cw <= ct * aw,
        at * bw < bt * aw || bt * cw < ct * bw ==> at * cw < ct * aw,
        at * bw == bt * aw && bt * cw == ct * bw ==> at * cw == ct * aw,
{
    assert((at * cw) * bw == (at * bw) * cw) by (nonlinear_arith);
    assert((bt * aw) * cw == (bt * cw) * aw) by (nonlinear_arith);
    assert((ct * bw) * aw == (ct * aw) * bw) by (nonlinear_arith);
    assert((at * bw) * cw <= (bt * aw) * cw) by (nonlinear_arith)
        requires
            at * bw <= bt * aw,
            cw > 0,
    ;
    assert((bt * cw) * aw <= (ct * bw) * aw) by (nonlinear_arith)
        requires
            bt * cw <= ct * bw,
            aw > 0,
    ;
    if at * bw < bt * aw {
        assert((at * bw) * cw < (bt * aw) * cw) by (nonlinear_arith)
            requires
                at * bw < bt * aw,
                cw > 0,
        ;
    }
    if bt * cw < ct * bw {
        assert((bt * cw) * aw < (ct * bw) * aw) by (nonlinear_arith)
            requires
                bt * cw < ct * bw,
                aw > 0,
        ;
    }
    let x = at * cw;
    let y = ct * aw;
    assert(x * bw <= y * bw);
    if x > y {
        assert(x * bw > y * bw) by (nonlinear_arith)
            requires
                x > y,
                bw > 0,
        ;
    }
    if x < y {
        assert(x * bw < y * bw) by (nonlinear_arith)
            requires
                x < y,
                bw > 0,
        ;
    }
}

/// Whether points carry every requested measurement.
pub open spec fn all_measured(points: Seq<PointView>, objectives: Seq<CampaignObjective>) -> bool {
    forall|i: int, k: int|
        0 <= i < points.len() && 0 <= k < objectives.len() ==> measured(
            #[trigger] points[i],
            #[trigger] objectives[k],
        )
}

/// Whether a point carries every requested measurement.
pub open spec fn fully_measured(point: PointView, objectives: Seq<CampaignObjective>) -> bool {
    forall|k: int| 0 <= k < objectives.len() ==> measured(point, #[trigger] objectives[k])
}

proof fn lemma_first_transitive(
    a: PointView,
    b: PointView,
    c: PointView,
    objectives: Seq<CampaignObjective>,
    from: nat,
)
    requires
        point_valid(a),
        point_valid(b),
        point_valid(c),
        fully_measured(a, objectives),
        fully_measured(b, objectives),
        fully_measured(c, objectives),
        comes_first(a, b, objectives, from),
        comes_first(b, c, objectives, from),
    ensures
        comes_first(a, c, objectives, from),
    decreases objectives.len() - from,
{
    if from >= objectives.len() {
        lemma_lex_transitive(c.package_bytes(), b.package_bytes(), a.package_bytes());
    } else {
        let objective = objectives[from as int];
        assert(measured(a, objectives[from as int]));
        assert(measured(b, objectives[from as int]));
        assert(measured(c, objectives[from as int]));
        lemma_lag_chain(a, b, c, objective);
        if lag(a, b, objective) == 0 && lag(b, c, objective) == 0 {
            lemma_first_transitive(a, b, c, objectives, from + 1);
        }
    }
}

proof fn lemma_first_total(
    a: PointView,
    b: PointView,
    objectives: Seq<CampaignObjective>,
    from: nat,
)
    requires
        point_valid(a),
        point_valid(b),
        a.package_bytes() != b.package_bytes(),
    ensures
        comes_first(a, b, objectives, from) != comes_first(b, a, objectives, from),
    decreases objectives.len() - from,
{
    if from >= objectives.len() {
        lemma_lex_total(a.package_bytes(), b.package_bytes(), 0);
        if lex_greater(a.package_bytes(), b.package_bytes()) {
            lemma_lex_asymmetric(a.package_bytes(), b.package_bytes());
        }
        if lex_greater(b.package_bytes(), a.package_bytes()) {
            lemma_lex_asymmetric(b.package_bytes(), a.package_bytes());
        }
    } else {
        lemma_lag_flip(a, b, objectives[from as int]);
        lemma_first_total(a, b, objectives, from + 1);
    }
}

/// Whether no two points have the same package.
pub open spec fn distinct_packages(points: Seq<PointView>) -> bool {
    forall|i: int, j: int|
        0 <= i < j < points.len() ==> (#[trigger] points[i]).package_bytes() != (
        #[trigger] points[j]).package_bytes()
}

/// Whether every point is valid and carries every requested measurement.
pub open spec fn sortable(points: Seq<PointView>, objectives: Seq<CampaignObjective>) -> bool {
    &&& distinct_packages(points)
    &&& forall|k: int|
        0 <= k < points.len() ==> point_valid(#[trigger] points[k]) && fully_measured(
            points[k],
            objectives,
        )
}

/// Whether each point comes before all later ones.
pub open spec fn is_sorted(points: Seq<PointView>, objectives: Seq<CampaignObjective>) -> bool {
    forall|i: int, j: int|
        0 <= i < j < points.len() ==> comes_first(
            #[trigger] points[i],
            #[trigger] points[j],
            objectives,
            0,
        )
}

proof fn lemma_place(
    sorted: Seq<PointView>,
    point: PointView,
    objectives: Seq<CampaignObjective>,
    from: nat,
)
    requires
        from <= sorted.len(),
    ensures
        from <= place(sorted, point, objectives, from) <= sorted.len(),
        forall|k: int|
            from <= k < place(sorted, point, objectives, from) ==> !comes_first(
                point,
                #[trigger] sorted[k],
                objectives,
                0,
            ),
        place(sorted, point, objectives, from) < sorted.len() ==> comes_first(
            point,
            sorted[place(sorted, point, objectives, from) as int],
            objectives,
            0,
        ),
    decreases sorted.len() - from,
{
    if from < sorted.len() && !comes_first(point, sorted[from as int], objectives, 0) {
        lemma_place(sorted, point, objectives, from + 1);
    }
}

/// Putting points in objective order keeps them all and sorts them.
pub proof fn objective_order_sorts(points: Seq<PointView>, objectives: Seq<CampaignObjective>)
    requires
        sortable(points, objectives),
    ensures
        in_objective_order(points, objectives).to_multiset() == points.to_multiset(),
        in_objective_order(points, objectives).len() == points.len(),
        is_sorted(in_objective_order(points, objectives), objectives),
        sortable(in_objective_order(points, objectives), objectives),
    decreases points.len(),
{
    broadcast use vstd::seq_lib::group_to_multiset_ensures;

    if points.len() > 0 {
        let front = points.drop_last();
        let last = points.last();
        assert(points[points.len() - 1] == last);
        assert forall|i: int, j: int| 0 <= i < j < front.len() implies (
        #[trigger] front[i]).package_bytes() != (#[trigger] front[j]).package_bytes() by {
            assert(points[i].package_bytes() != points[j].package_bytes());
        }
        assert forall|k: int| 0 <= k < front.len() implies point_valid(#[trigger] front[k])
            && fully_measured(front[k], objectives) by {
            assert(front[k] == points[k]);
        }
        objective_order_sorts(front, objectives);
        let before = in_objective_order(front, objectives);
        assert forall|k: int| 0 <= k < before.len() implies (
        #[trigger] before[k]).package_bytes() != last.package_bytes() by {
            assert(before.to_multiset().contains(before[k]));
            assert(front.to_multiset().contains(before[k]));
            assert(front.contains(before[k]));
            let i = choose|i: int| 0 <= i < front.len() && front[i] == before[k];
            assert(points[i].package_bytes() != points[points.len() - 1].package_bytes());
        }
        lemma_insert_sorted(before, last, objectives);
        let at = place(before, last, objectives, 0) as int;
        lemma_place(before, last, objectives, 0);
        assert(front.push(last) =~= points);
        vstd::seq_lib::to_multiset_insert(before, at, last);
    } else {
        assert(in_objective_order(points, objectives) =~= points);
    }
}

proof fn lemma_insert_sorted(
    sorted: Seq<PointView>,
    point: PointView,
    objectives: Seq<CampaignObjective>,
)
    requires
        is_sorted(sorted, objectives),
        sortable(sorted, objectives),
        point_valid(point),
        fully_measured(point, objectives),
        forall|k: int|
            0 <= k < sorted.len() ==> (#[trigger] sorted[k]).package_bytes()
                != point.package_bytes(),
    ensures
        is_sorted(
            sorted.insert(place(sorted, point, objectives, 0) as int, point),
            objectives,
        ),
        sortable(sorted.insert(place(sorted, point, objectives, 0) as int, point), objectives),
{
    lemma_place(sorted, point, objectives, 0);
    let at = place(sorted, point, objectives, 0) as int;
    let all = sorted.insert(at, point);
    assert forall|i: int, j: int| 0 <= i < j < all.len() implies comes_first(
        #[trigger] all[i],
        #[trigger] all[j],
        objectives,
        0,
    ) && all[i].package_bytes() != all[j].package_bytes() by {
        if j == at {
            assert(all[i] == sorted[i]);
            lemma_first_total(sorted[i], point, objectives, 0);
        } else if i == at {
            assert(all[j] == sorted[j - 1]);
            lemma_first_total(point, sorted[j - 1], objectives, 0);
            if j - 1 > at {
                assert(comes_first(sorted[at], sorted[j - 1], objectives, 0));
                lemma_first_transitive(point, sorted[at], sorted[j - 1], objectives, 0);
            }
        } else {
            let a = if i < at {
                i
            } else {
                i - 1
            };
            let b = if j < at {
                j
            } else {
                j - 1
            };
            assert(all[i] == sorted[a]);
            assert(all[j] == sorted[b]);
            assert(comes_first(sorted[a], sorted[b], objectives, 0));
            assert(sorted[a].package_bytes() != sorted[b].package_bytes());
        }
    }
    assert forall|k: int| 0 <= k < all.len() implies point_valid(#[trigger] all[k])
        && fully_measured(all[k], objectives) by {
        if k < at {
            assert(all[k] == sorted[k]);
        } else if k > at {
            assert(all[k] == sorted[k - 1]);
        }
    }
}

/// Sorted runs of the same points are the same run.
pub proof fn sorted_order_is_unique(
    left: Seq<PointView>,
    right: Seq<PointView>,
    objectives: Seq<CampaignObjective>,
)
    requires
        is_sorted(left, objectives),
        is_sorted(right, objectives),
        sortable(left, objectives),
        sortable(right, objectives),
        left.to_multiset() == right.to_multiset(),
    ensures
        left == right,
    decreases left.len(),
{
    broadcast use vstd::seq_lib::group_to_multiset_ensures;

    assert(left.to_multiset().len() == left.len());
    assert(right.to_multiset().len() == right.len());
    if left.len() > 0 {
        let n = left.len() as int - 1;
        assert(left.to_multiset().contains(left[n]));
        assert(right.contains(left[n]));
        let j = choose|j: int| 0 <= j < right.len() && right[j] == left[n];
        assert(right.to_multiset().contains(right[n]));
        assert(left.contains(right[n]));
        let i = choose|i: int| 0 <= i < left.len() && left[i] == right[n];
        if j < n && i < n {
            assert(comes_first(right[j], right[n], objectives, 0));
            assert(comes_first(left[i], left[n], objectives, 0));
            assert(left[i].package_bytes() != left[n].package_bytes());
            lemma_first_total(left[n], right[n], objectives, 0);
        }
        assert(left[n] == right[n]);
        let a = left.drop_last();
        let b = right.drop_last();
        assert(a.push(left[n]) =~= left);
        assert(b.push(right[n]) =~= right);
        assert(a.to_multiset() =~= left.to_multiset().remove(left[n]));
        assert(b.to_multiset() =~= right.to_multiset().remove(right[n]));
        lemma_prefix_sortable(left, objectives);
        lemma_prefix_sortable(right, objectives);
        sorted_order_is_unique(a, b, objectives);
    } else {
        assert(left =~= right);
    }
}

proof fn lemma_prefix_sortable(points: Seq<PointView>, objectives: Seq<CampaignObjective>)
    requires
        points.len() > 0,
        is_sorted(points, objectives),
        sortable(points, objectives),
    ensures
        is_sorted(points.drop_last(), objectives),
        sortable(points.drop_last(), objectives),
{
    let front = points.drop_last();
    assert forall|i: int, j: int| 0 <= i < j < front.len() implies comes_first(
        #[trigger] front[i],
        #[trigger] front[j],
        objectives,
        0,
    ) && front[i].package_bytes() != front[j].package_bytes() by {
        assert(comes_first(points[i], points[j], objectives, 0));
        assert(points[i].package_bytes() != points[j].package_bytes());
    }
    assert forall|k: int| 0 <= k < front.len() implies point_valid(#[trigger] front[k])
        && fully_measured(front[k], objectives) by {
        assert(front[k] == points[k]);
    }
}

/// The order of the points does not matter: the same points in any order are put in the same
/// objective order.
pub proof fn objective_order_ignores_insertion_order(
    left: Seq<PointView>,
    right: Seq<PointView>,
    objectives: Seq<CampaignObjective>,
)
    requires
        sortable(left, objectives),
        sortable(right, objectives),
        left.to_multiset() == right.to_multiset(),
    ensures
        in_objective_order(left, objectives) == in_objective_order(right, objectives),
{
    objective_order_sorts(left, objectives);
    objective_order_sorts(right, objectives);
    sorted_order_is_unique(
        in_objective_order(left, objectives),
        in_objective_order(right, objectives),
        objectives,
    );
}

/// The points that a vector of references holds.
pub open spec fn ref_views(points: Seq<&CampaignPoint>) -> Seq<PointView> {
    Seq::new(points.len(), |k: int| points[k]@)
}

/// The points that a vector holds.
pub open spec fn point_views(points: Seq<CampaignPoint>) -> Seq<PointView> {
    Seq::new(points.len(), |k: int| points[k]@)
}

/// How a point stands to another on one objective.
#[derive(Clone, Copy, Debug, PartialEq, Eq, Structural)]
pub enum Standing {
    /// Better.
    Ahead,
    /// Equal.
    Level,
    /// Worse.
    Behind,
}

/// The standing that a lag means.
pub open spec fn standing_of(lag: int) -> Standing {
    if lag < 0 {
        Standing::Ahead
    } else if lag == 0 {
        Standing::Level
    } else {
        Standing::Behind
    }
}

fn standing(left: u128, right: u128) -> (result: Standing)
    ensures
        result == standing_of(left - right),
{
    if left < right {
        Standing::Ahead
    } else if left == right {
        Standing::Level
    } else {
        Standing::Behind
    }
}

fn measured_value(value: Option<u64>) -> (held: u64)
    requires
        value is Some,
    ensures
        held == value->0,
{
    match value {
        Some(held) => held,
        None => 0,
    }
}

/// Whether a point carries the measurement of an objective.
pub fn has_objective(point: &CampaignPoint, objective: CampaignObjective) -> (present: bool)
    requires
        point.wf(),
    ensures
        present == measured(point@, objective),
{
    let metrics: &CampaignMetrics = point.metrics();
    match objective {
        CampaignObjective::PhysicalBytes => true,
        CampaignObjective::LogicalBpw => metrics.physical_size_report().is_some(),
        CampaignObjective::Perplexity => metrics.perplexity().is_some(),
        CampaignObjective::ReconstructionMse => metrics.reconstruction_mse().is_some(),
        CampaignObjective::TaskScore => metrics.task_score().is_some(),
        CampaignObjective::TokensPerSecond => metrics.tokens_per_second().is_some(),
        CampaignObjective::PeakVramBytes => metrics.peak_vram_bytes().is_some(),
    }
}

/// The exact logical-trit ratio of a point.
fn exact_rate(point: &CampaignPoint) -> (rate: (u64, u64))
    requires
        point.wf(),
        point@.metrics.physical_size_report is Some,
    ensures
        rate.0 == rate_trits(point@),
        rate.1 == rate_weights(point@),
{
    match point.metrics().physical_size_report() {
        Some(report) => {
            let rate = report.logical_core_rate();
            (rate.trits(), rate.weights())
        },
        None => (0, 0),
    }
}

/// How `left` stands to `right` on an objective.
pub fn objective_standing(
    left: &CampaignPoint,
    right: &CampaignPoint,
    objective: CampaignObjective,
) -> (result: Standing)
    requires
        left.wf(),
        right.wf(),
        measured(left@, objective),
        measured(right@, objective),
    ensures
        result == standing_of(lag(left@, right@, objective)),
{
    let a: &CampaignMetrics = left.metrics();
    let b: &CampaignMetrics = right.metrics();
    match objective {
        CampaignObjective::PhysicalBytes => standing(
            left.physical_bytes() as u128,
            right.physical_bytes() as u128,
        ),
        CampaignObjective::LogicalBpw => {
            let (left_trits, left_weights): (u64, u64) = exact_rate(left);
            let (right_trits, right_weights): (u64, u64) = exact_rate(right);
            proof {
                lemma_wide_product(left_trits, right_weights);
                lemma_wide_product(right_trits, left_weights);
            }
            standing(
                left_trits as u128 * right_weights as u128,
                right_trits as u128 * left_weights as u128,
            )
        },
        CampaignObjective::Perplexity => standing(
            total_position(measured_value(a.perplexity())),
            total_position(measured_value(b.perplexity())),
        ),
        CampaignObjective::ReconstructionMse => standing(
            total_position(measured_value(a.reconstruction_mse())),
            total_position(measured_value(b.reconstruction_mse())),
        ),
        CampaignObjective::TaskScore => standing(
            total_position(measured_value(b.task_score())),
            total_position(measured_value(a.task_score())),
        ),
        CampaignObjective::TokensPerSecond => standing(
            total_position(measured_value(b.tokens_per_second())),
            total_position(measured_value(a.tokens_per_second())),
        ),
        CampaignObjective::PeakVramBytes => standing(
            measured_value(a.peak_vram_bytes()) as u128,
            measured_value(b.peak_vram_bytes()) as u128,
        ),
    }
}

/// Whether `left` dominates `right`.
pub fn point_dominates(
    left: &CampaignPoint,
    right: &CampaignPoint,
    objectives: &[CampaignObjective],
) -> (result: bool)
    requires
        left.wf(),
        right.wf(),
        fully_measured(left@, objectives@),
        fully_measured(right@, objectives@),
    ensures
        result == dominates(left@, right@, objectives@),
{
    let mut strictly_better: bool = false;
    let mut index: usize = 0;
    while index < objectives.len()
        invariant
            index <= objectives@.len(),
            left.wf(),
            right.wf(),
            fully_measured(left@, objectives@),
            fully_measured(right@, objectives@),
            forall|k: int| 0 <= k < index ==> lag(left@, right@, #[trigger] objectives@[k]) <= 0,
            strictly_better == exists|k: int|
                0 <= k < index && lag(left@, right@, #[trigger] objectives@[k]) < 0,
        decreases objectives@.len() - index,
    {
        let ghost before = strictly_better;
        assert(measured(left@, objectives@[index as int]));
        assert(measured(right@, objectives@[index as int]));
        match objective_standing(left, right, objectives[index]) {
            Standing::Ahead => {
                assert(lag(left@, right@, objectives@[index as int]) < 0);
                strictly_better = true;
            },
            Standing::Level => {},
            Standing::Behind => {
                return false;
            },
        }
        index = index + 1;
    }
    strictly_better
}

/// Whether `left` comes before `right`.
fn point_comes_first(
    left: &CampaignPoint,
    right: &CampaignPoint,
    objectives: &[CampaignObjective],
) -> (result: bool)
    requires
        left.wf(),
        right.wf(),
        fully_measured(left@, objectives@),
        fully_measured(right@, objectives@),
    ensures
        result == comes_first(left@, right@, objectives@, 0),
{
    let mut index: usize = 0;
    while index < objectives.len()
        invariant
            index <= objectives@.len(),
            left.wf(),
            right.wf(),
            fully_measured(left@, objectives@),
            fully_measured(right@, objectives@),
            comes_first(left@, right@, objectives@, 0) == comes_first(
                left@,
                right@,
                objectives@,
                index as nat,
            ),
        decreases objectives@.len() - index,
    {
        assert(measured(left@, objectives@[index as int]));
        assert(measured(right@, objectives@[index as int]));
        match objective_standing(left, right, objectives[index]) {
            Standing::Ahead => {
                return true;
            },
            Standing::Level => {},
            Standing::Behind => {
                return false;
            },
        }
        index = index + 1;
    }
    proof {
        left.wf_valid();
        right.wf_valid();
    }
    planes_lex_greater(
        right.package_id().as_bytes().as_slice(),
        left.package_id().as_bytes().as_slice(),
    )
}

/// Puts a point in its place among sorted ones.
fn insert_point<'a>(
    sorted: &mut Vec<&'a CampaignPoint>,
    point: &'a CampaignPoint,
    objectives: &[CampaignObjective],
)
    requires
        point.wf(),
        fully_measured(point@, objectives@),
        forall|k: int|
            0 <= k < old(sorted)@.len() ==> (#[trigger] old(sorted)@[k]).wf() && fully_measured(
                old(sorted)@[k]@,
                objectives@,
            ),
    ensures
        ref_views(final(sorted)@) == ref_views(old(sorted)@).insert(
            place(ref_views(old(sorted)@), point@, objectives@, 0) as int,
            point@,
        ),
        forall|k: int|
            0 <= k < final(sorted)@.len() ==> (#[trigger] final(sorted)@[k]).wf()
                && fully_measured(final(sorted)@[k]@, objectives@),
{
    let ghost before = sorted@;
    let ghost views = ref_views(before);
    let mut at: usize = 0;
    while at < sorted.len() && !point_comes_first(point, sorted[at], objectives)
        invariant
            at <= sorted@.len(),
            sorted@ == before,
            views == ref_views(before),
            point.wf(),
            fully_measured(point@, objectives@),
            forall|k: int|
                0 <= k < sorted@.len() ==> (#[trigger] sorted@[k]).wf() && fully_measured(
                    sorted@[k]@,
                    objectives@,
                ),
            place(views, point@, objectives@, 0) == place(views, point@, objectives@, at as nat),
        decreases sorted@.len() - at,
    {
        assert(views[at as int] == sorted@[at as int]@);
        at = at + 1;
    }
    proof {
        if at < sorted.len() {
            assert(views[at as int] == sorted@[at as int]@);
        }
    }
    sorted.insert(at, point);
    assert(ref_views(sorted@) =~= views.insert(at as int, point@));
}

/// A marked optional number.
pub open spec fn optional_field(value: Option<u64>) -> Seq<u8> {
    match value {
        None => seq![0u8],
        Some(held) => seq![1u8] + le(held as nat, 8),
    }
}

/// The counters of a physical report in canonical order.
pub open spec fn report_counters(report: ReportView) -> Seq<u64> {
    seq![
        report.core_parameter_count,
        report.model_parameter_count,
        report.logical_core_trits.count(),
        report.serialized.core_payload_bytes,
        report.serialized.core_scale_bytes,
        report.serialized.allocation_map_bytes,
        report.serialized.allocation_map_bits,
        report.serialized.allocation_map_embedded_bits,
        report.serialized.header_bytes,
        report.serialized.transform_bytes,
        report.serialized.preserved_bytes,
        report.serialized.alignment_bytes,
        report.resident.core_bytes,
        report.resident.map_bytes,
        report.resident.map_bits,
        report.resident.map_embedded_bits,
        report.resident.descriptor_bytes,
        report.resident.preserved_bytes,
        report.resident.shadow_bytes,
    ]
}

/// Numbers of eight bytes one after the other.
pub open spec fn number_fields(values: Seq<u64>) -> Seq<u8>
    decreases values.len(),
{
    if values.len() == 0 {
        Seq::empty()
    } else {
        number_fields(values.drop_last()) + le(values.last() as nat, 8)
    }
}

/// A marked optional physical report.
pub open spec fn optional_report(report: Option<ReportView>) -> Seq<u8> {
    match report {
        None => seq![0u8],
        Some(held) => seq![1u8] + number_fields(report_counters(held)) + optional_field(
            held.resident.peak_workspace_bytes,
        ),
    }
}

/// The identities and the recipe of a point.
#[verifier::opaque]
pub open spec fn point_head(point: PointView) -> Seq<u8> {
    point.model_id + point.package_bytes() + le(point.package.length() as nat, 8) + le(
        point.recipe.canonical().len(),
        4,
    ) + point.recipe.canonical()
}

/// The measurements of a point.
#[verifier::opaque]
pub open spec fn point_measurements(metrics: MetricsView) -> Seq<u8> {
    le(metrics.logical_bpw as nat, 8) + optional_field(metrics.perplexity) + optional_field(
        metrics.reconstruction_mse,
    ) + optional_field(metrics.task_score) + optional_field(metrics.tokens_per_second)
        + optional_field(metrics.peak_vram_bytes)
}

/// The canonical record of a point.
pub open spec fn point_record(point: PointView, with_reports: bool) -> Seq<u8> {
    point_head(point) + point_measurements(point.metrics) + if with_reports {
        optional_report(point.metrics.physical_size_report)
    } else {
        Seq::empty()
    }
}

/// The canonical records of points one after the other.
pub open spec fn point_records(points: Seq<PointView>, with_reports: bool) -> Seq<u8>
    decreases points.len(),
{
    if points.len() == 0 {
        Seq::empty()
    } else {
        point_records(points.drop_last(), with_reports) + point_record(points.last(), with_reports)
    }
}

/// Whether some point carries a physical report.
pub open spec fn any_report(points: Seq<PointView>) -> bool {
    exists|k: int|
        0 <= k < points.len() && (#[trigger] points[k]).metrics.physical_size_report is Some
}

/// What a ledger holds.
pub struct LedgerView {
    /// Full-precision source model.
    pub source_model_id: Seq<u8>,
    /// Pinned calibration.
    pub calibration: CalibrationView,
    /// Pinned evaluation.
    pub evaluation: EvaluationView,
    /// Accepted points in insertion order.
    pub points: Seq<PointView>,
}

/// Points ordered by package identity.
pub open spec fn by_package(points: Seq<PointView>) -> Seq<PointView> {
    in_objective_order(points, Seq::empty())
}

impl LedgerView {
    /// Whether the pinned records are accepted, the points use them, and no package repeats.
    pub open spec fn valid(self) -> bool {
        &&& self.source_model_id.len() == 32
        &&& self.calibration.valid()
        &&& self.evaluation.valid()
        &&& distinct_packages(self.points)
        &&& forall|k: int|
            0 <= k < self.points.len() ==> point_valid(#[trigger] self.points[k])
                && self.pins(self.points[k])
    }

    /// Whether a point uses the pinned identities, and an attached report describes its package.
    pub open spec fn pins(self, point: PointView) -> bool {
        self.pin_error(point) is None
    }

    /// The pinned identity that a point does not use, or the package that its report does not
    /// describe, if there is one.
    pub open spec fn pin_error(self, point: PointView) -> Option<CampaignError> {
        if point.source_model_id != self.source_model_id {
            Some(CampaignError::ProvenanceMismatch("source_model"))
        } else if point.calibration_id != self.calibration.id() {
            Some(CampaignError::ProvenanceMismatch("calibration"))
        } else if point.evaluation_id != self.evaluation.id() {
            Some(CampaignError::ProvenanceMismatch("evaluation"))
        } else if point.metrics.physical_size_report is Some && (
        point.metrics.physical_size_report->0).package != point.package {
            Some(
                measurement_mismatch(
                    point.package,
                    (point.metrics.physical_size_report->0).package,
                ),
            )
        } else {
            None
        }
    }

    /// Whether a point with the package is present.
    pub open spec fn records(self, package: Seq<u8>) -> bool {
        exists|k: int|
            0 <= k < self.points.len() && (#[trigger] self.points[k]).package_bytes() == package
    }

    /// The canonical record up to the first point.
    #[verifier::opaque]
    pub open spec fn front(self) -> Seq<u8> {
        let reports = any_report(self.points);
        seq![0x54u8, 0x43u8, 0x4du8, 0x50u8] + seq![
            if reports {
                4u8
            } else {
                2u8
            },
        ] + self.source_model_id + le(self.calibration.canonical().len(), 4)
            + self.calibration.canonical() + le(self.evaluation.canonical().len(), 4)
            + self.evaluation.canonical() + le(self.points.len(), 4)
    }

    /// The canonical record.
    pub open spec fn canonical(self) -> Seq<u8> {
        self.front() + point_records(by_package(self.points), any_report(self.points))
    }

    /// The part that does not fit its canonical length field, if there is one.
    pub open spec fn record_error(self) -> Option<CampaignError> {
        if self.calibration.canonical().len() > u32::MAX {
            Some(CampaignError::RecordTooLarge("calibration"))
        } else if self.evaluation.canonical().len() > u32::MAX {
            Some(CampaignError::RecordTooLarge("evaluation"))
        } else if self.points.len() > u32::MAX {
            Some(CampaignError::RecordTooLarge("points"))
        } else if exists|k: int|
            0 <= k < self.points.len() && (#[trigger] self.points[k]).recipe.canonical().len()
                > u32::MAX {
            Some(CampaignError::RecordTooLarge("recipe"))
        } else {
            None
        }
    }

    /// The content identity.
    pub open spec fn id(self) -> Seq<u8> {
        blake3_derived("tritium campaign ledger id v1"@, self.canonical())
    }
}

/// The canonical record does not depend on the order in which the points were added.
pub proof fn canonical_record_ignores_insertion_order(left: LedgerView, right: LedgerView)
    requires
        left.valid(),
        right.valid(),
        left.source_model_id == right.source_model_id,
        left.calibration == right.calibration,
        left.evaluation == right.evaluation,
        left.points.to_multiset() == right.points.to_multiset(),
    ensures
        left.canonical() == right.canonical(),
        left.id() == right.id(),
{
    reveal(LedgerView::front);
    broadcast use vstd::seq_lib::group_to_multiset_ensures;

    assert(left.points.to_multiset().len() == left.points.len());
    assert(right.points.to_multiset().len() == right.points.len());
    objective_order_ignores_insertion_order(left.points, right.points, Seq::empty());
    lemma_any_report(left.points, right.points);
    lemma_any_report(right.points, left.points);
}

proof fn lemma_any_report(left: Seq<PointView>, right: Seq<PointView>)
    requires
        left.to_multiset() == right.to_multiset(),
    ensures
        any_report(left) ==> any_report(right),
{
    broadcast use vstd::seq_lib::group_to_multiset_ensures;

    if any_report(left) {
        let k = choose|k: int|
            0 <= k < left.len() && (#[trigger] left[k]).metrics.physical_size_report is Some;
        assert(left.to_multiset().contains(left[k]));
        assert(right.contains(left[k]));
    }
}

/// The frontier holds exactly the points that no other point dominates, in objective order.
pub proof fn frontier_holds_the_undominated_points(
    points: Seq<PointView>,
    objectives: Seq<CampaignObjective>,
    point: PointView,
)
    requires
        sortable(points, objectives),
    ensures
        frontier(points, objectives).contains(point) <==> points.contains(point) && !dominated(
            points,
            point,
            objectives,
        ),
        is_sorted(frontier(points, objectives), objectives),
{
    broadcast use vstd::seq_lib::group_to_multiset_ensures;

    lemma_undominated(points, objectives, points.len());
    let kept = undominated(points, objectives, points.len());
    objective_order_sorts(kept, objectives);
    let ordered = frontier(points, objectives);
    assert(ordered.to_multiset().contains(point) <==> kept.to_multiset().contains(point));
    assert(kept.contains(point) <==> kept.to_multiset().contains(point));
    assert(ordered.contains(point) <==> ordered.to_multiset().contains(point));
    assert(points.take(points.len() as int) =~= points);
    assert(kept.contains(point) <==> points.contains(point) && !dominated(
        points,
        point,
        objectives,
    ));
}

proof fn lemma_undominated(
    points: Seq<PointView>,
    objectives: Seq<CampaignObjective>,
    count: nat,
)
    requires
        sortable(points, objectives),
        count <= points.len(),
    ensures
        sortable(undominated(points, objectives, count), objectives),
        forall|point: PointView| #[trigger]
            undominated(points, objectives, count).contains(point) <==> points.take(
                count as int,
            ).contains(point) && !dominated(points, point, objectives),
    decreases count,
{
    let kept = undominated(points, objectives, count);
    let part = points.take(count as int);
    if count > 0 {
        let less = (count - 1) as nat;
        lemma_undominated(points, objectives, less);
        let before = undominated(points, objectives, less);
        let last = points[count - 1];
        let short = points.take(less as int);
        assert(part =~= short.push(last));
        assert forall|point: PointView| #[trigger] kept.contains(point) <==> part.contains(point)
            && !dominated(points, point, objectives) by {
            assert(part.contains(point) <==> short.contains(point) || point == last) by {
                if short.contains(point) {
                    let i = choose|i: int| 0 <= i < short.len() && short[i] == point;
                    assert(part[i] == point);
                }
                if point == last {
                    assert(part[count - 1] == point);
                }
                if part.contains(point) {
                    let i = choose|i: int| 0 <= i < part.len() && part[i] == point;
                    if i < short.len() {
                        assert(short[i] == point);
                    }
                }
            }
            assert(before.contains(point) <==> short.contains(point) && !dominated(
                points,
                point,
                objectives,
            ));
            if !dominated(points, last, objectives) {
                assert(kept == before.push(last));
                if before.contains(point) {
                    let i = choose|i: int| 0 <= i < before.len() && before[i] == point;
                    assert(kept[i] == point);
                }
                if point == last {
                    assert(kept[before.len() as int] == point);
                }
                if kept.contains(point) {
                    let i = choose|i: int| 0 <= i < kept.len() && kept[i] == point;
                    if i < before.len() {
                        assert(before[i] == point);
                    }
                }
            }
        }
        if !dominated(points, last, objectives) {
            assert forall|i: int, j: int| 0 <= i < j < kept.len() implies (
            #[trigger] kept[i]).package_bytes() != (#[trigger] kept[j]).package_bytes() by {
                if j == before.len() {
                    assert(before.contains(before[i]));
                    assert(kept[i] == before[i]);
                    let m = choose|m: int| 0 <= m < short.len() && short[m] == before[i];
                    assert(points[m].package_bytes() != points[count - 1].package_bytes());
                } else {
                    assert(before[i].package_bytes() != before[j].package_bytes());
                }
            }
            assert forall|k: int| 0 <= k < kept.len() implies point_valid(#[trigger] kept[k])
                && fully_measured(kept[k], objectives) by {
                if k < before.len() {
                    assert(kept[k] == before[k]);
                } else {
                    assert(kept[k] == points[count - 1]);
                }
            }
        }
    } else {
        assert(part =~= Seq::empty());
    }
}

/// Apples-to-apples campaign ledger pinned to one source, calibration, and evaluation.
#[derive(Clone, Debug, PartialEq)]
pub struct CampaignLedger {
    source_model_id: ModelId,
    calibration: CalibrationProvenance,
    calibration_id: CalibrationId,
    evaluation: EvaluationProvenance,
    evaluation_id: EvaluationId,
    points: Vec<CampaignPoint>,
}

impl View for CampaignLedger {
    type V = LedgerView;

    closed spec fn view(&self) -> LedgerView {
        LedgerView {
            source_model_id: self.source_model_id@,
            calibration: self.calibration@,
            evaluation: self.evaluation@,
            points: point_views(self.points@),
        }
    }
}

impl CampaignLedger {
    /// The ledger is valid and keeps the identities of its pinned records.
    pub closed spec fn wf(&self) -> bool {
        &&& self@.valid()
        &&& self.calibration_id@ == self.calibration@.id()
        &&& self.evaluation_id@ == self.evaluation@.id()
        &&& forall|k: int| 0 <= k < self.points@.len() ==> (#[trigger] self.points@[k]).wf()
    }

    /// A well-formed ledger is a valid one, and its points hold valid measurements.
    pub proof fn wf_valid(&self)
        requires
            self.wf(),
        ensures
            self@.valid(),
            forall|k: int|
                0 <= k < self@.points.len() ==> (#[trigger] self@.points[k]).metrics.valid(),
    {
        assert forall|k: int| 0 <= k < self@.points.len() implies (
        #[trigger] self@.points[k]).metrics.valid() by {
            assert(self.points@[k].wf());
            self.points@[k].wf_valid();
        }
    }

    /// Start an empty ledger with fixed comparison provenance.
    pub fn new(
        source_model_id: ModelId,
        calibration: CalibrationProvenance,
        evaluation: EvaluationProvenance,
    ) -> (ledger: Self)
        requires
            calibration@.valid(),
            evaluation@.valid(),
        ensures
            ledger.wf(),
            ledger@ == (LedgerView {
                source_model_id: source_model_id@,
                calibration: calibration@,
                evaluation: evaluation@,
                points: Seq::empty(),
            }),
    {
        proof {
            ModelId::bytes_determine(source_model_id, source_model_id);
        }
        let calibration_id: CalibrationId = calibration.id();
        let evaluation_id: EvaluationId = evaluation.id();
        let ledger = CampaignLedger {
            source_model_id,
            calibration,
            calibration_id,
            evaluation,
            evaluation_id,
            points: Vec::new(),
        };
        assert(ledger@.points =~= Seq::empty());
        ledger
    }

    /// Full-precision source model shared by every point.
    pub fn source_model_id(&self) -> (id: ModelId)
        ensures
            id@ == self@.source_model_id,
    {
        self.source_model_id
    }

    /// Pinned calibration provenance.
    pub fn calibration(&self) -> (calibration: &CalibrationProvenance)
        ensures
            calibration@ == self@.calibration,
    {
        &self.calibration
    }

    /// Cached identity of pinned calibration provenance.
    pub fn calibration_id(&self) -> (id: CalibrationId)
        requires
            self.wf(),
        ensures
            id@ == self@.calibration.id(),
    {
        self.calibration_id
    }

    /// Pinned evaluation provenance.
    pub fn evaluation(&self) -> (evaluation: &EvaluationProvenance)
        ensures
            evaluation@ == self@.evaluation,
    {
        &self.evaluation
    }

    /// Cached identity of pinned evaluation provenance.
    pub fn evaluation_id(&self) -> (id: EvaluationId)
        requires
            self.wf(),
        ensures
            id@ == self@.evaluation.id(),
    {
        self.evaluation_id
    }

    /// Accepted campaign points in insertion order.
    pub fn points(&self) -> (points: &[CampaignPoint])
        requires
            self.wf(),
        ensures
            point_views(points@) == self@.points,
            forall|k: int| 0 <= k < points@.len() ==> (#[trigger] points@[k]).wf(),
    {
        self.points.as_slice()
    }

    /// Checks that a point uses the pinned identities and that its report describes its package.
    fn check_pins(&self, point: &CampaignPoint) -> (result: Result<(), CampaignError>)
        requires
            self.wf(),
            point.wf(),
        ensures
            match self@.pin_error(point@) {
                Some(error) => result == Err::<(), CampaignError>(error),
                None => result is Ok,
            },
    {
        if !point.source_model_id.same(&self.source_model_id) {
            return Err(CampaignError::ProvenanceMismatch("source_model"));
        }
        if !point.calibration_id.same(&self.calibration_id) {
            return Err(CampaignError::ProvenanceMismatch("calibration"));
        }
        if !point.evaluation_id.same(&self.evaluation_id) {
            return Err(CampaignError::ProvenanceMismatch("evaluation"));
        }
        match point.metrics.physical_size_report {
            Some(report) => {
                let expected: MeasuredPackage = point.package;
                expected.verify(report.package())?;
            },
            None => {},
        }
        Ok(())
    }

    /// Whether a point with the package is present.
    fn contains_package(&self, package: PackageId) -> (present: bool)
        requires
            self.wf(),
        ensures
            present == self@.records(package@),
    {
        let mut index: usize = 0;
        while index < self.points.len()
            invariant
                index <= self.points@.len(),
                forall|k: int|
                    0 <= k < index ==> (#[trigger] self@.points[k]).package_bytes() != package@,
            decreases self.points@.len() - index,
        {
            assert(self@.points[index as int] == self.points@[index as int]@);
            if self.points[index].package_id().same(&package) {
                return true;
            }
            index = index + 1;
        }
        false
    }

    /// Add a point only when every comparison identity matches this ledger.
    pub fn add(&mut self, point: CampaignPoint) -> (result: Result<(), CampaignError>)
        requires
            old(self).wf(),
            point.wf(),
        ensures
            final(self).wf(),
            match old(self)@.pin_error(point@) {
                Some(error) => result == Err::<(), CampaignError>(error) && final(self)@
                    == old(self)@,
                None => if old(self)@.records(point@.package_bytes()) {
                    result == Err::<(), CampaignError>(
                        CampaignError::DuplicatePackage(point@.package.package_id()),
                    ) && final(self)@ == old(self)@
                } else {
                    result is Ok && final(self)@ == (LedgerView {
                        points: old(self)@.points.push(point@),
                        ..old(self)@
                    })
                },
            },
    {
        self.check_pins(&point)?;
        if self.contains_package(point.package_id()) {
            return Err(CampaignError::DuplicatePackage(point.package_id()));
        }
        let ghost before = self@;
        proof {
            point.wf_valid();
        }
        self.points.push(point);
        proof {
            let after = before.points.push(point@);
            assert(self@.points =~= after);
            assert forall|i: int, j: int| 0 <= i < j < after.len() implies (
            #[trigger] after[i]).package_bytes() != (#[trigger] after[j]).package_bytes() by {
                assert(after[i] == before.points[i]);
                if j < before.points.len() {
                    assert(before.points[i].package_bytes() != before.points[j].package_bytes());
                }
            }
            assert forall|k: int| 0 <= k < after.len() implies point_valid(#[trigger] after[k])
                && before.pins(after[k]) by {
                if k < before.points.len() {
                    assert(after[k] == before.points[k]);
                }
            }
            assert(self@.pins(point@));
            assert forall|k: int| 0 <= k < after.len() implies point_valid(
                #[trigger] self@.points[k],
            ) && self@.pins(self@.points[k]) by {
                assert(before.pins(after[k]));
            }
        }
        Ok(())
    }

    /// Checks that objectives are given and do not repeat.
    fn check_objectives(objectives: &[CampaignObjective]) -> (result: Result<(), CampaignError>)
        ensures
            if objectives@.len() == 0 {
                result == Err::<(), CampaignError>(CampaignError::EmptyObjectives)
            } else {
                match repeated(objectives@, 0) {
                    Some(error) => result == Err::<(), CampaignError>(error),
                    None => result is Ok,
                }
            },
    {
        if objectives.len() == 0 {
            return Err(CampaignError::EmptyObjectives);
        }
        let mut index: usize = 0;
        while index < objectives.len()
            invariant
                index <= objectives@.len(),
                repeated(objectives@, 0) == repeated(objectives@, index as nat),
            decreases objectives@.len() - index,
        {
            let ghost before = objectives@.take(index as int);
            let mut earlier: usize = 0;
            while earlier < index
                invariant
                    earlier <= index < objectives@.len(),
                    before == objectives@.take(index as int),
                    repeated(objectives@, 0) == repeated(objectives@, index as nat),
                    objectives@.len() > 0,
                    forall|k: int| 0 <= k < earlier ==> before[k] != objectives@[index as int],
                decreases index - earlier,
            {
                if objectives[earlier] == objectives[index] {
                    assert(before[earlier as int] == objectives@[index as int]);
                    return Err(CampaignError::DuplicateObjective(objectives[index]));
                }
                earlier = earlier + 1;
            }
            assert(!before.contains(objectives@[index as int]));
            index = index + 1;
        }
        Ok(())
    }

    /// Checks that a point carries every requested measurement.
    fn check_measured(point: &CampaignPoint, objectives: &[CampaignObjective]) -> (result: Result<
        (),
        CampaignError,
    >)
        requires
            point.wf(),
        ensures
            match lacking(point@, objectives@, 0) {
                Some(error) => result == Err::<(), CampaignError>(error),
                None => result is Ok && fully_measured(point@, objectives@),
            },
    {
        let mut index: usize = 0;
        while index < objectives.len()
            invariant
                index <= objectives@.len(),
                point.wf(),
                lacking(point@, objectives@, 0) == lacking(point@, objectives@, index as nat),
                forall|k: int| 0 <= k < index ==> measured(point@, #[trigger] objectives@[k]),
            decreases objectives@.len() - index,
        {
            if !has_objective(point, objectives[index]) {
                return Err(
                    CampaignError::MissingObjective {
                        package_id: point.package_id(),
                        objective: objectives[index],
                    },
                );
            }
            index = index + 1;
        }
        Ok(())
    }

    /// Checks that every point carries every requested measurement.
    fn check_points(&self, objectives: &[CampaignObjective]) -> (result: Result<(), CampaignError>)
        requires
            self.wf(),
        ensures
            match first_lacking(self@.points, objectives@, 0) {
                Some(error) => result == Err::<(), CampaignError>(error),
                None => result is Ok && forall|k: int|
                    0 <= k < self.points@.len() ==> fully_measured(
                        (#[trigger] self.points@[k])@,
                        objectives@,
                    ),
            },
    {
        let mut index: usize = 0;
        while index < self.points.len()
            invariant
                self.wf(),
                index <= self.points@.len(),
                first_lacking(self@.points, objectives@, 0) == first_lacking(
                    self@.points,
                    objectives@,
                    index as nat,
                ),
                forall|k: int|
                    0 <= k < index ==> fully_measured(
                        (#[trigger] self.points@[k])@,
                        objectives@,
                    ),
            decreases self.points@.len() - index,
        {
            assert(self@.points[index as int] == self.points@[index as int]@);
            Self::check_measured(&self.points[index], objectives)?;
            index = index + 1;
        }
        Ok(())
    }

    /// Whether some point with another package dominates the point.
    fn is_dominated(&self, point: &CampaignPoint, objectives: &[CampaignObjective]) -> (result: bool)
        requires
            self.wf(),
            point.wf(),
            fully_measured(point@, objectives@),
            forall|k: int|
                0 <= k < self.points@.len() ==> fully_measured(
                    (#[trigger] self.points@[k])@,
                    objectives@,
                ),
        ensures
            result == dominated(self@.points, point@, objectives@),
    {
        let mut index: usize = 0;
        while index < self.points.len()
            invariant
                self.wf(),
                point.wf(),
                fully_measured(point@, objectives@),
                index <= self.points@.len(),
                forall|k: int|
                    0 <= k < self.points@.len() ==> fully_measured(
                        (#[trigger] self.points@[k])@,
                        objectives@,
                    ),
                forall|k: int|
                    0 <= k < index ==> !((#[trigger] self@.points[k]).package_bytes()
                        != point@.package_bytes() && dominates(
                        self@.points[k],
                        point@,
                        objectives@,
                    )),
            decreases self.points@.len() - index,
        {
            assert(self@.points[index as int] == self.points@[index as int]@);
            let other: &CampaignPoint = &self.points[index];
            if !other.package_id().same(&point.package_id()) && point_dominates(
                other,
                point,
                objectives,
            ) {
                return true;
            }
            index = index + 1;
        }
        false
    }

    /// Return non-dominated measured points in deterministic objective order.
    ///
    /// Storage, error, perplexity, and VRAM are minimized; task score and
    /// throughput are maximized. A point dominates another when it is no worse
    /// on every requested objective and strictly better on at least one. No
    /// interpolation or extrapolation is performed.
    pub fn pareto_frontier(&self, objectives: &[CampaignObjective]) -> (selected: Result<
        Vec<&CampaignPoint>,
        CampaignError,
    >)
        requires
            self.wf(),
        ensures
            match selection_error(self@.points, objectives@) {
                Some(error) => selected == Err::<Vec<&CampaignPoint>, CampaignError>(error),
                None => selected matches Ok(points) && ref_views(points@) == frontier(
                    self@.points,
                    objectives@,
                ),
            },
    {
        Self::check_objectives(objectives)?;
        self.check_points(objectives)?;
        let mut kept: Vec<&CampaignPoint> = Vec::new();
        let ghost mut views = Seq::<PointView>::empty();
        let mut index: usize = 0;
        assert(ref_views(kept@) =~= in_objective_order(views, objectives@));
        while index < self.points.len()
            invariant
                self.wf(),
                index <= self.points@.len(),
                forall|k: int|
                    0 <= k < self.points@.len() ==> fully_measured(
                        (#[trigger] self.points@[k])@,
                        objectives@,
                    ),
                forall|k: int|
                    0 <= k < kept@.len() ==> (#[trigger] kept@[k]).wf() && fully_measured(
                        kept@[k]@,
                        objectives@,
                    ),
                views == undominated(self@.points, objectives@, index as nat),
                ref_views(kept@) == in_objective_order(views, objectives@),
            decreases self.points@.len() - index,
        {
            let point: &CampaignPoint = &self.points[index];
            assert(self@.points[index as int] == point@);
            if !self.is_dominated(point, objectives) {
                insert_point(&mut kept, point, objectives);
                proof {
                    let more = views.push(point@);
                    assert(more.drop_last() =~= views);
                    views = more;
                }
            }
            index = index + 1;
        }
        Ok(kept)
    }

    /// The points ordered by package identity.
    fn ordered_points(&self) -> (ordered: Vec<&CampaignPoint>)
        requires
            self.wf(),
        ensures
            ref_views(ordered@) == by_package(self@.points),
            forall|k: int| 0 <= k < ordered@.len() ==> (#[trigger] ordered@[k]).wf(),
    {
        let none: [CampaignObjective; 0] = [];
        let ghost empty = Seq::<CampaignObjective>::empty();
        assert(none@ =~= empty);
        let mut ordered: Vec<&CampaignPoint> = Vec::new();
        let mut index: usize = 0;
        assert(ref_views(ordered@) =~= by_package(self@.points.take(0)));
        while index < self.points.len()
            invariant
                self.wf(),
                none@ == empty,
                empty == Seq::<CampaignObjective>::empty(),
                index <= self.points@.len(),
                forall|k: int|
                    0 <= k < ordered@.len() ==> (#[trigger] ordered@[k]).wf() && fully_measured(
                        ordered@[k]@,
                        none@,
                    ),
                ref_views(ordered@) == by_package(self@.points.take(index as int)),
            decreases self.points@.len() - index,
        {
            let point: &CampaignPoint = &self.points[index];
            assert(self@.points[index as int] == point@);
            insert_point(&mut ordered, point, none.as_slice());
            proof {
                let longer = self@.points.take(index + 1);
                assert(longer.drop_last() =~= self@.points.take(index as int));
                assert(longer.last() == point@);
            }
            index = index + 1;
        }
        assert(self@.points.take(index as int) =~= self@.points);
        ordered
    }

    /// Whether some point carries a physical report.
    fn has_reports(&self) -> (present: bool)
        requires
            self.wf(),
        ensures
            present == any_report(self@.points),
    {
        let mut index: usize = 0;
        while index < self.points.len()
            invariant
                index <= self.points@.len(),
                forall|k: int|
                    0 <= k < index ==> (
                    #[trigger] self@.points[k]).metrics.physical_size_report is None,
            decreases self.points@.len() - index,
        {
            assert(self@.points[index as int] == self.points@[index as int]@);
            if self.points[index].metrics.physical_size_report.is_some() {
                return true;
            }
            index = index + 1;
        }
        false
    }

    /// The canonical record up to the first point.
    fn front_bytes(&self, reports: bool) -> (bytes: Result<Vec<u8>, CampaignError>)
        requires
            self.wf(),
            reports == any_report(self@.points),
        ensures
            if self@.calibration.canonical().len() > u32::MAX {
                bytes == Err::<Vec<u8>, CampaignError>(CampaignError::RecordTooLarge("calibration"))
            } else if self@.evaluation.canonical().len() > u32::MAX {
                bytes == Err::<Vec<u8>, CampaignError>(CampaignError::RecordTooLarge("evaluation"))
            } else if self@.points.len() > u32::MAX {
                bytes == Err::<Vec<u8>, CampaignError>(CampaignError::RecordTooLarge("points"))
            } else {
                bytes matches Ok(made) && made@ == self@.front()
            },
    {
        reveal(LedgerView::front);
        let calibration: Vec<u8> = self.calibration.canonical_bytes();
        let evaluation: Vec<u8> = self.evaluation.canonical_bytes();
        if calibration.len() as u64 > u32::MAX as u64 {
            return Err(CampaignError::RecordTooLarge("calibration"));
        }
        if evaluation.len() as u64 > u32::MAX as u64 {
            return Err(CampaignError::RecordTooLarge("evaluation"));
        }
        if self.points.len() as u64 > u32::MAX as u64 {
            return Err(CampaignError::RecordTooLarge("points"));
        }
        let mut out: Vec<u8> = Vec::new();
        out.push(0x54);
        out.push(0x43);
        out.push(0x4d);
        out.push(0x50);
        out.push(
            if reports {
                4
            } else {
                2
            },
        );
        push_bytes(&mut out, self.source_model_id.as_bytes().as_slice());
        push_le(&mut out, calibration.len() as u64, 4);
        push_bytes(&mut out, calibration.as_slice());
        push_le(&mut out, evaluation.len() as u64, 4);
        push_bytes(&mut out, evaluation.as_slice());
        push_le(&mut out, self.points.len() as u64, 4);
        assert(out@ =~= self@.front());
        Ok(out)
    }

    /// Serialize a canonical campaign record independent of point insertion order.
    ///
    /// Points are ordered by exact [`PackageId`]. Calibration and evaluation
    /// records are embedded, making the artifact self-contained for audit.
    /// Ledgers without physical reports use the version-2 encoding. A ledger containing any
    /// physical report uses the version-4 encoding, in which every point carries an explicit
    /// absent/present marker and present reports bind exact trits, map bits, components, and
    /// optional peak measurements.
    pub fn canonical_bytes(&self) -> (bytes: Result<Vec<u8>, CampaignError>)
        requires
            self.wf(),
        ensures
            match self@.record_error() {
                Some(error) => bytes == Err::<Vec<u8>, CampaignError>(error),
                None => bytes matches Ok(made) && made@ == self@.canonical(),
            },
    {
        let reports: bool = self.has_reports();
        let mut out: Vec<u8> = self.front_bytes(reports)?;
        let ordered: Vec<&CampaignPoint> = self.ordered_points();
        let ghost head = self@.front();
        let ghost sorted = by_package(self@.points);
        let mut index: usize = 0;
        assert(out@ =~= head + point_records(sorted.take(0), reports));
        while index < ordered.len()
            invariant
                self.wf(),
                index <= ordered@.len(),
                ref_views(ordered@) == sorted,
                sorted == by_package(self@.points),
                self@.calibration.canonical().len() <= u32::MAX,
                self@.evaluation.canonical().len() <= u32::MAX,
                self@.points.len() <= u32::MAX,
                forall|k: int| 0 <= k < ordered@.len() ==> (#[trigger] ordered@[k]).wf(),
                out@ == head + point_records(sorted.take(index as int), reports),
                forall|k: int|
                    0 <= k < index ==> (#[trigger] sorted[k]).recipe.canonical().len() <= u32::MAX,
            decreases ordered@.len() - index,
        {
            let point: &CampaignPoint = ordered[index];
            assert(sorted[index as int] == point@);
            if !push_point(&mut out, point, reports) {
                proof {
                    lemma_large_recipe(self@, index as int);
                }
                return Err(CampaignError::RecordTooLarge("recipe"));
            }
            proof {
                let longer = sorted.take(index + 1);
                assert(longer.drop_last() =~= sorted.take(index as int));
                assert(longer.last() == point@);
                assert(out@ =~= head + point_records(longer, reports));
            }
            index = index + 1;
        }
        proof {
            assert(sorted.take(index as int) =~= sorted);
            lemma_small_recipes(self@);
            assert(out@ =~= self@.canonical());
        }
        Ok(out)
    }

    /// Exact content identity of the canonical campaign record.
    pub fn id(&self) -> (id: Result<CampaignId, CampaignError>)
        requires
            self.wf(),
        ensures
            match self@.record_error() {
                Some(error) => id == Err::<CampaignId, CampaignError>(error),
                None => id matches Ok(made) && made@ == self@.id(),
            },
    {
        let bytes: Vec<u8> = self.canonical_bytes()?;
        Ok(
            CampaignId::from_bytes(
                derive_digest("tritium campaign ledger id v1", bytes.as_slice()),
            ),
        )
    }
}

/// A point of the ordered ledger whose recipe is too large is a point of the ledger.
proof fn lemma_large_recipe(ledger: LedgerView, index: int)
    requires
        ledger.valid(),
        0 <= index < by_package(ledger.points).len(),
        by_package(ledger.points)[index].recipe.canonical().len() > u32::MAX,
    ensures
        exists|k: int|
            0 <= k < ledger.points.len() && (#[trigger] ledger.points[k]).recipe.canonical().len()
                > u32::MAX,
{
    broadcast use vstd::seq_lib::group_to_multiset_ensures;

    objective_order_sorts(ledger.points, Seq::empty());
    let sorted = by_package(ledger.points);
    assert(sorted.to_multiset().contains(sorted[index]));
    assert(ledger.points.contains(sorted[index]));
    let k = choose|k: int| 0 <= k < ledger.points.len() && ledger.points[k] == sorted[index];
    assert(ledger.points[k].recipe.canonical().len() > u32::MAX);
}

/// Where the recipes of the ordered ledger fit, those of the ledger do.
proof fn lemma_small_recipes(ledger: LedgerView)
    requires
        ledger.valid(),
        forall|k: int|
            0 <= k < by_package(ledger.points).len() ==> (#[trigger] by_package(
                ledger.points,
            )[k]).recipe.canonical().len() <= u32::MAX,
    ensures
        forall|k: int|
            0 <= k < ledger.points.len() ==> (#[trigger] ledger.points[k]).recipe.canonical().len()
                <= u32::MAX,
{
    broadcast use vstd::seq_lib::group_to_multiset_ensures;

    objective_order_sorts(ledger.points, Seq::empty());
    let sorted = by_package(ledger.points);
    assert forall|k: int| 0 <= k < ledger.points.len() implies (
    #[trigger] ledger.points[k]).recipe.canonical().len() <= u32::MAX by {
        assert(ledger.points.to_multiset().contains(ledger.points[k]));
        assert(sorted.contains(ledger.points[k]));
        let m = choose|m: int| 0 <= m < sorted.len() && sorted[m] == ledger.points[k];
        assert(sorted[m].recipe.canonical().len() <= u32::MAX);
    }
}

/// Appends a marked optional number.
pub fn push_optional(out: &mut Vec<u8>, value: Option<u64>)
    ensures
        final(out)@ == old(out)@ + optional_field(value),
{
    let ghost before = out@;
    match value {
        None => {
            out.push(0);
        },
        Some(held) => {
            out.push(1);
            push_le(out, held, 8);
        },
    }
    assert(out@ =~= before + optional_field(value));
}

/// Appends numbers of eight bytes.
fn push_numbers(out: &mut Vec<u8>, values: &[u64])
    ensures
        final(out)@ == old(out)@ + number_fields(values@),
{
    let mut index: usize = 0;
    assert(out@ =~= old(out)@ + number_fields(values@.take(0)));
    while index < values.len()
        invariant
            index <= values@.len(),
            out@ == old(out)@ + number_fields(values@.take(index as int)),
        decreases values@.len() - index,
    {
        push_le(out, values[index], 8);
        proof {
            let longer = values@.take(index + 1);
            assert(longer.drop_last() =~= values@.take(index as int));
            assert(out@ =~= old(out)@ + number_fields(longer));
        }
        index = index + 1;
    }
    assert(values@.take(index as int) =~= values@);
}

/// Appends a marked optional physical report.
fn push_optional_report(out: &mut Vec<u8>, metrics: &CampaignMetrics)
    requires
        metrics.wf(),
    ensures
        final(out)@ == old(out)@ + optional_report(metrics@.physical_size_report),
{
    let ghost before = out@;
    match metrics.physical_size_report() {
        None => {
            out.push(0);
            assert(out@ =~= before + seq![0u8]);
        },
        Some(report) => {
            let serialized = report.serialized();
            let resident = report.resident();
            let counters: [u64; 19] = [
                report.core_parameter_count(),
                report.model_parameter_count(),
                report.logical_core_trits().get(),
                serialized.core_payload_bytes,
                serialized.core_scale_bytes,
                serialized.allocation_map_bytes,
                serialized.allocation_map_bits,
                serialized.allocation_map_embedded_bits,
                serialized.header_bytes,
                serialized.transform_bytes,
                serialized.preserved_bytes,
                serialized.alignment_bytes,
                resident.core_bytes,
                resident.map_bytes,
                resident.map_bits,
                resident.map_embedded_bits,
                resident.descriptor_bytes,
                resident.preserved_bytes,
                resident.shadow_bytes,
            ];
            assert(counters@ =~= report_counters(report@));
            out.push(1);
            push_numbers(out, counters.as_slice());
            push_optional(out, resident.peak_workspace_bytes);
            assert(out@ =~= before + optional_report(metrics@.physical_size_report));
        },
    }
}

/// Appends the identities and the recipe; `false` when the recipe does not fit a length field.
fn push_point_head(out: &mut Vec<u8>, point: &CampaignPoint) -> (fits: bool)
    requires
        point.wf(),
    ensures
        fits == (point@.recipe.canonical().len() <= u32::MAX),
        fits ==> final(out)@ == old(out)@ + point_head(point@),
{
    reveal(point_head);
    let ghost before = out@;
    proof {
        point.wf_valid();
    }
    let recipe: Vec<u8> = point.recipe().canonical_bytes();
    if recipe.len() as u64 > u32::MAX as u64 {
        return false;
    }
    push_bytes(out, point.model_id().as_bytes().as_slice());
    push_bytes(out, point.package_id().as_bytes().as_slice());
    push_le(out, point.physical_bytes(), 8);
    push_le(out, recipe.len() as u64, 4);
    push_bytes(out, recipe.as_slice());
    assert(out@ =~= before + point_head(point@));
    true
}

/// Appends the measurements of a point.
fn push_measurements(out: &mut Vec<u8>, metrics: &CampaignMetrics)
    requires
        metrics.wf(),
    ensures
        final(out)@ == old(out)@ + point_measurements(metrics@),
{
    reveal(point_measurements);
    let ghost before = out@;
    push_le(out, metrics.logical_bpw(), 8);
    push_optional(out, metrics.perplexity());
    push_optional(out, metrics.reconstruction_mse());
    push_optional(out, metrics.task_score());
    push_optional(out, metrics.tokens_per_second());
    push_optional(out, metrics.peak_vram_bytes());
    assert(out@ =~= before + point_measurements(metrics@));
}

/// Appends one point record; `false` when its recipe does not fit a length field.
fn push_point(out: &mut Vec<u8>, point: &CampaignPoint, with_reports: bool) -> (fits: bool)
    requires
        point.wf(),
    ensures
        fits == (point@.recipe.canonical().len() <= u32::MAX),
        fits ==> final(out)@ == old(out)@ + point_record(point@, with_reports),
{
    let ghost before = out@;
    if !push_point_head(out, point) {
        return false;
    }
    let metrics: &CampaignMetrics = point.metrics();
    push_measurements(out, metrics);
    if with_reports {
        push_optional_report(out, metrics);
    }
    assert(out@ =~= before + point_record(point@, with_reports));
    true
}

} // verus!
