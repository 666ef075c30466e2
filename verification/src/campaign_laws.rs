//! What a campaign's frontier and its physical reports promise, stated on the measurements.

use crate::campaign::{
    comes_first, dominated, dominates, fully_measured, frontier,
    frontier_holds_the_undominated_points, lag, measured, sortable, PointView,
};
use crate::campaign_error::CampaignObjective;
use crate::campaign_package::{
    parameters, resident_of, serialized_of, tensor_trits, tile_trits, PackageLedger, TensorFacts,
    TileFacts,
};
use crate::campaign_size::{
    ReportView, ResidentSizeComponents, RuntimeLedger, SerializedSizeComponents,
};
use crate::float_bits::{f64_equal, f64_less};
use vstd::prelude::*;

verus! {

/// Whether one point's measurement is strictly better than another's: fewer bytes, fewer trits
/// per weight, a lower perplexity or error, a higher score or throughput.
pub open spec fn better(left: PointView, right: PointView, objective: CampaignObjective) -> bool {
    match objective {
        CampaignObjective::PhysicalBytes => left.package.length() < right.package.length(),
        CampaignObjective::LogicalBpw => {
            let first = left.metrics.physical_size_report->0;
            let second = right.metrics.physical_size_report->0;
            first.logical_core_trits.count() * second.core_parameter_count
                < second.logical_core_trits.count() * first.core_parameter_count
        },
        CampaignObjective::Perplexity => f64_less(
            left.metrics.perplexity->0,
            right.metrics.perplexity->0,
        ),
        CampaignObjective::ReconstructionMse => f64_less(
            left.metrics.reconstruction_mse->0,
            right.metrics.reconstruction_mse->0,
        ),
        CampaignObjective::TaskScore => f64_less(
            right.metrics.task_score->0,
            left.metrics.task_score->0,
        ),
        CampaignObjective::TokensPerSecond => f64_less(
            right.metrics.tokens_per_second->0,
            left.metrics.tokens_per_second->0,
        ),
        CampaignObjective::PeakVramBytes => left.metrics.peak_vram_bytes->0
            < right.metrics.peak_vram_bytes->0,
    }
}

/// Whether two points' measurements are equal.
pub open spec fn tied(left: PointView, right: PointView, objective: CampaignObjective) -> bool {
    match objective {
        CampaignObjective::PhysicalBytes => left.package.length() == right.package.length(),
        CampaignObjective::LogicalBpw => {
            let first = left.metrics.physical_size_report->0;
            let second = right.metrics.physical_size_report->0;
            first.logical_core_trits.count() * second.core_parameter_count
                == second.logical_core_trits.count() * first.core_parameter_count
        },
        CampaignObjective::Perplexity => f64_equal(
            left.metrics.perplexity->0,
            right.metrics.perplexity->0,
        ),
        CampaignObjective::ReconstructionMse => f64_equal(
            left.metrics.reconstruction_mse->0,
            right.metrics.reconstruction_mse->0,
        ),
        CampaignObjective::TaskScore => f64_equal(
            left.metrics.task_score->0,
            right.metrics.task_score->0,
        ),
        CampaignObjective::TokensPerSecond => f64_equal(
            left.metrics.tokens_per_second->0,
            right.metrics.tokens_per_second->0,
        ),
        CampaignObjective::PeakVramBytes => left.metrics.peak_vram_bytes->0
            == right.metrics.peak_vram_bytes->0,
    }
}

/// Whether one point is no worse than another on every objective and better on at least one.
pub open spec fn beats(
    left: PointView,
    right: PointView,
    objectives: Seq<CampaignObjective>,
) -> bool {
    &&& forall|k: int|
        0 <= k < objectives.len() ==> better(left, right, #[trigger] objectives[k]) || tied(
            left,
            right,
            objectives[k],
        )
    &&& exists|k: int| 0 <= k < objectives.len() && better(left, right, #[trigger] objectives[k])
}

/// A point is ahead, level or behind on an objective exactly as its measurement is better, equal
/// or worse.
pub proof fn standings_follow_the_measurements(
    left: PointView,
    right: PointView,
    objective: CampaignObjective,
)
    requires
        left.metrics.valid(),
        right.metrics.valid(),
        measured(left, objective),
        measured(right, objective),
    ensures
        lag(left, right, objective) < 0 <==> better(left, right, objective),
        lag(left, right, objective) == 0 <==> tied(left, right, objective),
        lag(left, right, objective) > 0 <==> better(right, left, objective),
{
}

proof fn lemma_beats(left: PointView, right: PointView, objectives: Seq<CampaignObjective>)
    requires
        left.metrics.valid(),
        right.metrics.valid(),
        fully_measured(left, objectives),
        fully_measured(right, objectives),
    ensures
        dominates(left, right, objectives) <==> beats(left, right, objectives),
{
    assert forall|k: int| 0 <= k < objectives.len() implies (lag(
        left,
        right,
        #[trigger] objectives[k],
    ) < 0 <==> better(left, right, objectives[k])) && (lag(left, right, objectives[k]) == 0
        <==> tied(left, right, objectives[k])) by {
        assert(measured(left, objectives[k]));
        assert(measured(right, objectives[k]));
        standings_follow_the_measurements(left, right, objectives[k]);
    }
    if dominates(left, right, objectives) {
        let k = choose|k: int|
            0 <= k < objectives.len() && lag(left, right, #[trigger] objectives[k]) < 0;
        assert(better(left, right, objectives[k]));
    }
    if beats(left, right, objectives) {
        let k = choose|k: int|
            0 <= k < objectives.len() && better(left, right, #[trigger] objectives[k]);
        assert(lag(left, right, objectives[k]) < 0);
    }
}

/// A point is on the frontier exactly when no other point is at least as good on every objective
/// and better on one, also where they tie on all objectives but one.
pub proof fn the_frontier_holds_what_nothing_beats(
    points: Seq<PointView>,
    objectives: Seq<CampaignObjective>,
    at: int,
)
    requires
        sortable(points, objectives),
        forall|k: int| 0 <= k < points.len() ==> (#[trigger] points[k]).metrics.valid(),
        0 <= at < points.len(),
    ensures
        frontier(points, objectives).contains(points[at]) <==> forall|k: int|
            0 <= k < points.len() && k != at ==> !beats(#[trigger] points[k], points[at], objectives),
{
    let point = points[at];
    frontier_holds_the_undominated_points(points, objectives, point);
    assert(points.contains(point));
    assert forall|k: int| 0 <= k < points.len() && k != at implies (dominates(
        #[trigger] points[k],
        point,
        objectives,
    ) <==> beats(points[k], point, objectives)) && points[k].package_bytes()
        != point.package_bytes() by {
        lemma_beats(points[k], point, objectives);
        if k < at {
            assert(points[k].package_bytes() != points[at].package_bytes());
        } else {
            assert(points[at].package_bytes() != points[k].package_bytes());
        }
    }
    if dominated(points, point, objectives) {
        let k = choose|k: int|
            0 <= k < points.len() && (#[trigger] points[k]).package_bytes() != point.package_bytes()
                && dominates(points[k], point, objectives);
        assert(beats(points[k], point, objectives));
    }
    if exists|k: int|
        0 <= k < points.len() && k != at && beats(#[trigger] points[k], point, objectives) {
        let k = choose|k: int|
            0 <= k < points.len() && k != at && beats(#[trigger] points[k], point, objectives);
        assert(dominates(points[k], point, objectives));
    }
}

/// Of two points on the frontier the earlier one is no worse on the first objective, and where
/// they tie there, not on the second either, as long as they tie.
pub proof fn the_frontier_runs_from_best_to_worst(
    points: Seq<PointView>,
    objectives: Seq<CampaignObjective>,
    earlier: int,
    later: int,
    objective: int,
)
    requires
        sortable(points, objectives),
        forall|k: int| 0 <= k < points.len() ==> (#[trigger] points[k]).metrics.valid(),
        0 <= earlier < later < frontier(points, objectives).len(),
        0 <= objective < objectives.len(),
        forall|k: int|
            0 <= k < objective ==> tied(
                frontier(points, objectives)[earlier],
                frontier(points, objectives)[later],
                #[trigger] objectives[k],
            ),
    ensures
        ({
            let first = frontier(points, objectives)[earlier];
            let second = frontier(points, objectives)[later];
            better(first, second, objectives[objective]) || tied(
                first,
                second,
                objectives[objective],
            )
        }),
{
    let kept = frontier(points, objectives);
    let first = kept[earlier];
    let second = kept[later];
    frontier_holds_the_undominated_points(points, objectives, first);
    frontier_holds_the_undominated_points(points, objectives, second);
    assert(kept.contains(first) && kept.contains(second));
    let i = choose|i: int| 0 <= i < points.len() && points[i] == first;
    let j = choose|j: int| 0 <= j < points.len() && points[j] == second;
    assert(points[i].metrics.valid() && points[j].metrics.valid());
    assert(comes_first(first, second, objectives, 0));
    lemma_first_decides(first, second, objectives, 0, objective);
}

proof fn lemma_first_decides(
    first: PointView,
    second: PointView,
    objectives: Seq<CampaignObjective>,
    from: nat,
    objective: int,
)
    requires
        first.metrics.valid(),
        second.metrics.valid(),
        fully_measured(first, objectives),
        fully_measured(second, objectives),
        comes_first(first, second, objectives, from),
        from <= objective < objectives.len(),
        forall|k: int| from <= k < objective ==> tied(first, second, #[trigger] objectives[k]),
    ensures
        better(first, second, objectives[objective]) || tied(first, second, objectives[objective]),
    decreases objective - from,
{
    assert(measured(first, objectives[from as int]) && measured(second, objectives[from as int]));
    standings_follow_the_measurements(first, second, objectives[from as int]);
    if from < objective {
        assert(tied(first, second, objectives[from as int]));
        lemma_first_decides(first, second, objectives, from + 1, objective);
    }
}

/// The resident bytes of a package are its payload, scales, allocation map, rank prefix and
/// dense shadow; with a measured workspace its peak is that much more. The serialized bytes are
/// its payload, scales, map, headers, transform and padding.
pub proof fn package_bytes_are_those_of_its_ledgers(
    ledger: PackageLedger,
    runtime: RuntimeLedger,
    workspace: Option<u64>,
)
    requires
        runtime.payload_bytes + runtime.scale_bytes <= u64::MAX,
    ensures
        ({
            let held = runtime.payload_bytes + runtime.scale_bytes + runtime.allocation_map_bytes
                + runtime.rank_prefix_bytes + runtime.dense_shadow_bytes;
            let resident = resident_of(runtime, workspace);
            &&& resident.steady() == held
            &&& resident.core_sum() == held
            &&& runtime.steady_resident_bytes == held ==> resident.steady()
                == runtime.steady_resident_bytes
            &&& resident.peak() == match workspace {
                Some(extra) => Some((held + extra) as nat),
                None => None,
            }
            &&& resident.map_bytes == runtime.allocation_map_bytes
            &&& resident.map_bits == runtime.allocation_map_bits
            &&& resident.map_embedded_bits == runtime.allocation_map_embedded_bits
        }),
        ({
            let written = ledger.payload_bytes + ledger.scales_bytes + ledger.maps_bytes
                + ledger.headers_bytes + ledger.transform_bytes + ledger.padding_bytes;
            let serialized = serialized_of(ledger);
            &&& serialized.total() == written
            &&& serialized.core_sum() == written
            &&& serialized.allocation_map_bytes == ledger.maps_bytes
            &&& serialized.allocation_map_bits == ledger.allocation_map_bits
            &&& serialized.allocation_map_embedded_bits == ledger.allocation_map_embedded_bits
        }),
{
}

/// An accepted report accounts for every byte of its measured package, and for every bit of its
/// maps; its core is not larger than its model.
pub proof fn accepted_reports_account_for_every_byte(report: ReportView)
    requires
        report.valid(),
    ensures
        report.package.length() == report.serialized.core_payload_bytes
            + report.serialized.core_scale_bytes + report.serialized.allocation_map_bytes
            + report.serialized.header_bytes + report.serialized.transform_bytes
            + report.serialized.preserved_bytes + report.serialized.alignment_bytes,
        report.serialized.allocation_map_bits == 8 * report.serialized.allocation_map_bytes
            + report.serialized.allocation_map_embedded_bits,
        report.resident.map_bits == 8 * report.resident.map_bytes
            + report.resident.map_embedded_bits,
        0 < report.core_parameter_count <= report.model_parameter_count,
        report.serialized.core_sum() + report.serialized.preserved_bytes
            == report.package.length(),
        report.resident.steady() - report.resident.core_sum() == report.resident.preserved_bytes,
        report.peak_bytes() is Some <==> report.resident.peak_workspace_bytes is Some,
        report.peak_bytes() matches Some(peak) ==> peak - report.resident.steady()
            == report.resident.peak_workspace_bytes->0,
{
}

/// A byte more in any resident component is a byte more in the steady size.
pub proof fn every_resident_component_counts(
    resident: ResidentSizeComponents,
    other: ResidentSizeComponents,
)
    ensures
        other.steady() - resident.steady() == (other.core_bytes - resident.core_bytes) + (
        other.map_bytes - resident.map_bytes) + (other.descriptor_bytes
            - resident.descriptor_bytes) + (other.preserved_bytes - resident.preserved_bytes) + (
        other.shadow_bytes - resident.shadow_bytes),
        other.core_sum() - resident.core_sum() == (other.core_bytes - resident.core_bytes) + (
        other.map_bytes - resident.map_bytes) + (other.descriptor_bytes
            - resident.descriptor_bytes) + (other.shadow_bytes - resident.shadow_bytes),
{
}

/// A byte more in any serialized component is a byte more in the package.
pub proof fn every_serialized_component_counts(
    serialized: SerializedSizeComponents,
    other: SerializedSizeComponents,
)
    ensures
        other.total() - serialized.total() == (other.core_payload_bytes
            - serialized.core_payload_bytes) + (other.core_scale_bytes
            - serialized.core_scale_bytes) + (other.allocation_map_bytes
            - serialized.allocation_map_bytes) + (other.header_bytes - serialized.header_bytes) + (
        other.transform_bytes - serialized.transform_bytes) + (other.preserved_bytes
            - serialized.preserved_bytes) + (other.alignment_bytes - serialized.alignment_bytes),
        other.total() - other.core_sum() == other.preserved_bytes,
{
}

/// Coefficients of the first tiles of a tensor.
pub open spec fn tile_coefficients(tiles: Seq<TileFacts>, count: nat) -> nat
    decreases count,
{
    if count == 0 {
        0
    } else {
        tile_coefficients(tiles, (count - 1) as nat) + tiles[count - 1].logical_len as nat
    }
}

/// Tiles that all have the same number of planes hold that many symbols per coefficient.
proof fn lemma_uniform_tiles(tiles: Seq<TileFacts>, count: nat, planes: nat)
    requires
        count <= tiles.len(),
        forall|t: int| 0 <= t < tiles.len() ==> (#[trigger] tiles[t]).planes as nat == planes,
    ensures
        tile_trits(tiles, count) == planes * tile_coefficients(tiles, count),
    decreases count,
{
    if count > 0 {
        lemma_uniform_tiles(tiles, (count - 1) as nat, planes);
        let before = tile_coefficients(tiles, (count - 1) as nat);
        let last = tiles[count - 1].logical_len as nat;
        assert(tiles[count - 1].planes as nat == planes);
        assert(planes * (before + last) == planes * before + last * planes) by (nonlinear_arith);
    } else {
        assert(planes * 0 == 0) by (nonlinear_arith);
    }
}

/// A package whose tiles cover its tensors and all have the same number of planes holds that
/// many symbols per coefficient.
pub proof fn uniform_packages_have_uniform_rates(
    tensors: Seq<TensorFacts>,
    count: nat,
    planes: nat,
)
    requires
        count <= tensors.len(),
        forall|k: int|
            0 <= k < tensors.len() ==> tile_coefficients(
                (#[trigger] tensors[k]).tiles@,
                tensors[k].tiles@.len(),
            ) == tensors[k].logical_coefficients,
        forall|k: int, t: int|
            0 <= k < tensors.len() && 0 <= t < tensors[k].tiles@.len() ==> (
            #[trigger] tensors[k].tiles@[t]).planes as nat == planes,
    ensures
        tensor_trits(tensors, count) == planes * parameters(tensors, count),
    decreases count,
{
    if count > 0 {
        uniform_packages_have_uniform_rates(tensors, (count - 1) as nat, planes);
        let last = tensors[count - 1];
        lemma_uniform_tiles(last.tiles@, last.tiles@.len(), planes);
        let before = parameters(tensors, (count - 1) as nat);
        let size = last.logical_coefficients as nat;
        assert(planes * (before + size) == planes * before + planes * size) by (nonlinear_arith);
    } else {
        assert(planes * 0 == 0) by (nonlinear_arith);
    }
}

/// A plane more in one tile is as many symbols more as the tile has coefficients.
pub proof fn a_plane_costs_its_tile(tiles: Seq<TileFacts>, at: int, count: nat)
    requires
        0 <= at < count <= tiles.len(),
        tiles[at].planes < u64::MAX,
    ensures
        ({
            let raised = TileFacts { planes: (tiles[at].planes + 1) as u64, ..tiles[at] };
            tile_trits(tiles.update(at, raised), count) == tile_trits(tiles, count)
                + tiles[at].logical_len
        }),
    decreases count,
{
    let raised = TileFacts { planes: (tiles[at].planes + 1) as u64, ..tiles[at] };
    let changed = tiles.update(at, raised);
    if at < count - 1 {
        a_plane_costs_its_tile(tiles, at, (count - 1) as nat);
        assert(changed[count - 1] == tiles[count - 1]);
    } else {
        lemma_same_tiles(tiles, changed, (count - 1) as nat);
        let length = tiles[at].logical_len as nat;
        let planes = tiles[at].planes as nat;
        assert(length * (planes + 1) == length * planes + length) by (nonlinear_arith);
    }
}

proof fn lemma_same_tiles(left: Seq<TileFacts>, right: Seq<TileFacts>, count: nat)
    requires
        count <= left.len(),
        count <= right.len(),
        forall|t: int| 0 <= t < count ==> left[t] == right[t],
    ensures
        tile_trits(left, count) == tile_trits(right, count),
    decreases count,
{
    if count > 0 {
        lemma_same_tiles(left, right, (count - 1) as nat);
    }
}

} // verus!
