//! What campaign records bind, and which records, points and selections are accepted.

use crate::campaign::{
    any_report, by_package, comes_first, first_lacking, frontier,
    frontier_holds_the_undominated_points, fully_measured, is_sorted, lacking, measured,
    number_fields, objective_order_sorts, optional_field, optional_report, point_head,
    point_measurements, point_record, point_records, point_valid, repeated, report_counters,
    selection_error, sortable, LedgerView, MetricsView, PointView,
};
use crate::campaign_error::{CampaignError, CampaignObjective};
use crate::campaign_laws::{standings_follow_the_measurements, tied};
use crate::campaign_package::{receipt_error, receipts_error, TensorFacts};
use crate::campaign_provenance::{CalibrationView, EvaluationView, RecipeView};
use crate::campaign_size::{first_difference, ledger_components, ReportView, RuntimeLedger};
use crate::float_bits::{f64_finite, f64_less, F64_SIGN};
use crate::plane_model::lex_greater;
use crate::text::bytes_before;
use crate::wire::{le, lemma_le_limits, lemma_same_front, lemma_same_number};
use crate::wire_laws::the_first_difference_decides;
use vstd::prelude::*;
use vstd::utf8::encode_utf8;

verus! {

/// Whether two points record the same conversion of the same package with the same measurements.
pub open spec fn alike(left: PointView, right: PointView) -> bool {
    &&& left.model_id == right.model_id
    &&& left.package_bytes() == right.package_bytes()
    &&& left.package.length() == right.package.length()
    &&& left.recipe == right.recipe
    &&& left.metrics.logical_bpw == right.metrics.logical_bpw
    &&& left.metrics.perplexity == right.metrics.perplexity
    &&& left.metrics.reconstruction_mse == right.metrics.reconstruction_mse
    &&& left.metrics.task_score == right.metrics.task_score
    &&& left.metrics.tokens_per_second == right.metrics.tokens_per_second
    &&& left.metrics.peak_vram_bytes == right.metrics.peak_vram_bytes
    &&& match (left.metrics.physical_size_report, right.metrics.physical_size_report) {
        (None, None) => true,
        (Some(first), Some(second)) => {
            &&& first.core_parameter_count == second.core_parameter_count
            &&& first.model_parameter_count == second.model_parameter_count
            &&& first.logical_core_trits.count() == second.logical_core_trits.count()
            &&& first.serialized == second.serialized
            &&& first.resident == second.resident
        },
        _ => false,
    }
}

proof fn lemma_same_option(
    left: Option<u64>,
    right: Option<u64>,
    after_left: Seq<u8>,
    after_right: Seq<u8>,
)
    requires
        optional_field(left) + after_left == optional_field(right) + after_right,
    ensures
        left == right,
        after_left == after_right,
{
    lemma_le_limits();
    let a = optional_field(left) + after_left;
    let b = optional_field(right) + after_right;
    assert(a[0] == optional_field(left)[0] && b[0] == optional_field(right)[0]);
    match (left, right) {
        (Some(x), Some(y)) => {
            let first = le(x as nat, 8) + after_left;
            let second = le(y as nat, 8) + after_right;
            assert(a =~= seq![1u8] + first);
            assert(b =~= seq![1u8] + second);
            lemma_same_front(seq![1u8], seq![1u8], first, second);
            lemma_same_number(x as nat, y as nat, 8, after_left, after_right);
        },
        (None, None) => {
            lemma_same_front(seq![0u8], seq![0u8], after_left, after_right);
        },
        _ => {},
    }
}

proof fn lemma_same_numbers(
    left: Seq<u64>,
    right: Seq<u64>,
    after_left: Seq<u8>,
    after_right: Seq<u8>,
)
    requires
        left.len() == right.len(),
        number_fields(left) + after_left == number_fields(right) + after_right,
    ensures
        left == right,
        after_left == after_right,
    decreases left.len(),
{
    lemma_le_limits();
    if left.len() == 0 {
        assert(number_fields(left) + after_left =~= after_left);
        assert(number_fields(right) + after_right =~= after_right);
        assert(left =~= right);
    } else {
        let a = le(left.last() as nat, 8) + after_left;
        let b = le(right.last() as nat, 8) + after_right;
        assert(number_fields(left) + after_left =~= number_fields(left.drop_last()) + a);
        assert(number_fields(right) + after_right =~= number_fields(right.drop_last()) + b);
        lemma_same_numbers(left.drop_last(), right.drop_last(), a, b);
        lemma_same_number(left.last() as nat, right.last() as nat, 8, after_left, after_right);
        assert(left =~= left.drop_last().push(left.last()));
        assert(right =~= right.drop_last().push(right.last()));
    }
}

/// Whether two optional reports hold the same counters.
spec fn reports_alike(left: Option<ReportView>, right: Option<ReportView>) -> bool {
    match (left, right) {
        (None, None) => true,
        (Some(first), Some(second)) => report_counters(first) == report_counters(second)
            && first.resident.peak_workspace_bytes == second.resident.peak_workspace_bytes,
        _ => false,
    }
}

proof fn lemma_same_report(
    left: Option<ReportView>,
    right: Option<ReportView>,
    after_left: Seq<u8>,
    after_right: Seq<u8>,
)
    requires
        optional_report(left) + after_left == optional_report(right) + after_right,
    ensures
        reports_alike(left, right),
        after_left == after_right,
{
    let a = optional_report(left) + after_left;
    let b = optional_report(right) + after_right;
    assert(a[0] == optional_report(left)[0] && b[0] == optional_report(right)[0]);
    match (left, right) {
        (Some(x), Some(y)) => {
            let first = optional_field(x.resident.peak_workspace_bytes) + after_left;
            let second = optional_field(y.resident.peak_workspace_bytes) + after_right;
            let counted = number_fields(report_counters(x)) + first;
            let other = number_fields(report_counters(y)) + second;
            assert(a =~= seq![1u8] + counted);
            assert(b =~= seq![1u8] + other);
            lemma_same_front(seq![1u8], seq![1u8], counted, other);
            lemma_same_numbers(report_counters(x), report_counters(y), first, second);
            lemma_same_option(
                x.resident.peak_workspace_bytes,
                y.resident.peak_workspace_bytes,
                after_left,
                after_right,
            );
        },
        (None, None) => {
            lemma_same_front(seq![0u8], seq![0u8], after_left, after_right);
        },
        _ => {},
    }
}

proof fn lemma_same_measurements(
    left: MetricsView,
    right: MetricsView,
    after_left: Seq<u8>,
    after_right: Seq<u8>,
)
    requires
        point_measurements(left) + after_left == point_measurements(right) + after_right,
    ensures
        left.logical_bpw == right.logical_bpw,
        left.perplexity == right.perplexity,
        left.reconstruction_mse == right.reconstruction_mse,
        left.task_score == right.task_score,
        left.tokens_per_second == right.tokens_per_second,
        left.peak_vram_bytes == right.peak_vram_bytes,
        after_left == after_right,
{
    reveal(point_measurements);
    lemma_le_limits();
    let a5 = optional_field(left.peak_vram_bytes) + after_left;
    let b5 = optional_field(right.peak_vram_bytes) + after_right;
    let a4 = optional_field(left.tokens_per_second) + a5;
    let b4 = optional_field(right.tokens_per_second) + b5;
    let a3 = optional_field(left.task_score) + a4;
    let b3 = optional_field(right.task_score) + b4;
    let a2 = optional_field(left.reconstruction_mse) + a3;
    let b2 = optional_field(right.reconstruction_mse) + b3;
    let a1 = optional_field(left.perplexity) + a2;
    let b1 = optional_field(right.perplexity) + b2;
    assert(point_measurements(left) + after_left =~= le(left.logical_bpw as nat, 8) + a1);
    assert(point_measurements(right) + after_right =~= le(right.logical_bpw as nat, 8) + b1);
    lemma_same_number(left.logical_bpw as nat, right.logical_bpw as nat, 8, a1, b1);
    lemma_same_option(left.perplexity, right.perplexity, a2, b2);
    lemma_same_option(left.reconstruction_mse, right.reconstruction_mse, a3, b3);
    lemma_same_option(left.task_score, right.task_score, a4, b4);
    lemma_same_option(left.tokens_per_second, right.tokens_per_second, a5, b5);
    lemma_same_option(left.peak_vram_bytes, right.peak_vram_bytes, after_left, after_right);
}

proof fn lemma_same_head(
    left: PointView,
    right: PointView,
    after_left: Seq<u8>,
    after_right: Seq<u8>,
)
    requires
        point_valid(left),
        point_valid(right),
        left.recipe.canonical().len() <= u32::MAX,
        right.recipe.canonical().len() <= u32::MAX,
        point_head(left) + after_left == point_head(right) + after_right,
    ensures
        left.model_id == right.model_id,
        left.package_bytes() == right.package_bytes(),
        left.package.length() == right.package.length(),
        left.recipe == right.recipe,
        after_left == after_right,
{
    reveal(point_head);
    lemma_le_limits();
    let a = left.recipe.canonical();
    let b = right.recipe.canonical();
    let a4 = a + after_left;
    let b4 = b + after_right;
    let a3 = le(a.len(), 4) + a4;
    let b3 = le(b.len(), 4) + b4;
    let a2 = le(left.package.length() as nat, 8) + a3;
    let b2 = le(right.package.length() as nat, 8) + b3;
    let a1 = left.package_bytes() + a2;
    let b1 = right.package_bytes() + b2;
    assert(point_head(left) + after_left =~= left.model_id + a1);
    assert(point_head(right) + after_right =~= right.model_id + b1);
    lemma_same_front(left.model_id, right.model_id, a1, b1);
    lemma_same_front(left.package_bytes(), right.package_bytes(), a2, b2);
    lemma_same_number(left.package.length() as nat, right.package.length() as nat, 8, a3, b3);
    lemma_same_number(a.len(), b.len(), 4, a4, b4);
    lemma_same_front(a, b, after_left, after_right);
    left.recipe.canonical_binds_every_field(right.recipe);
}

proof fn lemma_same_point(
    left: PointView,
    right: PointView,
    with_reports: bool,
    after_left: Seq<u8>,
    after_right: Seq<u8>,
)
    requires
        point_valid(left),
        point_valid(right),
        left.recipe.canonical().len() <= u32::MAX,
        right.recipe.canonical().len() <= u32::MAX,
        !with_reports ==> left.metrics.physical_size_report is None
            && right.metrics.physical_size_report is None,
        point_record(left, with_reports) + after_left == point_record(right, with_reports)
            + after_right,
    ensures
        alike(left, right),
        after_left == after_right,
{
    let a2 = if with_reports {
        optional_report(left.metrics.physical_size_report) + after_left
    } else {
        after_left
    };
    let b2 = if with_reports {
        optional_report(right.metrics.physical_size_report) + after_right
    } else {
        after_right
    };
    let a1 = point_measurements(left.metrics) + a2;
    let b1 = point_measurements(right.metrics) + b2;
    assert(point_record(left, with_reports) + after_left =~= point_head(left) + a1);
    assert(point_record(right, with_reports) + after_right =~= point_head(right) + b1);
    lemma_same_head(left, right, a1, b1);
    lemma_same_measurements(left.metrics, right.metrics, a2, b2);
    if with_reports {
        lemma_same_report(
            left.metrics.physical_size_report,
            right.metrics.physical_size_report,
            after_left,
            after_right,
        );
        match (left.metrics.physical_size_report, right.metrics.physical_size_report) {
            (Some(first), Some(second)) => {
                let x = report_counters(first);
                let y = report_counters(second);
                assert(x[0] == y[0] && x[1] == y[1] && x[2] == y[2]);
                assert(x[3] == y[3] && x[4] == y[4] && x[5] == y[5] && x[6] == y[6] && x[7] == y[7]
                    && x[8] == y[8] && x[9] == y[9] && x[10] == y[10] && x[11] == y[11]);
                assert(x[12] == y[12] && x[13] == y[13] && x[14] == y[14] && x[15] == y[15]
                    && x[16] == y[16] && x[17] == y[17] && x[18] == y[18]);
            },
            _ => {},
        }
    }
}

/// The first record begins the records.
proof fn lemma_records_front(points: Seq<PointView>, with_reports: bool)
    requires
        points.len() > 0,
    ensures
        point_records(points, with_reports) == point_record(points[0], with_reports)
            + point_records(points.drop_first(), with_reports),
    decreases points.len(),
{
    let rest = points.drop_first();
    if points.len() == 1 {
        assert(points.drop_last() =~= Seq::<PointView>::empty());
        assert(rest =~= Seq::<PointView>::empty());
        assert(point_records(points, with_reports) =~= point_record(points[0], with_reports)
            + point_records(rest, with_reports));
    } else {
        let front = points.drop_last();
        lemma_records_front(front, with_reports);
        assert(front.drop_first() =~= rest.drop_last());
        assert(rest.last() == points.last());
        assert(point_records(points, with_reports) =~= point_record(points[0], with_reports)
            + point_records(rest, with_reports));
    }
}

proof fn lemma_same_points(left: Seq<PointView>, right: Seq<PointView>, with_reports: bool, k: int)
    requires
        left.len() == right.len(),
        forall|i: int|
            0 <= i < left.len() ==> point_valid(#[trigger] left[i])
                && left[i].recipe.canonical().len() <= u32::MAX && (!with_reports
                ==> left[i].metrics.physical_size_report is None),
        forall|i: int|
            0 <= i < right.len() ==> point_valid(#[trigger] right[i])
                && right[i].recipe.canonical().len() <= u32::MAX && (!with_reports
                ==> right[i].metrics.physical_size_report is None),
        point_records(left, with_reports) == point_records(right, with_reports),
        0 <= k < left.len(),
    ensures
        alike(left[k], right[k]),
    decreases left.len(),
{
    lemma_records_front(left, with_reports);
    lemma_records_front(right, with_reports);
    let a = left.drop_first();
    let b = right.drop_first();
    assert(point_valid(left[0]) && point_valid(right[0]));
    lemma_same_point(
        left[0],
        right[0],
        with_reports,
        point_records(a, with_reports),
        point_records(b, with_reports),
    );
    if k > 0 {
        assert forall|i: int| 0 <= i < a.len() implies point_valid(#[trigger] a[i])
            && a[i].recipe.canonical().len() <= u32::MAX && (!with_reports
            ==> a[i].metrics.physical_size_report is None) by {
            assert(a[i] == left[i + 1]);
        }
        assert forall|i: int| 0 <= i < b.len() implies point_valid(#[trigger] b[i])
            && b[i].recipe.canonical().len() <= u32::MAX && (!with_reports
            ==> b[i].metrics.physical_size_report is None) by {
            assert(b[i] == right[i + 1]);
        }
        lemma_same_points(a, b, with_reports, k - 1);
        assert(a[k - 1] == left[k] && b[k - 1] == right[k]);
    }
}

/// The points of a ledger in package order are its points.
proof fn lemma_ordered_points(ledger: LedgerView)
    requires
        ledger.valid(),
        ledger.record_error() is None,
    ensures
        ({
            let ordered = by_package(ledger.points);
            &&& ordered.len() == ledger.points.len()
            &&& is_sorted(ordered, Seq::empty())
            &&& forall|i: int|
                0 <= i < ordered.len() ==> point_valid(#[trigger] ordered[i])
                    && ordered[i].recipe.canonical().len() <= u32::MAX && (!any_report(
                    ledger.points,
                ) ==> ordered[i].metrics.physical_size_report is None)
        }),
{
    broadcast use vstd::seq_lib::group_to_multiset_ensures;

    let none = Seq::<CampaignObjective>::empty();
    assert(sortable(ledger.points, none));
    objective_order_sorts(ledger.points, none);
    let ordered = by_package(ledger.points);
    assert forall|i: int| 0 <= i < ordered.len() implies point_valid(#[trigger] ordered[i])
        && ordered[i].recipe.canonical().len() <= u32::MAX && (!any_report(ledger.points)
        ==> ordered[i].metrics.physical_size_report is None) by {
        assert(ordered.contains(ordered[i]));
        assert(ordered.to_multiset().count(ordered[i]) > 0);
        assert(ledger.points.contains(ordered[i]));
        let k = choose|k: int| 0 <= k < ledger.points.len() && ledger.points[k] == ordered[i];
        assert(point_valid(ledger.points[k]));
        assert(ledger.points[k].recipe.canonical().len() <= u32::MAX);
    }
}

/// Records that say the same say the same in each of their parts.
proof fn lemma_same_parts(
    tag: u8,
    other_tag: u8,
    source: Seq<u8>,
    other_source: Seq<u8>,
    first: Seq<u8>,
    other_first: Seq<u8>,
    second: Seq<u8>,
    other_second: Seq<u8>,
    count: nat,
    other_count: nat,
    rest: Seq<u8>,
    other_rest: Seq<u8>,
)
    requires
        source.len() == other_source.len(),
        first.len() <= u32::MAX,
        other_first.len() <= u32::MAX,
        second.len() <= u32::MAX,
        other_second.len() <= u32::MAX,
        count <= u32::MAX,
        other_count <= u32::MAX,
        seq![0x54u8, 0x43u8, 0x4du8, 0x50u8] + seq![tag] + source + le(first.len(), 4) + first + le(
            second.len(),
            4,
        ) + second + le(count, 4) + rest == seq![0x54u8, 0x43u8, 0x4du8, 0x50u8] + seq![other_tag]
            + other_source + le(other_first.len(), 4) + other_first + le(other_second.len(), 4)
            + other_second + le(other_count, 4) + other_rest,
    ensures
        tag == other_tag,
        source == other_source,
        first == other_first,
        second == other_second,
        count == other_count,
        rest == other_rest,
{
    lemma_le_limits();
    let magic = seq![0x54u8, 0x43u8, 0x4du8, 0x50u8];
    let a6 = le(count, 4) + rest;
    let b6 = le(other_count, 4) + other_rest;
    let a5 = second + a6;
    let b5 = other_second + b6;
    let a4 = le(second.len(), 4) + a5;
    let b4 = le(other_second.len(), 4) + b5;
    let a3 = first + a4;
    let b3 = other_first + b4;
    let a2 = le(first.len(), 4) + a3;
    let b2 = le(other_first.len(), 4) + b3;
    let a1 = source + a2;
    let b1 = other_source + b2;
    let a0 = seq![tag] + a1;
    let b0 = seq![other_tag] + b1;
    assert(magic + seq![tag] + source + le(first.len(), 4) + first + le(second.len(), 4) + second
        + le(count, 4) + rest =~= magic + a0);
    assert(magic + seq![other_tag] + other_source + le(other_first.len(), 4) + other_first + le(
        other_second.len(),
        4,
    ) + other_second + le(other_count, 4) + other_rest =~= magic + b0);
    lemma_same_front(magic, magic, a0, b0);
    lemma_same_front(seq![tag], seq![other_tag], a1, b1);
    assert(seq![tag][0] == seq![other_tag][0]);
    lemma_same_front(source, other_source, a2, b2);
    lemma_same_number(first.len(), other_first.len(), 4, a3, b3);
    lemma_same_front(first, other_first, a4, b4);
    lemma_same_number(second.len(), other_second.len(), 4, a5, b5);
    lemma_same_front(second, other_second, a6, b6);
    lemma_same_number(count, other_count, 4, rest, other_rest);
}

proof fn lemma_same_ledger(left: LedgerView, right: LedgerView)
    requires
        left.valid(),
        right.valid(),
        left.record_error() is None,
        right.record_error() is None,
        left.canonical() == right.canonical(),
    ensures
        left.source_model_id == right.source_model_id,
        left.calibration.canonical() == right.calibration.canonical(),
        left.evaluation.canonical() == right.evaluation.canonical(),
        left.points.len() == right.points.len(),
        any_report(left.points) == any_report(right.points),
        point_records(by_package(left.points), any_report(left.points)) == point_records(
            by_package(right.points),
            any_report(right.points),
        ),
{
    reveal(LedgerView::front);
    lemma_same_parts(
        if any_report(left.points) {
            4u8
        } else {
            2u8
        },
        if any_report(right.points) {
            4u8
        } else {
            2u8
        },
        left.source_model_id,
        right.source_model_id,
        left.calibration.canonical(),
        right.calibration.canonical(),
        left.evaluation.canonical(),
        right.evaluation.canonical(),
        left.points.len(),
        right.points.len(),
        point_records(by_package(left.points), any_report(left.points)),
        point_records(by_package(right.points), any_report(right.points)),
    );
}

/// The canonical record of a ledger binds its source, its calibration, its evaluation and every
/// value of its points: ledgers with the same record agree on all of them.
pub proof fn ledger_records_bind_every_field(left: LedgerView, right: LedgerView)
    requires
        left.valid(),
        right.valid(),
        left.record_error() is None,
        right.record_error() is None,
        left.canonical() == right.canonical(),
    ensures
        left.source_model_id == right.source_model_id,
        left.calibration == right.calibration,
        left.evaluation == right.evaluation,
        left.points.len() == right.points.len(),
        by_package(left.points).len() == left.points.len(),
        by_package(right.points).len() == right.points.len(),
        forall|k: int|
            0 <= k < left.points.len() ==> alike(
                #[trigger] by_package(left.points)[k],
                by_package(right.points)[k],
            ),
{
    lemma_same_ledger(left, right);
    left.calibration.canonical_binds_every_field(right.calibration);
    left.evaluation.canonical_binds_every_field(right.evaluation);
    lemma_ordered_points(left);
    lemma_ordered_points(right);
    assert forall|k: int| 0 <= k < left.points.len() implies alike(
        #[trigger] by_package(left.points)[k],
        by_package(right.points)[k],
    ) by {
        lemma_same_points(
            by_package(left.points),
            by_package(right.points),
            any_report(left.points),
            k,
        );
    }
}

/// Of byte strings of one length the lexicographically lesser comes first.
proof fn lemma_lesser_first(left: Seq<u8>, right: Seq<u8>)
    requires
        left.len() == right.len(),
        lex_greater(right, left),
    ensures
        bytes_before(left, right),
{
    let at = choose|i: int|
        0 <= i < right.len() && #[trigger] right[i] > left[i] && forall|j: int|
            0 <= j < i ==> #[trigger] right[j] == left[j];
    assert(left.take(at) =~= right.take(at));
    the_first_difference_decides(left, right, at);
}

/// The record lists points by ascending package identity.
pub proof fn records_are_ordered_by_package(ledger: LedgerView, earlier: int, later: int)
    requires
        ledger.valid(),
        ledger.record_error() is None,
        0 <= earlier < later < ledger.points.len(),
    ensures
        bytes_before(
            by_package(ledger.points)[earlier].package_bytes(),
            by_package(ledger.points)[later].package_bytes(),
        ),
{
    lemma_ordered_points(ledger);
    let ordered = by_package(ledger.points);
    assert(comes_first(ordered[earlier], ordered[later], Seq::empty(), 0));
    assert(point_valid(ordered[earlier]) && point_valid(ordered[later]));
    lemma_lesser_first(ordered[earlier].package_bytes(), ordered[later].package_bytes());
}

/// Points of the frontier that are tied on every objective come by ascending package identity.
pub proof fn ties_are_ordered_by_package(
    points: Seq<PointView>,
    objectives: Seq<CampaignObjective>,
    earlier: int,
    later: int,
)
    requires
        sortable(points, objectives),
        forall|k: int| 0 <= k < points.len() ==> (#[trigger] points[k]).metrics.valid(),
        0 <= earlier < later < frontier(points, objectives).len(),
        forall|k: int|
            0 <= k < objectives.len() ==> tied(
                frontier(points, objectives)[earlier],
                frontier(points, objectives)[later],
                #[trigger] objectives[k],
            ),
    ensures
        bytes_before(
            frontier(points, objectives)[earlier].package_bytes(),
            frontier(points, objectives)[later].package_bytes(),
        ),
{
    let kept = frontier(points, objectives);
    let first = kept[earlier];
    let second = kept[later];
    frontier_holds_the_undominated_points(points, objectives, first);
    frontier_holds_the_undominated_points(points, objectives, second);
    assert(kept.contains(first) && kept.contains(second));
    let i = choose|i: int| 0 <= i < points.len() && points[i] == first;
    let j = choose|j: int| 0 <= j < points.len() && points[j] == second;
    assert(points[i].metrics.valid() && points[j].metrics.valid());
    assert(point_valid(points[i]) && point_valid(points[j]));
    assert(comes_first(first, second, objectives, 0));
    lemma_tied_first(first, second, objectives, 0);
    lemma_lesser_first(first.package_bytes(), second.package_bytes());
}

proof fn lemma_tied_first(
    first: PointView,
    second: PointView,
    objectives: Seq<CampaignObjective>,
    from: nat,
)
    requires
        first.metrics.valid(),
        second.metrics.valid(),
        fully_measured(first, objectives),
        fully_measured(second, objectives),
        comes_first(first, second, objectives, from),
        from <= objectives.len(),
        forall|k: int| 0 <= k < objectives.len() ==> tied(first, second, #[trigger] objectives[k]),
    ensures
        lex_greater(second.package_bytes(), first.package_bytes()),
    decreases objectives.len() - from,
{
    if from < objectives.len() {
        assert(measured(first, objectives[from as int]) && measured(
            second,
            objectives[from as int],
        ));
        assert(tied(first, second, objectives[from as int]));
        standings_follow_the_measurements(first, second, objectives[from as int]);
        lemma_tied_first(first, second, objectives, from + 1);
    }
}

/// Whether a point carries what an objective compares.
pub open spec fn carries(point: PointView, objective: CampaignObjective) -> bool {
    match objective {
        CampaignObjective::PhysicalBytes => true,
        CampaignObjective::LogicalBpw => point.metrics.physical_size_report is Some,
        CampaignObjective::Perplexity => point.metrics.perplexity is Some,
        CampaignObjective::ReconstructionMse => point.metrics.reconstruction_mse is Some,
        CampaignObjective::TaskScore => point.metrics.task_score is Some,
        CampaignObjective::TokensPerSecond => point.metrics.tokens_per_second is Some,
        CampaignObjective::PeakVramBytes => point.metrics.peak_vram_bytes is Some,
    }
}

proof fn lemma_repeated(objectives: Seq<CampaignObjective>, from: nat)
    requires
        from <= objectives.len(),
    ensures
        match repeated(objectives, from) {
            None => forall|i: int, j: int|
                0 <= i < j < objectives.len() && from <= j ==> objectives[i] != objectives[j],
            Some(CampaignError::DuplicateObjective(objective)) => exists|i: int, j: int|
                0 <= i < j < objectives.len() && #[trigger] objectives[i] == objective
                    && #[trigger] objectives[j] == objective,
            Some(_) => false,
        },
    decreases objectives.len() - from,
{
    if from < objectives.len() {
        let before = objectives.take(from as int);
        let next = objectives[from as int];
        lemma_repeated(objectives, from + 1);
        if before.contains(next) {
            let i = choose|i: int| 0 <= i < before.len() && before[i] == next;
            assert(objectives[i] == next && objectives[from as int] == next);
        } else {
            assert forall|i: int| 0 <= i < from implies objectives[i] != next by {
                assert(before[i] == objectives[i]);
            }
        }
    }
}

proof fn lemma_lacking(point: PointView, objectives: Seq<CampaignObjective>, from: nat)
    requires
        from <= objectives.len(),
    ensures
        match lacking(point, objectives, from) {
            None => forall|k: int|
                from <= k < objectives.len() ==> carries(point, #[trigger] objectives[k]),
            Some(CampaignError::MissingObjective { package_id, objective }) => {
                &&& package_id@ == point.package_bytes()
                &&& objectives.contains(objective)
                &&& !carries(point, objective)
            },
            Some(_) => false,
        },
    decreases objectives.len() - from,
{
    if from < objectives.len() {
        lemma_lacking(point, objectives, from + 1);
        assert(objectives.contains(objectives[from as int]));
    }
}

proof fn lemma_first_lacking(
    points: Seq<PointView>,
    objectives: Seq<CampaignObjective>,
    from: nat,
)
    requires
        from <= points.len(),
    ensures
        match first_lacking(points, objectives, from) {
            None => forall|i: int, k: int|
                from <= i < points.len() && 0 <= k < objectives.len() ==> carries(
                    #[trigger] points[i],
                    #[trigger] objectives[k],
                ),
            Some(CampaignError::MissingObjective { package_id, objective }) => exists|i: int|
                {
                    &&& from <= i < points.len()
                    &&& package_id@ == (#[trigger] points[i]).package_bytes()
                    &&& objectives.contains(objective)
                    &&& !carries(points[i], objective)
                },
            Some(_) => false,
        },
    decreases points.len() - from,
{
    if from < points.len() {
        lemma_lacking(points[from as int], objectives, 0);
        lemma_first_lacking(points, objectives, from + 1);
    }
}

/// A selection is accepted exactly if it asks for an objective, for none twice, and every point
/// carries each; otherwise the repeated objective or a lacking point is named.
pub proof fn only_comparable_selections_are_accepted(
    points: Seq<PointView>,
    objectives: Seq<CampaignObjective>,
)
    ensures
        match selection_error(points, objectives) {
            None => {
                &&& objectives.len() > 0
                &&& forall|i: int, j: int|
                    0 <= i < j < objectives.len() ==> objectives[i] != objectives[j]
                &&& forall|i: int, k: int|
                    0 <= i < points.len() && 0 <= k < objectives.len() ==> carries(
                        #[trigger] points[i],
                        #[trigger] objectives[k],
                    )
            },
            Some(CampaignError::EmptyObjectives) => objectives.len() == 0,
            Some(CampaignError::DuplicateObjective(objective)) => exists|i: int, j: int|
                0 <= i < j < objectives.len() && #[trigger] objectives[i] == objective
                    && #[trigger] objectives[j] == objective,
            Some(CampaignError::MissingObjective { package_id, objective }) => exists|i: int|
                {
                    &&& 0 <= i < points.len()
                    &&& package_id@ == (#[trigger] points[i]).package_bytes()
                    &&& objectives.contains(objective)
                    &&& !carries(points[i], objective)
                },
            Some(_) => false,
        },
{
    lemma_repeated(objectives, 0);
    lemma_first_lacking(points, objectives, 0);
}

/// Whether a text says something and its length can be recorded.
pub open spec fn recordable(text: Seq<char>) -> bool {
    text.len() > 0 && encode_utf8(text).len() <= u32::MAX
}

/// A calibration is accepted exactly if its texts can be recorded and it counts samples, tokens
/// and a sequence length; an evaluation exactly if its texts can be recorded and it counts samples
/// and tokens; a recipe exactly if its texts and its configuration can be recorded.
pub proof fn only_complete_records_are_accepted(
    calibration: CalibrationView,
    evaluation: EvaluationView,
    recipe: RecipeView,
)
    ensures
        calibration.error() is None <==> {
            &&& recordable(calibration.dataset)
            &&& recordable(calibration.revision)
            &&& calibration.sample_count > 0
            &&& calibration.token_count > 0
            &&& calibration.sequence_length > 0
        },
        evaluation.error() is None <==> {
            &&& recordable(evaluation.suite)
            &&& recordable(evaluation.revision)
            &&& evaluation.sample_count > 0
            &&& evaluation.token_count > 0
        },
        recipe.error() is None <==> {
            &&& recordable(recipe.implementation)
            &&& recordable(recipe.revision)
            &&& recordable(recipe.command)
            &&& 0 < recipe.canonical_config.len() <= u32::MAX
        },
{
}

/// A ledger takes a point exactly if it converts the ledger's source with its calibration and its
/// evaluation, and a report on the point is on the point's own package.
pub proof fn only_pinned_points_are_taken(ledger: LedgerView, point: PointView)
    ensures
        ledger.pin_error(point) is None <==> {
            &&& point.source_model_id == ledger.source_model_id
            &&& point.calibration_id == ledger.calibration.id()
            &&& point.evaluation_id == ledger.evaluation.id()
            &&& point.metrics.physical_size_report matches Some(report) ==> report.package
                == point.package
        },
{
}

/// A report is accepted exactly if it counts parameters, no more in the core than in the model,
/// its maps' bits are accounted for, its serialized parts are the measured package, its core is
/// not empty, serialized or resident, and its sums can be counted.
pub proof fn only_consistent_reports_are_accepted(report: ReportView)
    ensures
        report.error() is None <==> {
            let written = report.serialized;
            let held = report.resident;
            let core = written.core_payload_bytes + written.core_scale_bytes
                + written.allocation_map_bytes + written.header_bytes + written.transform_bytes
                + written.alignment_bytes;
            let steady = held.core_bytes + held.map_bytes + held.descriptor_bytes
                + held.shadow_bytes + held.preserved_bytes;
            &&& 0 < report.core_parameter_count <= report.model_parameter_count
            &&& written.allocation_map_bits == 8 * written.allocation_map_bytes
                + written.allocation_map_embedded_bits
            &&& held.map_bits == 8 * held.map_bytes + held.map_embedded_bits
            &&& core > 0
            &&& core + written.preserved_bytes == report.package.length()
            &&& steady > held.preserved_bytes
            &&& steady <= u64::MAX
            &&& held.peak_workspace_bytes matches Some(extra) ==> steady + extra <= u64::MAX
        },
{
}

/// Measurements are accepted exactly if rates, perplexities and throughputs are finite and above
/// zero, an error is finite and has no sign, a score is finite and not a negative zero, a peak
/// counts a byte and a report is consistent.
pub proof fn only_possible_measurements_are_accepted(metrics: MetricsView)
    ensures
        metrics.valid() <==> {
            &&& f64_finite(metrics.logical_bpw) && f64_less(0, metrics.logical_bpw)
            &&& metrics.perplexity matches Some(bits) ==> f64_finite(bits) && f64_less(0, bits)
            &&& metrics.reconstruction_mse matches Some(bits) ==> f64_finite(bits) && bits
                < F64_SIGN
            &&& metrics.task_score matches Some(bits) ==> f64_finite(bits) && !(bits % F64_SIGN == 0
                && bits != 0)
            &&& metrics.tokens_per_second matches Some(bits) ==> f64_finite(bits) && f64_less(
                0,
                bits,
            )
            &&& metrics.peak_vram_bytes matches Some(bytes) ==> bytes != 0
            &&& metrics.physical_size_report matches Some(report) ==> report.error() is None
        },
{
}

proof fn lemma_equal_ledgers(expected: RuntimeLedger, supplied: RuntimeLedger)
    ensures
        first_difference(ledger_components(expected), ledger_components(supplied), 0) is None
            <==> expected == supplied,
{
    reveal_with_fuel(first_difference, 11);
}

proof fn lemma_receipts(tensors: Seq<TensorFacts>, receipts: Seq<RuntimeLedger>, from: nat)
    requires
        tensors.len() == receipts.len(),
        from <= tensors.len(),
    ensures
        receipt_error(tensors, receipts, from) is None <==> forall|k: int|
            from <= k < tensors.len() ==> (#[trigger] tensors[k]).runtime == receipts[k],
    decreases tensors.len() - from,
{
    if from < tensors.len() {
        lemma_equal_ledgers(tensors[from as int].runtime, receipts[from as int]);
        lemma_receipts(tensors, receipts, from + 1);
    }
}

/// Supplied runtime receipts are accepted exactly if there is one for each tensor and it is the
/// tensor's own.
pub proof fn only_own_receipts_are_accepted(
    tensors: Seq<TensorFacts>,
    receipts: Seq<RuntimeLedger>,
)
    ensures
        receipts_error(tensors, None) is None,
        receipts_error(tensors, Some(receipts)) is None <==> {
            &&& receipts.len() == tensors.len()
            &&& forall|k: int|
                0 <= k < tensors.len() ==> (#[trigger] tensors[k]).runtime == receipts[k]
        },
{
    if receipts.len() == tensors.len() {
        lemma_receipts(tensors, receipts, 0);
    }
}

} // verus!
