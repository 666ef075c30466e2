use tritium_quantize::campaign::{CampaignLedger, CampaignMetrics, CampaignPoint};
use tritium_quantize::campaign_error::{CampaignError, CampaignObjective};
use tritium_quantize::campaign_package::{
    PackageFacts, PackageLedger, TensorFacts, TileFacts,
};
use tritium_quantize::campaign_provenance::{
    CalibrationProvenance, EvaluationProvenance, ModelId, PackageId, RecipeProvenance,
};
use tritium_quantize::campaign_size::{
    checked_package_length, LogicalTritCount, LogicalTritRate, MeasuredPackage,
    PhysicalSizeReport, ResidentSizeComponents, RuntimeLedger, SerializedSizeComponents,
};

const TRIT_BITS: f64 = 1.584_962_500_721_156_2;
const LEGACY_CAMPAIGN_VERSION: u8 = 2;
const PHYSICAL_REPORT_CAMPAIGN_VERSION: u8 = 4;

fn model_id(seed: u8) -> ModelId {
    ModelId::from_bytes(*blake3::hash(&[seed]).as_bytes())
}

fn package_id(bytes: &[u8]) -> PackageId {
    PackageId::from_bytes(*blake3::hash(bytes).as_bytes())
}

fn measured(bytes: &[u8]) -> Result<MeasuredPackage, CampaignError> {
    MeasuredPackage::measured(package_id(bytes), bytes.len() as u64)
}

fn bpw(rate: LogicalTritRate) -> f64 {
    rate.trits() as f64 * TRIT_BITS / rate.weights() as f64
}

fn bpw_bits(report: PhysicalSizeReport) -> u64 {
    bpw(report.logical_core_rate()).to_bits()
}

fn calibration(sample_digest: [u8; 32]) -> CalibrationProvenance {
    CalibrationProvenance::new(
        "fineweb-edu",
        "2026-06-01",
        sample_digest,
        [2; 32],
        128,
        65_536,
        512,
        0x5eed,
    )
    .expect("calibration")
}

fn evaluation() -> EvaluationProvenance {
    EvaluationProvenance::new(
        "wikitext-2-ppl",
        "raw-v1",
        [4; 32],
        [2; 32],
        [5; 32],
        245,
        300_000,
    )
    .expect("evaluation")
}

fn recipe(seed: u8) -> RecipeProvenance {
    RecipeProvenance::new(
        "tritium-cli",
        "67f7256",
        vec![seed],
        "tritium convert --recipe recipe.json",
    )
    .expect("recipe")
}

fn logical_trits(value: u64) -> LogicalTritCount {
    LogicalTritCount::new(value).expect("nonzero logical trit count")
}

fn simple_physical_report(
    package_bytes: &[u8],
    core_parameter_count: u64,
    model_parameter_count: u64,
    payload_bytes: u64,
    scale_bytes: u64,
    other_serialized_bytes: u64,
) -> PhysicalSizeReport {
    let package = measured(package_bytes).expect("package");
    PhysicalSizeReport::new(
        package,
        core_parameter_count,
        model_parameter_count,
        logical_trits(core_parameter_count),
        SerializedSizeComponents::new(
            payload_bytes,
            scale_bytes,
            0,
            0,
            0,
            other_serialized_bytes,
            0,
            0,
            0,
        ),
        ResidentSizeComponents::new(
            payload_bytes + scale_bytes,
            0,
            0,
            0,
            0,
            other_serialized_bytes,
            0,
            Some(7),
        ),
    )
    .expect("physical report")
}

#[test]
fn calibration_identity_binds_exact_sample_set() {
    let first = CalibrationProvenance::new(
        "fineweb-edu",
        "2026-06-01",
        [1; 32],
        [2; 32],
        128,
        65_536,
        512,
        0x5eed,
    )
    .expect("valid provenance");
    let reordered = CalibrationProvenance::new(
        "fineweb-edu",
        "2026-06-01",
        [3; 32],
        [2; 32],
        128,
        65_536,
        512,
        0x5eed,
    )
    .expect("valid provenance");

    assert_eq!(first.canonical_bytes(), first.canonical_bytes());
    assert_ne!(first.id(), reordered.id());
}

#[test]
fn measured_package_binds_exact_bytes_and_length() {
    let bytes = b"exact serialized ternary package";
    let measured = measured(bytes).expect("measured package");
    assert_eq!(measured.id(), package_id(bytes));
    assert_eq!(measured.physical_bytes(), bytes.len() as u64);
}

#[test]
fn ptqtp_two_direct_planes_at_g128_are_exactly_4_25_bpw() {
    // Two 2-bit planes occupy 64 bytes; two fp16 scales add 4 bytes.
    let bytes = vec![0_u8; 68];
    let report = PhysicalSizeReport::new(
        measured(&bytes).expect("package"),
        128,
        128,
        LogicalTritCount::new(256).expect("logical trits"),
        SerializedSizeComponents::new(64, 4, 0, 0, 0, 0, 0, 0, 0),
        ResidentSizeComponents::new(68, 0, 0, 0, 0, 0, 0, None),
    )
    .expect("physical report");

    assert!(report.serialized_core_millibpw().equals(4_250));
    assert_eq!(report.serialized_core_millibpw().ceiling(), 4_250);
    assert!(!report.serialized_core_millibpw().is_at_most(1_580));
    assert!(report.serialized_core_millibpw().is_at_most(4_250));
    let logical = report.logical_core_rate();
    assert_eq!(logical.trits(), 256);
    assert_eq!(logical.weights(), 128);
    assert!((bpw(logical) - 2.0 * TRIT_BITS).abs() <= f64::EPSILON);
}

#[test]
fn physical_report_rejects_zero_overflow_and_package_mismatch() {
    assert_eq!(
        measured(&[]),
        Err(CampaignError::ZeroValue("physical_bytes"))
    );
    let package = measured(&[0; 8]).expect("package");
    let serialized = SerializedSizeComponents::new(8, 0, 0, 0, 0, 0, 0, 0, 0);
    let resident = ResidentSizeComponents::new(8, 0, 0, 0, 0, 0, 0, None);
    assert_eq!(
        PhysicalSizeReport::new(package, 0, 8, logical_trits(8), serialized, resident),
        Err(CampaignError::ZeroValue("core_parameter_count"))
    );
    assert_eq!(
        PhysicalSizeReport::new(
            package,
            8,
            8,
            logical_trits(8),
            SerializedSizeComponents::new(7, 0, 1, 7, 0, 0, 0, 0, 0),
            resident,
        ),
        Err(CampaignError::InvalidPhysicalSize(
            "serialized allocation map"
        ))
    );
    assert_eq!(
        PhysicalSizeReport::new(
            package,
            8,
            8,
            logical_trits(8),
            serialized,
            ResidentSizeComponents::new(7, 1, 7, 0, 0, 0, 0, None),
        ),
        Err(CampaignError::InvalidPhysicalSize(
            "resident allocation map"
        ))
    );
    assert_eq!(
        PhysicalSizeReport::new(
            package,
            8,
            8,
            logical_trits(8),
            SerializedSizeComponents::new(0, 0, 0, 0, 0, 0, 0, 8, 0),
            resident,
        ),
        Err(CampaignError::ZeroValue("serialized_core_bytes"))
    );
    assert_eq!(
        PhysicalSizeReport::new(
            package,
            8,
            8,
            logical_trits(8),
            serialized,
            ResidentSizeComponents::new(0, 0, 0, 0, 0, 8, 0, None),
        ),
        Err(CampaignError::ZeroValue("resident_core_bytes"))
    );
    assert_eq!(
        PhysicalSizeReport::new(
            package,
            8,
            8,
            logical_trits(8),
            SerializedSizeComponents::new(7, 0, 0, 0, 0, 0, 0, 0, 0),
            resident,
        ),
        Err(CampaignError::PhysicalPackageSizeMismatch {
            measured_bytes: 8,
            component_bytes: 7,
        })
    );
    assert_eq!(
        PhysicalSizeReport::new(
            package,
            8,
            8,
            logical_trits(8),
            SerializedSizeComponents::new(u64::MAX, 1, 0, 0, 0, 0, 0, 0, 0),
            resident,
        ),
        Err(CampaignError::PhysicalSizeOverflow("serialized core"))
    );
    assert_eq!(
        PhysicalSizeReport::new(
            package,
            8,
            8,
            logical_trits(8),
            SerializedSizeComponents::new(8, 0, 0, 0, 0, 0, 0, u64::MAX, 0),
            resident,
        ),
        Err(CampaignError::PhysicalSizeOverflow("serialized package"))
    );
    assert_eq!(
        PhysicalSizeReport::new(
            package,
            8,
            8,
            logical_trits(8),
            serialized,
            ResidentSizeComponents::new(u64::MAX, 0, 0, 0, 0, 0, 1, None),
        ),
        Err(CampaignError::PhysicalSizeOverflow("resident core"))
    );
    assert_eq!(
        PhysicalSizeReport::new(
            package,
            8,
            8,
            logical_trits(8),
            serialized,
            ResidentSizeComponents::new(8, 0, 0, 0, 0, u64::MAX, 0, None),
        ),
        Err(CampaignError::PhysicalSizeOverflow("steady resident"))
    );
    assert_eq!(
        PhysicalSizeReport::new(
            package,
            8,
            8,
            logical_trits(8),
            serialized,
            ResidentSizeComponents::new(8, 0, 0, 0, 0, 0, 0, Some(u64::MAX)),
        ),
        Err(CampaignError::PhysicalSizeOverflow("peak resident"))
    );
}

#[test]
fn physical_report_handles_mixed_planes_short_groups_and_alignment() {
    for coefficient_count in 1_u64..=257 {
        let mut remaining = coefficient_count;
        let mut group_index = 0_u64;
        let mut payload_bytes = 0_u64;
        let mut scale_bytes = 0_u64;
        let mut logical_bits = 0_u64;
        while remaining != 0 {
            let group_len = remaining.min(128);
            let planes = 1 + group_index % 3;
            // D2: each independently addressable plane is byte-ceiled.
            payload_bytes += planes * (group_len * 2).div_ceil(8);
            scale_bytes += planes * 2;
            logical_bits += planes * group_len;
            remaining -= group_len;
            group_index += 1;
        }
        let group_count = coefficient_count.div_ceil(128);
        let allocation_bits = group_count * 2;
        let allocation_bytes = allocation_bits / 8;
        let allocation_embedded_bits = allocation_bits % 8;
        let header_bytes = 13;
        let transform_bytes = 5;
        let unaligned =
            payload_bytes + scale_bytes + allocation_bytes + header_bytes + transform_bytes;
        let alignment_bytes = (64 - unaligned % 64) % 64;
        let package_bytes = unaligned + alignment_bytes;
        let bytes = vec![0_u8; usize::try_from(package_bytes).expect("small fixture")];
        let report = PhysicalSizeReport::new(
            measured(&bytes).expect("package"),
            coefficient_count,
            coefficient_count + 11,
            logical_trits(logical_bits),
            SerializedSizeComponents::new(
                payload_bytes,
                scale_bytes,
                allocation_bytes,
                allocation_bits,
                allocation_embedded_bits,
                header_bytes,
                transform_bytes,
                0,
                alignment_bytes,
            ),
            ResidentSizeComponents::new(
                payload_bytes + scale_bytes,
                allocation_bytes,
                allocation_bits,
                allocation_embedded_bits,
                header_bytes,
                11,
                transform_bytes,
                Some(coefficient_count % 17),
            ),
        )
        .expect("mixed report");

        assert_eq!(report.package().physical_bytes(), package_bytes);
        assert_eq!(report.serialized_core_bytes(), package_bytes);
        assert_eq!(
            report.peak_resident_bytes(),
            Some(report.steady_resident_bytes() + coefficient_count % 17)
        );
        assert_eq!(
            report.serialized_core_millibpw().numerator_millibits(),
            u128::from(package_bytes) * 8_000
        );
    }
}

#[test]
fn streamed_package_length_overflow_is_typed() {
    assert_eq!(
        checked_package_length(u64::MAX, 1),
        Err(CampaignError::RecordTooLarge("package"))
    );
}

#[test]
fn evaluation_identity_binds_harness_and_samples() {
    let first = EvaluationProvenance::new(
        "wikitext-2-ppl",
        "raw-v1",
        [4; 32],
        [2; 32],
        [5; 32],
        245,
        300_000,
    )
    .expect("valid evaluation");
    let changed_harness = EvaluationProvenance::new(
        "wikitext-2-ppl",
        "raw-v1",
        [4; 32],
        [2; 32],
        [6; 32],
        245,
        300_000,
    )
    .expect("valid evaluation");

    assert_ne!(first.id(), changed_harness.id());
}

#[test]
fn recipe_identity_binds_revision_config_and_command() {
    let first = RecipeProvenance::new(
        "tritium-cli",
        "67f7256",
        br#"{"passes":2}"#.to_vec(),
        "tritium convert --recipe recipe.json",
    )
    .expect("recipe");
    let equivalent = RecipeProvenance::new(
        "tritium-cli",
        "67f7256",
        br#"{"passes":2}"#.to_vec(),
        "tritium convert --recipe recipe.json",
    )
    .expect("recipe");
    let changed_config = RecipeProvenance::new(
        "tritium-cli",
        "67f7256",
        br#"{"passes":3}"#.to_vec(),
        "tritium convert --recipe recipe.json",
    )
    .expect("recipe");
    let changed_command = RecipeProvenance::new(
        "tritium-cli",
        "67f7256",
        br#"{"passes":2}"#.to_vec(),
        "tritium convert --recipe other.json",
    )
    .expect("recipe");
    let changed_revision = RecipeProvenance::new(
        "tritium-cli",
        "bf7ab42",
        br#"{"passes":2}"#.to_vec(),
        "tritium convert --recipe recipe.json",
    )
    .expect("recipe");

    assert_ne!(first.id(), changed_config.id());
    assert_ne!(first.id(), changed_command.id());
    assert_ne!(first.id(), changed_revision.id());
    assert_eq!(first.id(), equivalent.id());
    assert_eq!(first.canonical_bytes(), equivalent.canonical_bytes());
    assert!(first.id().to_text().starts_with("trr1_"));
}

#[test]
fn metrics_normalize_signed_zero() {
    let positive = CampaignMetrics::new(2.0_f64.to_bits())
        .expect("metrics")
        .with_reconstruction_mse(0.0_f64.to_bits())
        .expect("mse")
        .with_task_score(0.0_f64.to_bits())
        .expect("task score");
    let negative = CampaignMetrics::new(2.0_f64.to_bits())
        .expect("metrics")
        .with_reconstruction_mse((-0.0_f64).to_bits())
        .expect("mse")
        .with_task_score((-0.0_f64).to_bits())
        .expect("task score");

    assert_eq!(positive, negative);
    assert_eq!(negative.reconstruction_mse().expect("mse"), 0);
    assert_eq!(negative.task_score().expect("task score"), 0);
}

#[test]
fn metrics_validate_exact_peak_and_ledger_validates_package_binding() {
    let bytes = b"physical-size";
    let report = simple_physical_report(bytes, 64, 80, 8, 2, 3);
    let peak = report.peak_resident_bytes().expect("measured peak");
    assert_eq!(
        CampaignMetrics::new(2.0_f64.to_bits())
            .expect("metrics")
            .with_peak_vram_bytes(peak + 1)
            .expect("legacy peak")
            .with_physical_size_report(report, bpw_bits(report)),
        Err(CampaignError::PhysicalMetricMismatch("peak_vram_bytes"))
    );
    assert_eq!(
        CampaignMetrics::new(2.0_f64.to_bits())
            .expect("metrics")
            .with_physical_size_report(report, bpw_bits(report))
            .expect("report")
            .with_peak_vram_bytes(peak + 1),
        Err(CampaignError::PhysicalMetricMismatch("peak_vram_bytes"))
    );

    let source = model_id(1);
    let calibration = calibration([1; 32]);
    let evaluation = evaluation();
    let metrics = CampaignMetrics::new(2.0_f64.to_bits())
        .expect("metrics")
        .with_physical_size_report(report, bpw_bits(report))
        .expect("report");
    assert_eq!(metrics.peak_vram_bytes(), Some(peak));
    let mismatched_point = CampaignPoint::new(
        source,
        model_id(2),
        measured(b"different-package").expect("different"),
        recipe(2),
        calibration.id(),
        evaluation.id(),
        metrics,
    );
    let mut ledger = CampaignLedger::new(source, calibration, evaluation);
    assert!(matches!(
        ledger.add(mismatched_point),
        Err(CampaignError::PackageMeasurementMismatch { .. })
    ));
}

#[test]
fn physical_reports_use_v4_and_bind_component_allocation() {
    let source = model_id(1);
    let calibration = calibration([1; 32]);
    let evaluation = evaluation();
    let bytes = b"component-ledger";
    let package = measured(bytes).expect("package");
    let make_ledger = |header_bytes: u64, transform_bytes: u64| {
        let report = PhysicalSizeReport::new(
            package,
            64,
            80,
            logical_trits(64),
            SerializedSizeComponents::new(8, 2, 0, 0, 0, header_bytes, transform_bytes, 0, 0),
            ResidentSizeComponents::new(10, 0, 0, 0, 3, 3, 0, Some(7)),
        )
        .expect("report");
        let metrics = CampaignMetrics::new(2.0_f64.to_bits())
            .expect("metrics")
            .with_physical_size_report(report, bpw_bits(report))
            .expect("report metric");
        let point = CampaignPoint::new(
            source,
            model_id(2),
            package,
            recipe(2),
            calibration.id(),
            evaluation.id(),
            metrics,
        );
        let mut ledger = CampaignLedger::new(source, calibration.clone(), evaluation.clone());
        ledger.add(point).expect("point");
        ledger
    };
    // `component-ledger` is 16 bytes: 8 payload + 2 scale + 6 metadata.
    let headers = make_ledger(6, 0);
    let transforms = make_ledger(0, 6);

    assert_eq!(
        headers.canonical_bytes().expect("bytes")[4],
        PHYSICAL_REPORT_CAMPAIGN_VERSION
    );
    assert_ne!(
        headers.id().expect("header id"),
        transforms.id().expect("transform id")
    );
}

#[test]
fn pareto_frontier_honors_quality_and_system_directions() {
    let source = model_id(1);
    let calibration = calibration([1; 32]);
    let evaluation = evaluation();
    let mut ledger = CampaignLedger::new(source, calibration.clone(), evaluation.clone());
    let make_point = |seed: u8, package_len: usize, task_score: f64, throughput: f64| {
        let package_bytes = vec![seed; package_len];
        CampaignPoint::new(
            source,
            model_id(seed),
            measured(&package_bytes).expect("package"),
            RecipeProvenance::new(
                "tritium-cli",
                "67f7256",
                vec![seed],
                "tritium convert --recipe recipe.json",
            )
            .expect("recipe"),
            calibration.id(),
            evaluation.id(),
            CampaignMetrics::new(2.0_f64.to_bits())
                .expect("metrics")
                .with_reconstruction_mse((0.01 + f64::from(seed) / 100.0).to_bits())
                .expect("mse")
                .with_task_score(task_score.to_bits())
                .expect("task score")
                .with_tokens_per_second(throughput.to_bits())
                .expect("throughput")
                .with_peak_vram_bytes(u64::from(seed) * 1_000)
                .expect("vram"),
        )
    };
    let compact = make_point(2, 7, 0.70, 100.0);
    let capable = make_point(3, 8, 0.75, 120.0);
    let dominated = make_point(4, 9, 0.72, 90.0);
    for point in [dominated, capable.clone(), compact.clone()] {
        ledger.add(point).expect("add point");
    }

    let frontier = ledger
        .pareto_frontier(&[
            CampaignObjective::PhysicalBytes,
            CampaignObjective::TaskScore,
            CampaignObjective::TokensPerSecond,
            CampaignObjective::PeakVramBytes,
        ])
        .expect("frontier");
    assert_eq!(
        frontier
            .iter()
            .map(|point| point.package_id())
            .collect::<Vec<_>>(),
        vec![compact.package_id(), capable.package_id()]
    );
}

#[test]
fn logical_pareto_uses_exact_trit_ratios_beyond_f64_integer_precision() {
    let source = model_id(1);
    let calibration = calibration([1; 32]);
    let evaluation = evaluation();
    let denominator = (1_u64 << 53) + 2;
    let make_point = |seed: u8, trits: u64| {
        let bytes = [seed];
        let package = measured(&bytes).expect("package");
        let report = PhysicalSizeReport::new(
            package,
            denominator,
            denominator,
            logical_trits(trits),
            SerializedSizeComponents::new(1, 0, 0, 0, 0, 0, 0, 0, 0),
            ResidentSizeComponents::new(1, 0, 0, 0, 0, 0, 0, None),
        )
        .expect("report");
        let metrics = CampaignMetrics::new(42.0_f64.to_bits())
            .expect("placeholder display")
            .with_physical_size_report(report, bpw_bits(report))
            .expect("physical report");
        assert_eq!(
            f64::from_bits(metrics.logical_bpw()),
            bpw(report.logical_core_rate())
        );
        CampaignPoint::new(
            source,
            model_id(seed),
            package,
            recipe(seed),
            calibration.id(),
            evaluation.id(),
            metrics,
        )
    };
    let lower = make_point(2, 1_u64 << 53);
    let higher = make_point(3, (1_u64 << 53) + 1);
    assert_eq!(
        lower.metrics().logical_bpw(),
        higher.metrics().logical_bpw(),
        "the fixture must collide after f64 conversion"
    );
    let mut ledger = CampaignLedger::new(source, calibration, evaluation);
    ledger.add(higher).expect("higher point");
    ledger.add(lower.clone()).expect("lower point");

    let frontier = ledger
        .pareto_frontier(&[CampaignObjective::LogicalBpw])
        .expect("exact logical frontier");
    assert_eq!(frontier.len(), 1);
    assert_eq!(frontier[0].package_id(), lower.package_id());
}

#[test]
fn ledger_rejects_mixed_provenance_and_duplicate_packages() {
    let source = model_id(1);
    let calibration_provenance = calibration([1; 32]);
    let evaluation = evaluation();
    let mut ledger =
        CampaignLedger::new(source, calibration_provenance.clone(), evaluation.clone());
    let metrics = CampaignMetrics::new(2.1_f64.to_bits())
        .expect("valid metrics")
        .with_perplexity(8.2_f64.to_bits())
        .expect("valid perplexity");
    let wrong_calibration = CampaignPoint::new(
        source,
        model_id(2),
        measured(b"candidate-a").expect("package"),
        recipe(9),
        calibration([9; 32]).id(),
        evaluation.id(),
        metrics.clone(),
    );
    assert!(matches!(
        ledger.add(wrong_calibration),
        Err(CampaignError::ProvenanceMismatch("calibration"))
    ));

    let package = measured(b"candidate-b").expect("package");
    let point = CampaignPoint::new(
        source,
        model_id(3),
        package,
        recipe(8),
        calibration_provenance.id(),
        evaluation.id(),
        metrics,
    );
    ledger.add(point.clone()).expect("first package");
    assert!(matches!(
        ledger.add(point),
        Err(CampaignError::DuplicatePackage(id)) if id == package.id()
    ));
}

#[test]
fn pareto_frontier_keeps_measured_storage_quality_tradeoffs() {
    let source = model_id(1);
    let calibration = calibration([1; 32]);
    let evaluation = evaluation();
    let mut ledger = CampaignLedger::new(source, calibration.clone(), evaluation.clone());
    let make_point = |seed: u8, package_len: usize, perplexity: f64| {
        let package_bytes = vec![seed; package_len];
        CampaignPoint::new(
            source,
            model_id(seed),
            measured(&package_bytes).expect("package"),
            recipe(seed),
            calibration.id(),
            evaluation.id(),
            CampaignMetrics::new(2.0_f64.to_bits())
                .expect("metrics")
                .with_perplexity(perplexity.to_bits())
                .expect("perplexity"),
        )
    };
    let compact = make_point(2, 7, 10.5);
    let accurate = make_point(3, 8, 9.8);
    let dominated = make_point(4, 10, 11.0);
    let fp_sized = make_point(5, 54, 10.0);
    for point in [fp_sized, dominated, accurate.clone(), compact.clone()] {
        ledger.add(point).expect("add point");
    }

    let frontier = ledger
        .pareto_frontier(&[
            CampaignObjective::PhysicalBytes,
            CampaignObjective::Perplexity,
        ])
        .expect("frontier");
    assert_eq!(
        frontier
            .iter()
            .map(|point| point.package_id())
            .collect::<Vec<_>>(),
        vec![compact.package_id(), accurate.package_id()]
    );
}

#[test]
fn campaign_record_identity_is_insertion_order_independent() {
    let source = model_id(1);
    let calibration = calibration([1; 32]);
    let evaluation = evaluation();
    let make_point = |seed: u8| {
        let package_bytes = vec![seed; usize::from(seed)];
        CampaignPoint::new(
            source,
            model_id(seed),
            measured(&package_bytes).expect("package"),
            recipe(seed),
            calibration.id(),
            evaluation.id(),
            CampaignMetrics::new(2.0_f64.to_bits())
                .expect("metrics")
                .with_perplexity((10.0 - f64::from(seed)).to_bits())
                .expect("perplexity"),
        )
    };
    let a = make_point(2);
    let b = make_point(3);
    let mut forward = CampaignLedger::new(source, calibration.clone(), evaluation.clone());
    forward.add(a.clone()).expect("add a");
    forward.add(b.clone()).expect("add b");
    let mut reverse = CampaignLedger::new(source, calibration, evaluation);
    reverse.add(b).expect("add b");
    reverse.add(a).expect("add a");

    let forward_bytes = forward.canonical_bytes().expect("encode");
    assert_eq!(forward_bytes[4], LEGACY_CAMPAIGN_VERSION);
    assert_eq!(forward_bytes, reverse.canonical_bytes().expect("encode"));
    assert_eq!(forward.id().expect("id"), reverse.id().expect("id"));
    let digest = blake3::derive_key("tritium campaign ledger id v1", &forward_bytes);
    let hex: String = digest.iter().map(|byte| format!("{byte:02x}")).collect();
    assert_eq!(
        forward.id().expect("id").to_text(),
        format!("trl1_{hex}")
    );
}

fn runtime(payload_bytes: u64, scale_bytes: u64, planes: u64) -> RuntimeLedger {
    RuntimeLedger {
        payload_bytes,
        scale_bytes,
        allocation_map_bytes: 0,
        rank_prefix_bytes: 0,
        allocation_map_bits: 2,
        allocation_map_embedded_bits: 2,
        dense_shadow_bytes: 0,
        allocation_tiles: 1,
        present_planes: planes,
        steady_resident_bytes: payload_bytes + scale_bytes,
    }
}

fn one_tile_facts() -> PackageFacts {
    PackageFacts {
        tensors: vec![TensorFacts {
            logical_coefficients: 256,
            tiles: vec![TileFacts { logical_len: 256, planes: 1 }],
            runtime: runtime(64, 4, 1),
        }],
        ledger: PackageLedger {
            payload_bytes: 64,
            scales_bytes: 4,
            maps_bytes: 0,
            allocation_map_bits: 2,
            allocation_map_embedded_bits: 2,
            headers_bytes: 40,
            transform_bytes: 0,
            padding_bytes: 20,
        },
        runtime: runtime(64, 4, 1),
    }
}

#[test]
fn salt_v2_report_is_derived_from_canonical_package_and_runtime_ledgers() {
    let facts = one_tile_facts();
    let package = measured(&[0; 128]).expect("package");
    let report = PhysicalSizeReport::from_package_facts(package, &facts, 300, None, None)
        .expect("derived report");
    let receipts = [runtime(64, 4, 1)];
    let receipt_report =
        PhysicalSizeReport::from_package_facts(package, &facts, 300, Some(&receipts), Some(7))
            .expect("receipt-checked report");

    assert_eq!(report.core_parameter_count(), 256);
    assert_eq!(report.model_parameter_count(), 300);
    assert_eq!(report.logical_core_trits().get(), 256);
    assert_eq!(report.package().physical_bytes(), 128);
    assert_eq!(report.serialized().allocation_map_bits(), 2);
    assert_eq!(report.serialized().allocation_map_embedded_bits(), 2);
    assert_eq!(report.resident().map_bits(), 2);
    assert_eq!(report.resident().map_embedded_bits(), 2);
    assert_eq!(report.resident().descriptor_bytes(), 0);
    assert_eq!(report.peak_resident_bytes(), None);
    assert_eq!(
        receipt_report.steady_resident_bytes(),
        report.steady_resident_bytes()
    );
    assert_eq!(receipt_report.peak_resident_bytes(), Some(75));

    let wrong = [runtime(128, 8, 2)];
    assert_eq!(
        PhysicalSizeReport::from_package_facts(package, &facts, 300, Some(&wrong), None),
        Err(CampaignError::RuntimeAllocationMismatch {
            tensor_index: 0,
            component: "payload bytes",
            expected: 64,
            supplied: 128,
        })
    );
    assert_eq!(
        PhysicalSizeReport::from_package_facts(package, &facts, 300, Some(&[]), None),
        Err(CampaignError::RuntimeAllocationReceiptCountMismatch {
            expected: 1,
            supplied: 0,
        })
    );
}

#[test]
fn package_facts_overflow_is_typed() {
    let package = measured(&[0; 128]).expect("package");
    let mut many_parameters = one_tile_facts();
    many_parameters.tensors.push(TensorFacts {
        logical_coefficients: u64::MAX,
        tiles: vec![],
        runtime: runtime(0, 0, 0),
    });
    assert_eq!(
        PhysicalSizeReport::from_package_facts(package, &many_parameters, 300, None, None),
        Err(CampaignError::PhysicalSizeOverflow("core parameter count"))
    );
    let mut many_trits = one_tile_facts();
    many_trits.tensors[0].tiles[0].planes = u64::MAX;
    assert_eq!(
        PhysicalSizeReport::from_package_facts(package, &many_trits, 300, None, None),
        Err(CampaignError::PhysicalSizeOverflow("logical core trits"))
    );
    let mut no_trits = one_tile_facts();
    no_trits.tensors[0].tiles.clear();
    assert_eq!(
        PhysicalSizeReport::from_package_facts(package, &no_trits, 300, None, None),
        Err(CampaignError::ZeroValue("logical_core_trits"))
    );
}

#[test]
fn remeasured_package_is_compared_by_identity_and_length() {
    let original = measured(b"exact-package").expect("package");
    assert_eq!(original.verify(original), Ok(()));
    let changed = measured(b"exact-packagf").expect("package");
    assert_eq!(
        original.verify(changed),
        Err(CampaignError::PackageMeasurementMismatch {
            expected_id: original.id(),
            actual_id: changed.id(),
            expected_bytes: 13,
            actual_bytes: 13,
        })
    );
}

#[test]
fn provenance_identities_are_derived_from_their_canonical_bytes() {
    let record = calibration([1; 32]);
    assert_eq!(
        record.id().as_bytes(),
        &blake3::derive_key(
            "tritium calibration provenance id v1",
            &record.canonical_bytes()
        )
    );
    assert!(record.id().to_text().starts_with("trc1_"));
    let suite = evaluation();
    assert_eq!(
        suite.id().as_bytes(),
        &blake3::derive_key(
            "tritium evaluation provenance id v1",
            &suite.canonical_bytes()
        )
    );
    assert!(suite.id().to_text().starts_with("tre1_"));
    let steps = recipe(3);
    assert_eq!(
        steps.id().as_bytes(),
        &blake3::derive_key("tritium conversion recipe id v1", &steps.canonical_bytes())
    );
}

#[test]
fn provenance_rejects_empty_and_zero_fields() {
    assert_eq!(
        CalibrationProvenance::new("", "r", [0; 32], [0; 32], 1, 1, 1, 0),
        Err(CampaignError::EmptyField("dataset"))
    );
    assert_eq!(
        CalibrationProvenance::new("d", "r", [0; 32], [0; 32], 0, 1, 1, 0),
        Err(CampaignError::ZeroValue("sample_count"))
    );
    assert_eq!(
        EvaluationProvenance::new("s", "", [0; 32], [0; 32], [0; 32], 1, 1),
        Err(CampaignError::EmptyField("revision"))
    );
}

#[test]
fn frontier_selection_rejects_bad_objective_lists() {
    let source = model_id(1);
    let calibration = calibration([1; 32]);
    let evaluation = evaluation();
    let mut ledger = CampaignLedger::new(source, calibration.clone(), evaluation.clone());
    let package = measured(b"one").expect("package");
    ledger
        .add(CampaignPoint::new(
            source,
            model_id(2),
            package,
            recipe(2),
            calibration.id(),
            evaluation.id(),
            CampaignMetrics::new(2.0_f64.to_bits()).expect("metrics"),
        ))
        .expect("point");
    assert_eq!(
        ledger.pareto_frontier(&[]).map(|front| front.len()),
        Err(CampaignError::EmptyObjectives)
    );
    assert_eq!(
        ledger
            .pareto_frontier(&[
                CampaignObjective::PhysicalBytes,
                CampaignObjective::PhysicalBytes
            ])
            .map(|front| front.len()),
        Err(CampaignError::DuplicateObjective(
            CampaignObjective::PhysicalBytes
        ))
    );
    assert_eq!(
        ledger
            .pareto_frontier(&[CampaignObjective::Perplexity])
            .map(|front| front.len()),
        Err(CampaignError::MissingObjective {
            package_id: package.id(),
            objective: CampaignObjective::Perplexity,
        })
    );
    assert_eq!(
        ledger
            .pareto_frontier(&[CampaignObjective::PhysicalBytes])
            .map(|front| front.len()),
        Ok(1)
    );
}

#[test]
fn metrics_reject_values_outside_their_range() {
    assert_eq!(
        CampaignMetrics::new(0.0_f64.to_bits()),
        Err(CampaignError::InvalidMetric("logical_bpw"))
    );
    assert_eq!(
        CampaignMetrics::new(f64::NAN.to_bits()),
        Err(CampaignError::InvalidMetric("logical_bpw"))
    );
    let metrics = CampaignMetrics::new(2.0_f64.to_bits()).expect("metrics");
    assert_eq!(
        metrics.with_perplexity(f64::INFINITY.to_bits()),
        Err(CampaignError::InvalidMetric("perplexity"))
    );
    assert_eq!(
        metrics.with_reconstruction_mse((-1.0_f64).to_bits()),
        Err(CampaignError::InvalidMetric("reconstruction_mse"))
    );
    assert_eq!(
        metrics.with_peak_vram_bytes(0),
        Err(CampaignError::InvalidMetric("peak_vram_bytes"))
    );
}

#[test]
fn a_report_needs_a_positive_finite_logical_rate() {
    let report = simple_physical_report(b"physical-size", 64, 80, 8, 2, 3);
    let metrics = CampaignMetrics::new(2.0_f64.to_bits()).expect("metrics");
    for rate in [f64::NAN, f64::INFINITY, 0.0, -0.0, -1.5] {
        assert_eq!(
            metrics.with_physical_size_report(report, rate.to_bits()),
            Err(CampaignError::InvalidMetric("logical_bpw"))
        );
    }
    let attached = metrics
        .with_physical_size_report(report, bpw_bits(report))
        .expect("report");
    assert_eq!(attached.logical_bpw(), bpw_bits(report));
}
