use tritium_quantize::joint_fit::{
    canonicalize, check_assignment, check_dense, check_fit, select_start, stops, FitProgress,
    JointFitConfig, JointFitError, JointFitStartKind, JointFitUpdatePhase, MetricInput,
    ScalePrecision, ScaleSolveTelemetry,
};
use tritium_quantize::ternary::{
    assigned_planes, best_state, codes_of_state, improving_state, quotient_trit, state_count,
};

enum Curvature<'a> {
    Identity,
    Diagonal(&'a [f32]),
}

fn bits(values: &[f32]) -> Vec<u32> {
    values.iter().map(|value| value.to_bits()).collect()
}

fn check(
    weights: &[f32],
    curvature: Curvature<'_>,
    config: JointFitConfig,
) -> Result<(), JointFitError> {
    match curvature {
        Curvature::Identity => check_fit(&bits(weights), MetricInput::Identity, &config),
        Curvature::Diagonal(values) => check_fit(
            &bits(weights),
            MetricInput::Diagonal(&bits(values)),
            &config,
        ),
    }
}

fn reconstruct(scales: &[f32], trits: &[Vec<i8>], len: usize) -> Vec<f32> {
    let mut out = vec![0.0; len];
    for (scale, plane) in scales.iter().zip(trits) {
        for (value, trit) in out.iter_mut().zip(plane) {
            *value += *scale * f32::from(*trit);
        }
    }
    out
}

fn squared_error(weights: &[f32], reconstruction: &[f32]) -> f64 {
    weights
        .iter()
        .zip(reconstruction)
        .map(|(weight, fitted)| {
            let error = f64::from(*weight) - f64::from(*fitted);
            error * error
        })
        .sum()
}

fn exact_ternary_assignment(
    weights: &[f32],
    scales: &[f32],
) -> Result<Vec<Vec<i8>>, JointFitError> {
    check_assignment(&bits(weights), &bits(scales))?;
    let chosen: Vec<Option<usize>> = weights
        .iter()
        .map(|&weight| {
            let errors: Vec<u64> = (0..state_count(scales.len()))
                .map(|state| {
                    let mut sum = 0.0_f32;
                    for (scale, code) in scales.iter().zip(codes_of_state(state, scales.len())) {
                        sum += *scale * f32::from(code);
                    }
                    let error = f64::from(weight) - f64::from(sum);
                    (error * error).to_bits()
                })
                .collect();
            best_state(&errors)
        })
        .collect();
    Ok(assigned_planes(&chosen, scales.len()))
}

#[test]
fn invalid_configuration_is_rejected() {
    let weights = [1.0_f32, -2.0];

    let zero_planes = check(
        &weights,
        Curvature::Identity,
        JointFitConfig {
            planes: 0,
            ..JointFitConfig::default()
        },
    );
    assert_eq!(
        zero_planes,
        Err(JointFitError::InvalidPlaneCount { got: 0 })
    );

    let too_many_planes = check(
        &weights,
        Curvature::Identity,
        JointFitConfig {
            planes: 4,
            ..JointFitConfig::default()
        },
    );
    assert_eq!(
        too_many_planes,
        Err(JointFitError::InvalidPlaneCount { got: 4 })
    );

    assert_eq!(
        check(&[], Curvature::Identity, JointFitConfig::default()),
        Err(JointFitError::EmptyWeights)
    );
    assert_eq!(
        check(
            &weights,
            Curvature::Identity,
            JointFitConfig {
                max_iterations: 0,
                ..JointFitConfig::default()
            },
        ),
        Err(JointFitError::InvalidMaxIterations)
    );
    assert_eq!(
        check(
            &weights,
            Curvature::Identity,
            JointFitConfig {
                ridge: 0.0_f64.to_bits(),
                ..JointFitConfig::default()
            },
        ),
        Err(JointFitError::InvalidRidge)
    );
    assert_eq!(
        check(
            &[1.0, f32::NAN],
            Curvature::Identity,
            JointFitConfig::default(),
        ),
        Err(JointFitError::NonFiniteWeight { index: 1 })
    );
    assert_eq!(
        check(
            &weights,
            Curvature::Diagonal(&[1.0]),
            JointFitConfig::default(),
        ),
        Err(JointFitError::MetricLengthMismatch {
            expected: 2,
            got: 1,
        })
    );
    assert_eq!(
        check(
            &weights,
            Curvature::Diagonal(&[1.0, -1.0]),
            JointFitConfig::default(),
        ),
        Err(JointFitError::InvalidMetric { index: 1 })
    );
    assert_eq!(
        check(
            &weights,
            Curvature::Diagonal(&[0.0, 0.0]),
            JointFitConfig::default(),
        ),
        Err(JointFitError::ZeroMetric)
    );

    assert_eq!(
        check(
            &weights,
            Curvature::Identity,
            JointFitConfig {
                em_restarts: 0,
                ..JointFitConfig::default()
            },
        ),
        Err(JointFitError::InvalidRestartCount)
    );
    assert_eq!(
        check(
            &weights,
            Curvature::Identity,
            JointFitConfig {
                ridge_condition_limit: 1.0_f64.to_bits(),
                ..JointFitConfig::default()
            },
        ),
        Err(JointFitError::InvalidConditionLimit)
    );
}

#[test]
fn exact_assignment_matches_global_exhaustive_oracle() {
    let weights = [0.3_f32, -1.4, 2.1];
    let scales = [1.0_f32, 0.4];
    let got = exact_ternary_assignment(&weights, &scales).expect("valid assignment");
    let got_error = squared_error(&weights, &reconstruct(&scales, &got, weights.len()));

    // Independent global oracle: enumerate all 3^(planes*weights) complete ternary matrices.
    let codes = [-1_i8, 0, 1];
    let state_count = 3_usize.pow((weights.len() * scales.len()) as u32);
    let mut oracle_error = f64::INFINITY;
    for mut state in 0..state_count {
        let mut trits = vec![vec![0_i8; weights.len()]; scales.len()];
        for plane in &mut trits {
            for trit in plane {
                *trit = codes[state % 3];
                state /= 3;
            }
        }
        oracle_error = oracle_error.min(squared_error(
            &weights,
            &reconstruct(&scales, &trits, weights.len()),
        ));
    }

    assert_eq!(got_error.to_bits(), oracle_error.to_bits());
}

#[test]
fn accepted_configuration_passes() {
    assert_eq!(
        check(&[1.0, -2.0], Curvature::Identity, JointFitConfig::default()),
        Ok(())
    );
    assert_eq!(
        check(
            &[1.0, -2.0],
            Curvature::Diagonal(&[0.0, 2.0]),
            JointFitConfig::default()
        ),
        Ok(())
    );
    assert_eq!(JointFitConfig::default().ridge, 1e-8_f64.to_bits());
    assert_eq!(
        JointFitConfig::default().ridge_condition_limit,
        1e6_f64.to_bits()
    );
    assert_eq!(ScalePrecision::default(), ScalePrecision::F32);
    assert_eq!(
        check_fit(
            &bits(&[1.0, 2.0]),
            MetricInput::Dense(3),
            &JointFitConfig::default()
        ),
        Err(JointFitError::DenseMetricDimensionMismatch { expected: 2, got: 3 })
    );
}

#[test]
fn dense_metric_storage_is_validated() {
    let dense = |dimension: usize, values: &[f64]| {
        let patterns: Vec<u64> = values.iter().map(|value| value.to_bits()).collect();
        check_dense(dimension, &patterns)
    };
    assert_eq!(
        dense(0, &[]),
        Err(JointFitError::InvalidDenseMetricDimension)
    );
    assert_eq!(
        dense(2, &[1.0; 3]),
        Err(JointFitError::DenseMetricLengthMismatch { expected: 4, got: 3 })
    );
    assert_eq!(
        dense(2, &[1.0, f64::NAN, f64::NAN, 1.0]),
        Err(JointFitError::NonFiniteDenseMetric { row: 0, col: 1 })
    );
    assert_eq!(dense(2, &[0.0; 4]), Err(JointFitError::ZeroMetric));
    assert_eq!(dense(2, &[6.0, 3.0, 3.0, 6.0]), Ok(()));
}

#[test]
fn assignments_reject_bad_weights_and_scales() {
    assert_eq!(
        exact_ternary_assignment(&[], &[1.0]),
        Err(JointFitError::EmptyWeights)
    );
    assert_eq!(
        exact_ternary_assignment(&[f32::INFINITY], &[1.0]),
        Err(JointFitError::NonFiniteWeight { index: 0 })
    );
    assert_eq!(
        exact_ternary_assignment(&[1.0], &[]),
        Err(JointFitError::InvalidScaleCount { got: 0 })
    );
    assert_eq!(
        exact_ternary_assignment(&[1.0], &[1.0, -0.5]),
        Err(JointFitError::InvalidScale { index: 1 })
    );
}

#[test]
fn quotients_round_half_away_from_zero_and_clamp() {
    let trit = |value: f32| quotient_trit(value.to_bits());
    for value in [0.0_f32, -0.0, 0.49999997, -0.49999997, 1e-40] {
        assert_eq!(trit(value), 0);
    }
    for value in [0.5_f32, 0.75, 1.0, 1.5, 1e30, f32::INFINITY] {
        assert_eq!(trit(value), 1);
        assert_eq!(trit(-value), -1);
    }
    assert_eq!(trit(f32::NAN), 0);
    let mut pattern = 0_u32;
    for _ in 0..100_000 {
        pattern = pattern.wrapping_mul(1_664_525).wrapping_add(1_013_904_223);
        let value = f32::from_bits(pattern);
        assert_eq!(trit(value), value.round().clamp(-1.0, 1.0) as i8);
    }
}

#[test]
fn states_enumerate_every_code_once_with_zero_first() {
    assert_eq!(state_count(3), 27);
    assert_eq!(codes_of_state(0, 3), vec![0, 0, 0]);
    assert_eq!(codes_of_state(1, 2), vec![-1, 0]);
    assert_eq!(codes_of_state(5, 2), vec![1, -1]);
    let mut seen: Vec<Vec<i8>> = (0..27).map(|state| codes_of_state(state, 3)).collect();
    seen.sort();
    seen.dedup();
    assert_eq!(seen.len(), 27);
}

#[test]
fn ties_keep_the_first_state() {
    let patterns: Vec<u64> = [2.0_f64, 1.0, 1.0, f64::NAN]
        .iter()
        .map(|value| value.to_bits())
        .collect();
    assert_eq!(best_state(&patterns), Some(1));
    assert_eq!(best_state(&[f64::NAN.to_bits()]), None);
    assert_eq!(best_state(&[]), None);
}

#[test]
fn solved_planes_lose_their_signs_and_are_ordered() {
    let scales: Vec<u64> = [-0.25_f64, 1.5, -1.5, 0.0]
        .iter()
        .map(|scale| scale.to_bits())
        .collect();
    let trits = vec![vec![1, -1], vec![0, 1], vec![-1, 0], vec![1, 1]];
    let planes = canonicalize(&scales, &trits);
    let ordered: Vec<f64> = planes.scales.iter().map(|bits| f64::from_bits(*bits)).collect();
    assert_eq!(ordered, vec![1.5, 1.5, 0.25, 0.0]);
    assert_eq!(planes.order, vec![1, 2, 0, 3]);
    assert_eq!(
        planes.trits,
        vec![vec![0, 1], vec![1, 0], vec![-1, 1], vec![1, 1]]
    );
}

#[test]
fn accepted_objectives_strictly_decrease() {
    let telemetry = ScaleSolveTelemetry {
        condition_before: 2.0_f64.to_bits(),
        condition_after: 2.0_f64.to_bits(),
        ridge_used: 1e-8_f64.to_bits(),
        adaptive_ridge: false,
    };
    let mut progress =
        FitProgress::start(JointFitStartKind::DeterministicRestart(1), 9.0_f64.to_bits());
    assert!(progress.offer_scales(0, telemetry, 4.0_f64.to_bits()));
    assert!(!progress.offer_assignment(0, 4.0_f64.to_bits()));
    assert!(!progress.offer_scales(1, telemetry, f64::NAN.to_bits()));
    assert!(progress.offer_assignment(1, 0.5_f64.to_bits()));
    assert_eq!(f64::from_bits(progress.objective()), 0.5);
    let (accepted, receipt) = progress.finish();
    let accepted: Vec<f64> = accepted.into_iter().map(f64::from_bits).collect();
    assert_eq!(accepted, vec![9.0, 4.0, 0.5]);
    assert_eq!(f64::from_bits(receipt.initial_objective), 9.0);
    assert_eq!(f64::from_bits(receipt.final_objective), 0.5);
    assert_eq!(receipt.accepted_updates.len(), 2);
    assert_eq!(
        receipt.accepted_updates[1].phase,
        JointFitUpdatePhase::Assignment
    );
    assert_eq!(receipt.scale_solves.len(), 2);
    assert!(receipt.scale_solves[0].accepted);
    assert!(!receipt.scale_solves[1].accepted);
    let fallback = receipt.into_fallback();
    assert_eq!(fallback.kind, JointFitStartKind::LowerPlaneFallback);
    assert_eq!(f64::from_bits(fallback.final_objective), 0.5);
}

#[test]
fn selection_takes_the_first_least_objective() {
    let patterns: Vec<u64> = [3.0_f64, 1.0, 2.0, 1.0]
        .iter()
        .map(|value| value.to_bits())
        .collect();
    assert_eq!(select_start(&patterns), 1);
}

#[test]
fn the_first_greatest_improvement_is_taken() {
    let pick = |deltas: &[f64]| {
        let patterns: Vec<u64> = deltas.iter().map(|delta| delta.to_bits()).collect();
        improving_state(&patterns)
    };
    assert_eq!(pick(&[0.5, f64::NAN, -1.0, -2.0, -2.0, -0.25]), Some(3));
    assert_eq!(pick(&[0.0, -0.0, 1.0, f64::NAN]), None);
    assert_eq!(pick(&[f64::INFINITY, -5e-324]), Some(1));
    assert_eq!(pick(&[]), None);
}

#[test]
fn alternation_stops_without_progress_or_at_the_limit() {
    assert!(stops(false, false, 0, 16));
    assert!(!stops(true, false, 0, 16));
    assert!(!stops(false, true, 14, 16));
    assert!(stops(true, true, 15, 16));
    assert!(stops(true, true, 0, 0));
    assert!(stops(true, true, usize::MAX, usize::MAX));
}
