use tritium_quantize::water_filling::{
    check_groups, AllocError, Allocation, Candidate, CandidateQueue, PlaneFilling,
};

const TRIT_BITS: f64 = 1.584_962_500_721_156_2;

#[derive(Clone, Copy)]
struct GroupCurve<'a> {
    curve: &'a [f64],
    weights: usize,
    sensitivity: f64,
}

#[derive(Clone, Copy)]
struct AllocConfig {
    t_min: usize,
    t_max: usize,
    budget_bits: f64,
}

impl AllocConfig {
    fn from_bpw(target_bpw: f64, total_weights: usize, t_min: usize, t_max: usize) -> Self {
        AllocConfig {
            t_min,
            t_max,
            budget_bits: target_bpw * total_weights as f64,
        }
    }
}

impl Default for AllocConfig {
    fn default() -> Self {
        AllocConfig {
            t_min: 1,
            t_max: 3,
            budget_bits: f64::INFINITY,
        }
    }
}

fn curve_at(curve: &[f64], planes: usize) -> f64 {
    curve[planes.min(curve.len() - 1)]
}

/// Drives a filling with binary64 gains under a bit budget.
fn allocate_with_curves(
    groups: &[GroupCurve<'_>],
    config: &AllocConfig,
) -> Result<Allocation, AllocError> {
    let sensitivities: Vec<u64> = groups
        .iter()
        .map(|group| group.sensitivity.to_bits())
        .collect();
    check_groups(config.t_min, config.t_max, &sensitivities)?;
    let bits: Vec<f64> = groups
        .iter()
        .map(|group| group.weights as f64 * TRIT_BITS)
        .collect();
    let next_gain = |group: usize, planes: usize| -> Option<u64> {
        let curve = groups[group].curve;
        let drop = curve_at(curve, planes) - curve_at(curve, planes + 1);
        if drop <= 0.0 {
            return None;
        }
        Some((groups[group].sensitivity * drop / bits[group]).to_bits())
    };
    let gains: Vec<Option<u64>> = (0..groups.len())
        .map(|group| next_gain(group, config.t_min))
        .collect();
    let mut filling = PlaneFilling::new(config.t_min, config.t_max, &gains);
    let mut spent = bits.iter().sum::<f64>() * config.t_min as f64;
    while let Some(group) = filling.next_group() {
        if spent + bits[group] > config.budget_bits {
            continue;
        }
        spent += bits[group];
        let planes = filling.plane_counts()[group] + 1;
        filling.grant(group, next_gain(group, planes));
    }
    Ok(filling.finish())
}

#[test]
fn invalid_sensitivity_errors() {
    let curve = [5.0, 1.0];
    let with = |sensitivity: f64| {
        allocate_with_curves(
            &[GroupCurve {
                curve: &curve,
                weights: 2,
                sensitivity,
            }],
            &AllocConfig::default(),
        )
    };
    // A negative sensitivity would spend budget worsening the objective.
    assert!(matches!(
        with(-1.0),
        Err(AllocError::InvalidSensitivity { group: 0, .. })
    ));
    // A NaN would poison the greedy selection.
    assert!(matches!(
        with(f64::NAN),
        Err(AllocError::InvalidSensitivity { group: 0, .. })
    ));
}

#[test]
fn bad_range_errors() {
    let curve = [1.0, 0.0];
    let err = allocate_with_curves(
        &[GroupCurve {
            curve: &curve,
            weights: 1,
            sensitivity: 1.0,
        }],
        &AllocConfig {
            t_min: 3,
            t_max: 2,
            budget_bits: 100.0,
        },
    );
    assert!(matches!(
        err,
        Err(AllocError::BadRange { t_min: 3, t_max: 2 })
    ));
}

#[test]
fn sensitivity_decides_which_group_gets_the_scarce_plane() {
    // Identical curves ⇒ identical Δerr and identical cost; only `sensitivity` differs.
    let curve = [100.0f64, 40.0, 20.0, 10.0];
    let mk = |s: f64| GroupCurve {
        curve: &curve,
        weights: 128,
        sensitivity: s,
    };
    // Base (T=1 everywhere) plus exactly one more plane's worth of bits.
    let base = 2.0 * 128.0 * TRIT_BITS;
    let cfg = AllocConfig {
        t_min: 1,
        t_max: 3,
        budget_bits: base + 128.0 * TRIT_BITS,
    };
    let got = allocate_with_curves(&[mk(1.0), mk(9.0)], &cfg).expect("allocate");
    assert_eq!(
        got.plane_counts,
        vec![1, 2],
        "the scarce plane must go to the more sensitive group"
    );
    // ... and it must flip when the sensitivity does, so this is not a group-order artifact.
    let flipped = allocate_with_curves(&[mk(9.0), mk(1.0)], &cfg).expect("allocate");
    assert_eq!(flipped.plane_counts, vec![2, 1]);
}

#[test]
fn flat_curves_never_take_a_plane() {
    let flat = [50.0f64, 50.0, 50.0, 50.0];
    let useful = [50.0f64, 10.0, 5.0, 1.0];
    let cfg = AllocConfig {
        t_min: 1,
        t_max: 3,
        budget_bits: f64::INFINITY,
    };
    let got = allocate_with_curves(
        &[
            GroupCurve {
                curve: &flat,
                weights: 64,
                sensitivity: 1.0,
            },
            GroupCurve {
                curve: &useful,
                weights: 64,
                sensitivity: 1.0,
            },
        ],
        &cfg,
    )
    .expect("allocate");
    assert_eq!(got.plane_counts, vec![1, 3]);
}

fn allocate_reference(groups: &[GroupCurve<'_>], cfg: &AllocConfig) -> Allocation {
    let n = groups.len();
    let bits: Vec<f64> = groups
        .iter()
        .map(|g| g.weights as f64 * TRIT_BITS)
        .collect();
    let mut t = vec![cfg.t_min; n];
    let mut spent: f64 = bits.iter().sum::<f64>() * cfg.t_min as f64;
    loop {
        let mut best: Option<(f64, usize)> = None;
        for g in 0..n {
            if t[g] >= cfg.t_max || spent + bits[g] > cfg.budget_bits {
                continue;
            }
            let drop = curve_at(groups[g].curve, t[g]) - curve_at(groups[g].curve, t[g] + 1);
            if drop <= 0.0 {
                continue;
            }
            let gain = groups[g].sensitivity * drop / bits[g];
            if best.is_none_or(|(b, _)| gain > b) {
                best = Some((gain, g));
            }
        }
        match best {
            Some((_, g)) => {
                t[g] += 1;
                spent += bits[g];
            }
            None => break,
        }
    }
    Allocation { plane_counts: t }
}

fn seeded(seed: u64, n: usize) -> Vec<f64> {
    let mut s = seed | 1;
    (0..n)
        .map(|_| {
            s ^= s << 13;
            s ^= s >> 7;
            s ^= s << 17;
            (s % 10_000) as f64 / 10_000.0
        })
        .collect()
}

#[test]
fn heap_water_filling_matches_the_linear_reference() {
    for seed in 0..24u64 {
        let n = 3 + (seed as usize * 7) % 40;
        let t_max = 1 + (seed as usize) % 5;
        let raw = seeded(seed * 31 + 1, n * (t_max + 1));
        let sens = seeded(seed * 17 + 3, n);
        // Monotone non-increasing curves, with deliberate flat runs (equal consecutive values)
        // so the zero-gain skip is exercised, and deliberate duplicates across groups so ties are.
        let curves: Vec<Vec<f64>> = (0..n)
            .map(|g| {
                let mut c = vec![100.0f64];
                for k in 1..=t_max {
                    let step = if (g + k) % 3 == 0 {
                        0.0 // flat run
                    } else {
                        raw[g * (t_max + 1) + k] * 20.0
                    };
                    c.push((c[k - 1] - step).max(0.0));
                }
                c
            })
            .collect();
        let sizes: Vec<usize> = (0..n).map(|g| if g % 4 == 0 { 64 } else { 128 }).collect();
        let groups: Vec<GroupCurve<'_>> = (0..n)
            .map(|g| GroupCurve {
                curve: &curves[g],
                weights: sizes[g],
                // Quantised so ties genuinely occur rather than being broken by float noise.
                sensitivity: (sens[g] * 4.0).round().max(1.0),
            })
            .collect();

        let total: usize = sizes.iter().sum();
        for bpw_mult in [1.0f64, 1.7, 2.5, 100.0] {
            let cfg = AllocConfig::from_bpw(TRIT_BITS * bpw_mult, total, 1, t_max);
            let want = allocate_reference(&groups, &cfg);
            let got = allocate_with_curves(&groups, &cfg).expect("allocate");
            assert_eq!(
                got.plane_counts, want.plane_counts,
                "seed {seed} bpw_mult {bpw_mult}: heap diverged from the linear reference"
            );
        }
    }
}

#[test]
fn allocates_over_a_million_groups_quickly() {
    let n = 1_000_000usize;
    let curve = [100.0f64, 40.0, 18.0, 9.0];
    let groups: Vec<GroupCurve<'_>> = (0..n)
        .map(|g| GroupCurve {
            curve: &curve,
            weights: 128,
            // Vary sensitivity so the heap actually reorders rather than running in index order.
            sensitivity: 1.0 + (g % 97) as f64,
        })
        .collect();
    let cfg = AllocConfig::from_bpw(TRIT_BITS * 3.0, n * 128, 1, 3);

    let t0 = std::time::Instant::now();
    let alloc = allocate_with_curves(&groups, &cfg).expect("allocate");
    let secs = t0.elapsed().as_secs_f64();

    assert_eq!(alloc.plane_counts.len(), n);
    let mean: f64 = alloc.plane_counts.iter().sum::<usize>() as f64 / n as f64;
    assert!(
        (2.5..=3.0).contains(&mean),
        "a T=3 budget should be nearly exhausted, got mean T {mean:.3}"
    );
    // Generous: the linear scan would need hours here.
    assert!(secs < 30.0, "1M-group allocation took {secs:.1}s");
}

#[test]
fn queue_serves_the_largest_gain_and_then_the_lowest_group() {
    let mut queue = CandidateQueue::new();
    for (gain, group) in [(1.0_f64, 4), (3.0, 7), (3.0, 2), (0.5, 0), (-1.0, 9), (3.0, 5)] {
        queue.push(Candidate {
            gain: gain.to_bits(),
            group,
        });
    }
    let mut served = Vec::new();
    while let Some(candidate) = queue.pop() {
        served.push((f64::from_bits(candidate.gain), candidate.group));
    }
    assert_eq!(
        served,
        vec![(3.0, 2), (3.0, 5), (3.0, 7), (1.0, 4), (0.5, 0), (-1.0, 9)]
    );
}

#[test]
fn filling_never_passes_the_cap() {
    let gain = Some(1.0_f64.to_bits());
    let mut filling = PlaneFilling::new(1, 3, &[gain, None, gain]);
    let mut order = Vec::new();
    while let Some(group) = filling.next_group() {
        order.push(group);
        filling.grant(group, gain);
    }
    assert_eq!(order, vec![0, 0, 2, 2]);
    assert_eq!(filling.plane_counts(), &[3, 1, 3]);
    assert_eq!(filling.finish().plane_counts, vec![3, 1, 3]);
}
