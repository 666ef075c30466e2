use tritium_quantize::coverage_schedule::{
    classify_tensor, ClassificationFailure, Qwen35LanguageLayerKind, Qwen35TensorRole,
    Qwen35TensorScope,
};
use tritium_quantize::qwen35_coverage::{
    Qwen35CoverageDisposition, Qwen35CoverageError, Qwen35CoverageManifest, Qwen35SourceDtype,
    Qwen35TensorMetadata, EXPECTED_METADATA_DIGEST, EXPECTED_METADATA_RECORD_BYTES,
    QWEN36_27B_COVERAGE_REVISION,
};

struct Tensor {
    name: String,
    dtype: String,
    shape: Vec<u64>,
}

/// Every tensor name of the pinned release.
fn names() -> Vec<String> {
    let mut names: Vec<String> = [
        "lm_head.weight",
        "model.language_model.embed_tokens.weight",
        "model.language_model.norm.weight",
        "mtp.fc.weight",
        "mtp.layers.0.input_layernorm.weight",
        "mtp.layers.0.post_attention_layernorm.weight",
        "mtp.norm.weight",
        "mtp.pre_fc_norm_embedding.weight",
        "mtp.pre_fc_norm_hidden.weight",
        "mtp.layers.0.mlp.down_proj.weight",
        "mtp.layers.0.mlp.gate_proj.weight",
        "mtp.layers.0.mlp.up_proj.weight",
        "mtp.layers.0.self_attn.k_norm.weight",
        "mtp.layers.0.self_attn.q_norm.weight",
        "mtp.layers.0.self_attn.k_proj.weight",
        "mtp.layers.0.self_attn.v_proj.weight",
        "mtp.layers.0.self_attn.o_proj.weight",
        "mtp.layers.0.self_attn.q_proj.weight",
        "model.visual.patch_embed.proj.weight",
        "model.visual.patch_embed.proj.bias",
        "model.visual.pos_embed.weight",
        "model.visual.merger.linear_fc1.bias",
        "model.visual.merger.linear_fc1.weight",
        "model.visual.merger.linear_fc2.bias",
        "model.visual.merger.linear_fc2.weight",
        "model.visual.merger.norm.bias",
        "model.visual.merger.norm.weight",
    ]
    .iter()
    .map(|name| name.to_string())
    .collect();
    for layer in 0..64 {
        let mut suffixes = vec![
            "input_layernorm.weight",
            "post_attention_layernorm.weight",
            "mlp.down_proj.weight",
            "mlp.gate_proj.weight",
            "mlp.up_proj.weight",
        ];
        if layer % 4 == 3 {
            suffixes.extend([
                "self_attn.k_norm.weight",
                "self_attn.q_norm.weight",
                "self_attn.k_proj.weight",
                "self_attn.v_proj.weight",
                "self_attn.o_proj.weight",
                "self_attn.q_proj.weight",
            ]);
        } else {
            suffixes.extend([
                "linear_attn.A_log",
                "linear_attn.dt_bias",
                "linear_attn.conv1d.weight",
                "linear_attn.in_proj_a.weight",
                "linear_attn.in_proj_b.weight",
                "linear_attn.in_proj_qkv.weight",
                "linear_attn.in_proj_z.weight",
                "linear_attn.norm.weight",
                "linear_attn.out_proj.weight",
            ]);
        }
        for suffix in suffixes {
            names.push(format!("model.language_model.layers.{layer}.{suffix}"));
        }
    }
    for block in 0..27 {
        for suffix in [
            "attn.proj.bias",
            "attn.proj.weight",
            "attn.qkv.bias",
            "attn.qkv.weight",
            "mlp.linear_fc1.bias",
            "mlp.linear_fc1.weight",
            "mlp.linear_fc2.bias",
            "mlp.linear_fc2.weight",
            "norm1.bias",
            "norm1.weight",
            "norm2.bias",
            "norm2.weight",
        ] {
            names.push(format!("model.visual.blocks.{block}.{suffix}"));
        }
    }
    names
}

fn release() -> Vec<Tensor> {
    names()
        .into_iter()
        .map(|name| {
            let shape = match classify_tensor(&name) {
                Ok(expected) => expected.shape,
                Err(_) => panic!("unscheduled tensor {name}"),
            };
            Tensor {
                name,
                dtype: String::from("BF16"),
                shape,
            }
        })
        .collect()
}

fn manifest(tensors: &[Tensor]) -> Result<Qwen35CoverageManifest, Qwen35CoverageError> {
    let metadata: Vec<Qwen35TensorMetadata<'_>> = tensors
        .iter()
        .map(|tensor| Qwen35TensorMetadata::new(&tensor.name, &tensor.dtype, &tensor.shape))
        .collect();
    Qwen35CoverageManifest::from_metadata(QWEN36_27B_COVERAGE_REVISION, &metadata)
}

#[test]
fn the_release_metadata_is_accepted_and_pinned() {
    let tensors = release();
    assert_eq!(tensors.len(), 1_199);
    let covered = manifest(&tensors).expect("release metadata");
    assert_eq!(covered.metadata_digest(), &EXPECTED_METADATA_DIGEST);
    assert_eq!(
        covered.metadata_record_bytes(),
        EXPECTED_METADATA_RECORD_BYTES
    );
    assert_eq!(covered.entries().len(), 1_199);
    let sorted: Vec<&str> = covered.entries().iter().map(|entry| entry.name()).collect();
    assert!(sorted.windows(2).all(|pair| pair[0] < pair[1]));
    let summary = covered.summary();
    assert_eq!(summary.total().tensors(), 1_199);
    assert_eq!(summary.language().tensors(), 851);
    assert_eq!(summary.mtp().tensors(), 15);
    assert_eq!(summary.vision().tensors(), 333);
    assert_eq!(
        summary.included().tensors() + summary.excluded_future_vision().tensors(),
        1_199
    );
    assert_eq!(
        summary.additive_ternary().coefficients()
            + summary.preserve_source().coefficients()
            + summary.excluded_future_vision().coefficients(),
        summary.total().coefficients()
    );
    assert_eq!(
        covered.expected_source_payload_bytes(),
        summary.total().coefficients() * 2
    );
    let head = &covered.entries()[0];
    assert_eq!(head.name(), "lm_head.weight");
    assert_eq!(head.shape(), &[248_320, 5_120]);
    assert_eq!(head.coefficients(), 248_320 * 5_120);
    assert_eq!(head.dtype(), Qwen35SourceDtype::Bfloat16);
    assert_eq!(head.scope(), Qwen35TensorScope::Language);
    assert_eq!(head.role(), Qwen35TensorRole::OutputHead);
}

#[test]
fn input_order_does_not_change_the_manifest() {
    let mut tensors = release();
    let forward = manifest(&tensors).expect("forward");
    tensors.reverse();
    let reverse = manifest(&tensors).expect("reverse");
    assert_eq!(
        forward.canonical_policy_bytes(),
        reverse.canonical_policy_bytes()
    );
    assert_eq!(forward.policy_digest(), reverse.policy_digest());
}

#[test]
fn policies_reopen_and_only_canonical_bytes_do() {
    let covered = manifest(&release()).expect("manifest");
    let bytes = covered.canonical_policy_bytes();
    assert_eq!(&bytes[..8], b"TQ36COV\0");
    assert_eq!(bytes[8], 1);
    assert_eq!(
        covered.policy_digest(),
        blake3::derive_key("tritium qwen3.6 coverage policy v1", &bytes)
    );
    let reopened =
        Qwen35CoverageManifest::from_canonical_policy_bytes(&bytes).expect("canonical policy");
    assert_eq!(reopened.canonical_policy_bytes(), bytes);
    assert_eq!(reopened.summary(), covered.summary());

    let mut version = bytes.clone();
    version[8] = 2;
    assert!(matches!(
        Qwen35CoverageManifest::from_canonical_policy_bytes(&version),
        Err(Qwen35CoverageError::UnsupportedCanonicalPolicyVersion(2))
    ));
    let mut magic = bytes.clone();
    magic[0] ^= 1;
    assert!(Qwen35CoverageManifest::from_canonical_policy_bytes(&magic).is_err());
    assert!(
        Qwen35CoverageManifest::from_canonical_policy_bytes(&bytes[..bytes.len() - 1]).is_err()
    );
    let mut trailing = bytes;
    trailing.push(0);
    assert!(Qwen35CoverageManifest::from_canonical_policy_bytes(&trailing).is_err());
}

#[test]
fn altered_metadata_is_refused() {
    assert!(matches!(
        Qwen35CoverageManifest::from_metadata("main", &[]),
        Err(Qwen35CoverageError::WrongRevision)
    ));
    assert!(matches!(
        manifest(&[]),
        Err(Qwen35CoverageError::MissingTensorMetadata {
            expected: 1_199,
            actual: 0
        })
    ));
    let mut unknown = release();
    unknown[0].name = String::from("model.extra.weight");
    assert!(matches!(
        manifest(&unknown),
        Err(Qwen35CoverageError::UnknownTensor(name)) if name == "model.extra.weight"
    ));
    let mut empty = release();
    empty[0].name = String::new();
    assert!(matches!(
        manifest(&empty),
        Err(Qwen35CoverageError::EmptyTensorName)
    ));
    let mut dtype = release();
    dtype[3].dtype = String::from("F32");
    assert!(matches!(
        manifest(&dtype),
        Err(Qwen35CoverageError::UnsupportedDtype(_))
    ));
    let mut rank = release();
    rank[0].shape.push(1);
    assert!(matches!(
        manifest(&rank),
        Err(Qwen35CoverageError::WrongRank {
            expected: 2,
            actual: 3,
            ..
        })
    ));
    let mut zero = release();
    zero[0].shape[1] = 0;
    assert!(matches!(
        manifest(&zero),
        Err(Qwen35CoverageError::ZeroDimension { dimension: 1, .. })
    ));
    let mut overflow = release();
    overflow[0].shape = vec![u64::MAX, 2];
    assert!(matches!(
        manifest(&overflow),
        Err(Qwen35CoverageError::CoefficientOverflow(_))
    ));
    let mut shape = release();
    shape[0].shape = vec![248_320, 5_121];
    assert!(matches!(
        manifest(&shape),
        Err(Qwen35CoverageError::WrongShape(_))
    ));
    let mut duplicate = release();
    duplicate[1].name = duplicate[0].name.clone();
    assert!(matches!(
        manifest(&duplicate),
        Err(Qwen35CoverageError::DuplicateTensor(name)) if name == "lm_head.weight"
    ));
    let mut long = release();
    long[0].name = "x".repeat(129);
    assert!(matches!(
        manifest(&long),
        Err(Qwen35CoverageError::MetadataFieldTooLong { maximum: 128, .. })
    ));
    let mut many = release();
    many.push(Tensor {
        name: String::from("lm_head.weight"),
        dtype: String::from("BF16"),
        shape: vec![248_320, 5_120],
    });
    assert!(matches!(
        manifest(&many),
        Err(Qwen35CoverageError::TooManyTensors { maximum: 1_199 })
    ));
}

#[test]
fn layer_kinds_alternate_every_fourth_layer() {
    assert!(matches!(
        classify_tensor("model.language_model.layers.2.self_attn.q_proj.weight"),
        Err(ClassificationFailure::WrongLayerKind {
            layer: 2,
            expected: Qwen35LanguageLayerKind::DeltaNet
        })
    ));
    assert!(matches!(
        classify_tensor("model.language_model.layers.3.linear_attn.A_log"),
        Err(ClassificationFailure::WrongLayerKind {
            layer: 3,
            expected: Qwen35LanguageLayerKind::FullAttention
        })
    ));
    assert!(classify_tensor("model.language_model.layers.64.mlp.up_proj.weight").is_err());
    assert!(classify_tensor("model.visual.blocks.27.norm1.bias").is_err());
}

#[test]
fn vision_is_excluded_and_norms_are_preserved() {
    let covered = manifest(&release()).expect("manifest");
    for entry in covered.entries() {
        let disposition = entry.disposition();
        if entry.name().starts_with("model.visual.") {
            assert_eq!(
                disposition,
                Qwen35CoverageDisposition::ExcludedFutureVision
            );
        } else if entry.role() == Qwen35TensorRole::Normalization {
            assert_eq!(disposition, Qwen35CoverageDisposition::PreserveSource);
        } else if entry.role() == Qwen35TensorRole::MlpProjection {
            assert_eq!(disposition, Qwen35CoverageDisposition::AdditiveTernary);
        }
    }
}
