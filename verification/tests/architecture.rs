use tritium_quantize::architecture::{
    AdapterError, ArchitectureAdapter, ArchitectureFeature, ArchitectureRequirements,
    CapabilitySet, TensorDescriptor, TensorDisposition, TensorRole,
};

struct QwenMoeAdapter;

impl ArchitectureAdapter for QwenMoeAdapter {
    fn requirements(&self) -> ArchitectureRequirements {
        ArchitectureRequirements::new(
            "qwen3.5-moe",
            &[
                ArchitectureFeature::FullAttention,
                ArchitectureFeature::LinearAttention,
                ArchitectureFeature::QkNorm,
                ArchitectureFeature::AttentionOutputGate,
                ArchitectureFeature::MixtureOfExperts,
                ArchitectureFeature::SharedExpert,
            ],
        )
        .expect("valid requirements")
    }

    fn classify_tensor(
        &self,
        tensor: TensorDescriptor<'_>,
    ) -> Result<TensorRole, AdapterError> {
        if tensor.name().contains("experts") {
            Ok(TensorRole::ExpertProjection)
        } else if tensor.name().ends_with("mlp.gate.weight") {
            Ok(TensorRole::Router)
        } else if tensor.name().contains("norm") {
            Ok(TensorRole::Normalization)
        } else if tensor.name().ends_with("proj.weight") {
            Ok(TensorRole::Projection)
        } else {
            Err(AdapterError::UnrecognizedTensor(tensor.name().to_owned()))
        }
    }
}

#[test]
fn missing_capabilities_are_complete_sorted_and_fail_closed() {
    let adapter = QwenMoeAdapter;
    let available = CapabilitySet::new(&[
        ArchitectureFeature::FullAttention,
        ArchitectureFeature::QkNorm,
    ]);
    let gap = available
        .validate(&adapter.requirements())
        .expect_err("partial support must fail");

    assert_eq!(gap.architecture(), "qwen3.5-moe");
    assert_eq!(
        gap.missing(),
        &[
            ArchitectureFeature::LinearAttention,
            ArchitectureFeature::AttentionOutputGate,
            ArchitectureFeature::MixtureOfExperts,
            ArchitectureFeature::SharedExpert,
        ]
    );
}

#[test]
fn tensor_policy_quantizes_only_explicit_matrix_roles() {
    assert_eq!(
        TensorDisposition::for_role(TensorRole::Projection),
        TensorDisposition::AdditiveTernary
    );
    assert_eq!(
        TensorDisposition::for_role(TensorRole::ExpertProjection),
        TensorDisposition::AdditiveTernary
    );
    assert_eq!(
        TensorDisposition::for_role(TensorRole::Router),
        TensorDisposition::PreserveSource
    );
    assert_eq!(
        TensorDisposition::for_role(TensorRole::Normalization),
        TensorDisposition::PreserveSource
    );
}

#[test]
fn adapter_rejects_unknown_tensor_instead_of_guessing() {
    let adapter = QwenMoeAdapter;
    let unknown = TensorDescriptor::new("model.layers.0.mystery.weight", &[32, 32])
        .expect("valid descriptor");
    assert!(matches!(
        adapter.classify_tensor(unknown),
        Err(AdapterError::UnrecognizedTensor(_))
    ));
}
