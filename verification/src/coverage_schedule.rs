//! The pinned Qwen3.6-27B tensor schedule: which tensors exist, their shapes and their roles.

use crate::text::{
    begins_with, first_at, parse_small, same_text, small_number, split_first, text_after,
};
use vstd::prelude::*;

verus! {

/// Model component that owns a pinned source tensor.
#[derive(Clone, Copy, Debug, PartialEq, Eq, Hash, Structural)]
pub enum Qwen35TensorScope {
    /// Main autoregressive language model, including embedding and output head.
    Language,
    /// Bundled one-layer multi-token-prediction drafter.
    MtpDrafter,
    /// Packaged vision tower and projector, deferred from the current product slice.
    DeferredVision,
}

/// Exact semantic role assigned to a Qwen3.6-27B tensor.
#[derive(Clone, Copy, Debug, PartialEq, Eq, Hash, Structural)]
pub enum Qwen35TensorRole {
    /// Language-model token embedding table.
    TokenEmbedding,
    /// Untied language-model output head.
    OutputHead,
    /// Scale or bias used by a normalization operation.
    Normalization,
    /// Dense language or MTP feed-forward projection.
    MlpProjection,
    /// Full-attention query, key, value, or output projection.
    FullAttentionProjection,
    /// Gated DeltaNet input or output projection.
    DeltaNetProjection,
    /// Gated DeltaNet recurrent-state parameter.
    DeltaNetState,
    /// Gated DeltaNet causal convolution kernel.
    DeltaNetConvolution,
    /// MTP hidden-and-embedding fusion projection.
    MtpFusionProjection,
    /// Vision-transformer attention projection.
    VisionAttentionProjection,
    /// Vision-transformer feed-forward projection.
    VisionMlpProjection,
    /// Vision patch-embedding convolution.
    VisionPatchEmbedding,
    /// Vision positional embedding table.
    VisionPositionalEmbedding,
    /// Vision-to-language merger projection.
    VisionMergerProjection,
    /// Additive bias outside the role-specific normalization category.
    Bias,
}

/// Language-layer execution kind fixed by the checkpoint schedule.
#[derive(Clone, Copy, Debug, PartialEq, Eq, Hash, Structural)]
pub enum Qwen35LanguageLayerKind {
    /// Gated DeltaNet linear-attention layer.
    DeltaNet,
    /// Conventional gated full-attention layer.
    FullAttention,
}

/// The shape, component and role that the schedule gives a tensor.
pub struct ExpectedView {
    /// Pinned shape.
    pub shape: Seq<u64>,
    /// Owning component.
    pub scope: Qwen35TensorScope,
    /// Semantic role.
    pub role: Qwen35TensorRole,
}

/// A scheduled tensor.
pub open spec fn expected(
    shape: Seq<u64>,
    scope: Qwen35TensorScope,
    role: Qwen35TensorRole,
) -> ExpectedView {
    ExpectedView { shape, scope, role }
}

/// Why a name has no place in the schedule.
#[derive(Clone, Copy, Debug)]
pub enum ClassificationFailure {
    /// The name is not in the pinned checkpoint contract.
    Unknown,
    /// The name uses an attention family that its layer does not have.
    WrongLayerKind {
        /// Zero-based language layer index.
        layer: u8,
        /// Layer kind fixed by the checkpoint schedule.
        expected: Qwen35LanguageLayerKind,
    },
}

/// The shape, component and role of a scheduled tensor.
#[derive(Debug)]
pub struct ExpectedTensor {
    /// Pinned shape.
    pub shape: Vec<u64>,
    /// Owning component.
    pub scope: Qwen35TensorScope,
    /// Semantic role.
    pub role: Qwen35TensorRole,
}

impl View for ExpectedTensor {
    type V = ExpectedView;

    open spec fn view(&self) -> ExpectedView {
        ExpectedView { shape: self.shape@, scope: self.scope, role: self.role }
    }
}

impl ExpectedTensor {
    fn of(shape: &[u64], scope: Qwen35TensorScope, role: Qwen35TensorRole) -> (tensor: Self)
        ensures
            tensor@ == expected(shape@, scope, role),
    {
        let mut copy: Vec<u64> = Vec::new();
        copy.extend_from_slice(shape);
        assert(copy@ =~= shape@);
        ExpectedTensor { shape: copy, scope, role }
    }
}

/// The content of a scheduled tensor that may be absent.
pub open spec fn expected_view(found: Option<ExpectedTensor>) -> Option<ExpectedView> {
    match found {
        Some(tensor) => Some(tensor@),
        None => None,
    }
}

/// Language tensors outside the layers.
pub open spec fn top_tensor(name: Seq<char>) -> Option<ExpectedView> {
    if name == "lm_head.weight"@ {
        Some(
            expected(
                seq![248_320u64, 5120u64],
                Qwen35TensorScope::Language,
                Qwen35TensorRole::OutputHead,
            ),
        )
    } else if name == "model.language_model.embed_tokens.weight"@ {
        Some(
            expected(
                seq![248_320u64, 5120u64],
                Qwen35TensorScope::Language,
                Qwen35TensorRole::TokenEmbedding,
            ),
        )
    } else if name == "model.language_model.norm.weight"@ {
        Some(
            expected(
                seq![5120u64],
                Qwen35TensorScope::Language,
                Qwen35TensorRole::Normalization,
            ),
        )
    } else {
        None
    }
}

/// Language tensors outside the layers.
fn classify_top(name: &str) -> (found: Option<ExpectedTensor>)
    ensures
        expected_view(found) == top_tensor(name@),
{
    if same_text(name, "lm_head.weight") {
        let shape: [u64; 2] = [248_320, 5120];
        assert(shape@ =~= seq![248_320u64, 5120u64]);
        return Some(
            ExpectedTensor::of(
                shape.as_slice(),
                Qwen35TensorScope::Language,
                Qwen35TensorRole::OutputHead,
            ),
        );
    }
    if same_text(name, "model.language_model.embed_tokens.weight") {
        let shape: [u64; 2] = [248_320, 5120];
        assert(shape@ =~= seq![248_320u64, 5120u64]);
        return Some(
            ExpectedTensor::of(
                shape.as_slice(),
                Qwen35TensorScope::Language,
                Qwen35TensorRole::TokenEmbedding,
            ),
        );
    }
    if same_text(name, "model.language_model.norm.weight") {
        let shape: [u64; 1] = [5120];
        assert(shape@ =~= seq![5120u64]);
        return Some(
            ExpectedTensor::of(
                shape.as_slice(),
                Qwen35TensorScope::Language,
                Qwen35TensorRole::Normalization,
            ),
        );
    }
    None
}

/// Tensors that every language layer has.
pub open spec fn common_tensor(suffix: Seq<char>) -> Option<ExpectedView> {
    if suffix == "input_layernorm.weight"@
        || suffix == "post_attention_layernorm.weight"@ {
        Some(
            expected(
                seq![5120u64],
                Qwen35TensorScope::Language,
                Qwen35TensorRole::Normalization,
            ),
        )
    } else if suffix == "mlp.down_proj.weight"@ {
        Some(
            expected(
                seq![5120u64, 17_408u64],
                Qwen35TensorScope::Language,
                Qwen35TensorRole::MlpProjection,
            ),
        )
    } else if suffix == "mlp.gate_proj.weight"@
        || suffix == "mlp.up_proj.weight"@ {
        Some(
            expected(
                seq![17_408u64, 5120u64],
                Qwen35TensorScope::Language,
                Qwen35TensorRole::MlpProjection,
            ),
        )
    } else {
        None
    }
}

/// Tensors that every language layer has.
fn classify_common(suffix: &str) -> (found: Option<ExpectedTensor>)
    ensures
        expected_view(found) == common_tensor(suffix@),
{
    if same_text(suffix, "input_layernorm.weight")
        || same_text(suffix, "post_attention_layernorm.weight") {
        let shape: [u64; 1] = [5120];
        assert(shape@ =~= seq![5120u64]);
        return Some(
            ExpectedTensor::of(
                shape.as_slice(),
                Qwen35TensorScope::Language,
                Qwen35TensorRole::Normalization,
            ),
        );
    }
    if same_text(suffix, "mlp.down_proj.weight") {
        let shape: [u64; 2] = [5120, 17_408];
        assert(shape@ =~= seq![5120u64, 17_408u64]);
        return Some(
            ExpectedTensor::of(
                shape.as_slice(),
                Qwen35TensorScope::Language,
                Qwen35TensorRole::MlpProjection,
            ),
        );
    }
    if same_text(suffix, "mlp.gate_proj.weight")
        || same_text(suffix, "mlp.up_proj.weight") {
        let shape: [u64; 2] = [17_408, 5120];
        assert(shape@ =~= seq![17_408u64, 5120u64]);
        return Some(
            ExpectedTensor::of(
                shape.as_slice(),
                Qwen35TensorScope::Language,
                Qwen35TensorRole::MlpProjection,
            ),
        );
    }
    None
}

/// Tensors of a gated DeltaNet layer.
pub open spec fn delta_tensor(suffix: Seq<char>) -> Option<ExpectedView> {
    if suffix == "linear_attn.A_log"@
        || suffix == "linear_attn.dt_bias"@ {
        Some(
            expected(
                seq![48u64],
                Qwen35TensorScope::Language,
                Qwen35TensorRole::DeltaNetState,
            ),
        )
    } else if suffix == "linear_attn.conv1d.weight"@ {
        Some(
            expected(
                seq![10_240u64, 1u64, 4u64],
                Qwen35TensorScope::Language,
                Qwen35TensorRole::DeltaNetConvolution,
            ),
        )
    } else if suffix == "linear_attn.in_proj_a.weight"@
        || suffix == "linear_attn.in_proj_b.weight"@ {
        Some(
            expected(
                seq![48u64, 5120u64],
                Qwen35TensorScope::Language,
                Qwen35TensorRole::DeltaNetProjection,
            ),
        )
    } else if suffix == "linear_attn.in_proj_qkv.weight"@ {
        Some(
            expected(
                seq![10_240u64, 5120u64],
                Qwen35TensorScope::Language,
                Qwen35TensorRole::DeltaNetProjection,
            ),
        )
    } else if suffix == "linear_attn.in_proj_z.weight"@ {
        Some(
            expected(
                seq![6144u64, 5120u64],
                Qwen35TensorScope::Language,
                Qwen35TensorRole::DeltaNetProjection,
            ),
        )
    } else if suffix == "linear_attn.norm.weight"@ {
        Some(
            expected(
                seq![128u64],
                Qwen35TensorScope::Language,
                Qwen35TensorRole::Normalization,
            ),
        )
    } else if suffix == "linear_attn.out_proj.weight"@ {
        Some(
            expected(
                seq![5120u64, 6144u64],
                Qwen35TensorScope::Language,
                Qwen35TensorRole::DeltaNetProjection,
            ),
        )
    } else {
        None
    }
}

/// Tensors of a gated DeltaNet layer.
fn classify_delta(suffix: &str) -> (found: Option<ExpectedTensor>)
    ensures
        expected_view(found) == delta_tensor(suffix@),
{
    if same_text(suffix, "linear_attn.A_log")
        || same_text(suffix, "linear_attn.dt_bias") {
        let shape: [u64; 1] = [48];
        assert(shape@ =~= seq![48u64]);
        return Some(
            ExpectedTensor::of(
                shape.as_slice(),
                Qwen35TensorScope::Language,
                Qwen35TensorRole::DeltaNetState,
            ),
        );
    }
    if same_text(suffix, "linear_attn.conv1d.weight") {
        let shape: [u64; 3] = [10_240, 1, 4];
        assert(shape@ =~= seq![10_240u64, 1u64, 4u64]);
        return Some(
            ExpectedTensor::of(
                shape.as_slice(),
                Qwen35TensorScope::Language,
                Qwen35TensorRole::DeltaNetConvolution,
            ),
        );
    }
    if same_text(suffix, "linear_attn.in_proj_a.weight")
        || same_text(suffix, "linear_attn.in_proj_b.weight") {
        let shape: [u64; 2] = [48, 5120];
        assert(shape@ =~= seq![48u64, 5120u64]);
        return Some(
            ExpectedTensor::of(
                shape.as_slice(),
                Qwen35TensorScope::Language,
                Qwen35TensorRole::DeltaNetProjection,
            ),
        );
    }
    if same_text(suffix, "linear_attn.in_proj_qkv.weight") {
        let shape: [u64; 2] = [10_240, 5120];
        assert(shape@ =~= seq![10_240u64, 5120u64]);
        return Some(
            ExpectedTensor::of(
                shape.as_slice(),
                Qwen35TensorScope::Language,
                Qwen35TensorRole::DeltaNetProjection,
            ),
        );
    }
    if same_text(suffix, "linear_attn.in_proj_z.weight") {
        let shape: [u64; 2] = [6144, 5120];
        assert(shape@ =~= seq![6144u64, 5120u64]);
        return Some(
            ExpectedTensor::of(
                shape.as_slice(),
                Qwen35TensorScope::Language,
                Qwen35TensorRole::DeltaNetProjection,
            ),
        );
    }
    if same_text(suffix, "linear_attn.norm.weight") {
        let shape: [u64; 1] = [128];
        assert(shape@ =~= seq![128u64]);
        return Some(
            ExpectedTensor::of(
                shape.as_slice(),
                Qwen35TensorScope::Language,
                Qwen35TensorRole::Normalization,
            ),
        );
    }
    if same_text(suffix, "linear_attn.out_proj.weight") {
        let shape: [u64; 2] = [5120, 6144];
        assert(shape@ =~= seq![5120u64, 6144u64]);
        return Some(
            ExpectedTensor::of(
                shape.as_slice(),
                Qwen35TensorScope::Language,
                Qwen35TensorRole::DeltaNetProjection,
            ),
        );
    }
    None
}

/// Tensors of a full-attention layer.
pub open spec fn full_attention_tensor(suffix: Seq<char>) -> Option<ExpectedView> {
    if suffix == "self_attn.k_norm.weight"@
        || suffix == "self_attn.q_norm.weight"@ {
        Some(
            expected(
                seq![256u64],
                Qwen35TensorScope::Language,
                Qwen35TensorRole::Normalization,
            ),
        )
    } else if suffix == "self_attn.k_proj.weight"@
        || suffix == "self_attn.v_proj.weight"@ {
        Some(
            expected(
                seq![1024u64, 5120u64],
                Qwen35TensorScope::Language,
                Qwen35TensorRole::FullAttentionProjection,
            ),
        )
    } else if suffix == "self_attn.o_proj.weight"@ {
        Some(
            expected(
                seq![5120u64, 6144u64],
                Qwen35TensorScope::Language,
                Qwen35TensorRole::FullAttentionProjection,
            ),
        )
    } else if suffix == "self_attn.q_proj.weight"@ {
        Some(
            expected(
                seq![12_288u64, 5120u64],
                Qwen35TensorScope::Language,
                Qwen35TensorRole::FullAttentionProjection,
            ),
        )
    } else {
        None
    }
}

/// Tensors of a full-attention layer.
fn classify_full_attention(suffix: &str) -> (found: Option<ExpectedTensor>)
    ensures
        expected_view(found) == full_attention_tensor(suffix@),
{
    if same_text(suffix, "self_attn.k_norm.weight")
        || same_text(suffix, "self_attn.q_norm.weight") {
        let shape: [u64; 1] = [256];
        assert(shape@ =~= seq![256u64]);
        return Some(
            ExpectedTensor::of(
                shape.as_slice(),
                Qwen35TensorScope::Language,
                Qwen35TensorRole::Normalization,
            ),
        );
    }
    if same_text(suffix, "self_attn.k_proj.weight")
        || same_text(suffix, "self_attn.v_proj.weight") {
        let shape: [u64; 2] = [1024, 5120];
        assert(shape@ =~= seq![1024u64, 5120u64]);
        return Some(
            ExpectedTensor::of(
                shape.as_slice(),
                Qwen35TensorScope::Language,
                Qwen35TensorRole::FullAttentionProjection,
            ),
        );
    }
    if same_text(suffix, "self_attn.o_proj.weight") {
        let shape: [u64; 2] = [5120, 6144];
        assert(shape@ =~= seq![5120u64, 6144u64]);
        return Some(
            ExpectedTensor::of(
                shape.as_slice(),
                Qwen35TensorScope::Language,
                Qwen35TensorRole::FullAttentionProjection,
            ),
        );
    }
    if same_text(suffix, "self_attn.q_proj.weight") {
        let shape: [u64; 2] = [12_288, 5120];
        assert(shape@ =~= seq![12_288u64, 5120u64]);
        return Some(
            ExpectedTensor::of(
                shape.as_slice(),
                Qwen35TensorScope::Language,
                Qwen35TensorRole::FullAttentionProjection,
            ),
        );
    }
    None
}

/// Tensors of the multi-token-prediction drafter.
pub open spec fn mtp_tensor(name: Seq<char>) -> Option<ExpectedView> {
    if name == "mtp.fc.weight"@ {
        Some(
            expected(
                seq![5120u64, 10_240u64],
                Qwen35TensorScope::MtpDrafter,
                Qwen35TensorRole::MtpFusionProjection,
            ),
        )
    } else if name == "mtp.layers.0.input_layernorm.weight"@
        || name == "mtp.layers.0.post_attention_layernorm.weight"@
        || name == "mtp.norm.weight"@
        || name == "mtp.pre_fc_norm_embedding.weight"@
        || name == "mtp.pre_fc_norm_hidden.weight"@ {
        Some(
            expected(
                seq![5120u64],
                Qwen35TensorScope::MtpDrafter,
                Qwen35TensorRole::Normalization,
            ),
        )
    } else if name == "mtp.layers.0.mlp.down_proj.weight"@ {
        Some(
            expected(
                seq![5120u64, 17_408u64],
                Qwen35TensorScope::MtpDrafter,
                Qwen35TensorRole::MlpProjection,
            ),
        )
    } else if name == "mtp.layers.0.mlp.gate_proj.weight"@
        || name == "mtp.layers.0.mlp.up_proj.weight"@ {
        Some(
            expected(
                seq![17_408u64, 5120u64],
                Qwen35TensorScope::MtpDrafter,
                Qwen35TensorRole::MlpProjection,
            ),
        )
    } else if name == "mtp.layers.0.self_attn.k_norm.weight"@
        || name == "mtp.layers.0.self_attn.q_norm.weight"@ {
        Some(
            expected(
                seq![256u64],
                Qwen35TensorScope::MtpDrafter,
                Qwen35TensorRole::Normalization,
            ),
        )
    } else if name == "mtp.layers.0.self_attn.k_proj.weight"@
        || name == "mtp.layers.0.self_attn.v_proj.weight"@ {
        Some(
            expected(
                seq![1024u64, 5120u64],
                Qwen35TensorScope::MtpDrafter,
                Qwen35TensorRole::FullAttentionProjection,
            ),
        )
    } else if name == "mtp.layers.0.self_attn.o_proj.weight"@ {
        Some(
            expected(
                seq![5120u64, 6144u64],
                Qwen35TensorScope::MtpDrafter,
                Qwen35TensorRole::FullAttentionProjection,
            ),
        )
    } else if name == "mtp.layers.0.self_attn.q_proj.weight"@ {
        Some(
            expected(
                seq![12_288u64, 5120u64],
                Qwen35TensorScope::MtpDrafter,
                Qwen35TensorRole::FullAttentionProjection,
            ),
        )
    } else {
        None
    }
}

/// Tensors of the multi-token-prediction drafter.
fn classify_mtp(name: &str) -> (found: Option<ExpectedTensor>)
    ensures
        expected_view(found) == mtp_tensor(name@),
{
    if same_text(name, "mtp.fc.weight") {
        let shape: [u64; 2] = [5120, 10_240];
        assert(shape@ =~= seq![5120u64, 10_240u64]);
        return Some(
            ExpectedTensor::of(
                shape.as_slice(),
                Qwen35TensorScope::MtpDrafter,
                Qwen35TensorRole::MtpFusionProjection,
            ),
        );
    }
    if same_text(name, "mtp.layers.0.input_layernorm.weight")
        || same_text(name, "mtp.layers.0.post_attention_layernorm.weight")
        || same_text(name, "mtp.norm.weight")
        || same_text(name, "mtp.pre_fc_norm_embedding.weight")
        || same_text(name, "mtp.pre_fc_norm_hidden.weight") {
        let shape: [u64; 1] = [5120];
        assert(shape@ =~= seq![5120u64]);
        return Some(
            ExpectedTensor::of(
                shape.as_slice(),
                Qwen35TensorScope::MtpDrafter,
                Qwen35TensorRole::Normalization,
            ),
        );
    }
    if same_text(name, "mtp.layers.0.mlp.down_proj.weight") {
        let shape: [u64; 2] = [5120, 17_408];
        assert(shape@ =~= seq![5120u64, 17_408u64]);
        return Some(
            ExpectedTensor::of(
                shape.as_slice(),
                Qwen35TensorScope::MtpDrafter,
                Qwen35TensorRole::MlpProjection,
            ),
        );
    }
    if same_text(name, "mtp.layers.0.mlp.gate_proj.weight")
        || same_text(name, "mtp.layers.0.mlp.up_proj.weight") {
        let shape: [u64; 2] = [17_408, 5120];
        assert(shape@ =~= seq![17_408u64, 5120u64]);
        return Some(
            ExpectedTensor::of(
                shape.as_slice(),
                Qwen35TensorScope::MtpDrafter,
                Qwen35TensorRole::MlpProjection,
            ),
        );
    }
    if same_text(name, "mtp.layers.0.self_attn.k_norm.weight")
        || same_text(name, "mtp.layers.0.self_attn.q_norm.weight") {
        let shape: [u64; 1] = [256];
        assert(shape@ =~= seq![256u64]);
        return Some(
            ExpectedTensor::of(
                shape.as_slice(),
                Qwen35TensorScope::MtpDrafter,
                Qwen35TensorRole::Normalization,
            ),
        );
    }
    if same_text(name, "mtp.layers.0.self_attn.k_proj.weight")
        || same_text(name, "mtp.layers.0.self_attn.v_proj.weight") {
        let shape: [u64; 2] = [1024, 5120];
        assert(shape@ =~= seq![1024u64, 5120u64]);
        return Some(
            ExpectedTensor::of(
                shape.as_slice(),
                Qwen35TensorScope::MtpDrafter,
                Qwen35TensorRole::FullAttentionProjection,
            ),
        );
    }
    if same_text(name, "mtp.layers.0.self_attn.o_proj.weight") {
        let shape: [u64; 2] = [5120, 6144];
        assert(shape@ =~= seq![5120u64, 6144u64]);
        return Some(
            ExpectedTensor::of(
                shape.as_slice(),
                Qwen35TensorScope::MtpDrafter,
                Qwen35TensorRole::FullAttentionProjection,
            ),
        );
    }
    if same_text(name, "mtp.layers.0.self_attn.q_proj.weight") {
        let shape: [u64; 2] = [12_288, 5120];
        assert(shape@ =~= seq![12_288u64, 5120u64]);
        return Some(
            ExpectedTensor::of(
                shape.as_slice(),
                Qwen35TensorScope::MtpDrafter,
                Qwen35TensorRole::FullAttentionProjection,
            ),
        );
    }
    None
}

/// Vision tensors outside the blocks.
pub open spec fn vision_frame_tensor(name: Seq<char>) -> Option<ExpectedView> {
    if name == "model.visual.patch_embed.proj.weight"@ {
        Some(
            expected(
                seq![1152u64, 3u64, 2u64, 16u64, 16u64],
                Qwen35TensorScope::DeferredVision,
                Qwen35TensorRole::VisionPatchEmbedding,
            ),
        )
    } else if name == "model.visual.patch_embed.proj.bias"@ {
        Some(
            expected(
                seq![1152u64],
                Qwen35TensorScope::DeferredVision,
                Qwen35TensorRole::Bias,
            ),
        )
    } else if name == "model.visual.pos_embed.weight"@ {
        Some(
            expected(
                seq![2304u64, 1152u64],
                Qwen35TensorScope::DeferredVision,
                Qwen35TensorRole::VisionPositionalEmbedding,
            ),
        )
    } else if name == "model.visual.merger.linear_fc1.bias"@ {
        Some(
            expected(
                seq![4608u64],
                Qwen35TensorScope::DeferredVision,
                Qwen35TensorRole::Bias,
            ),
        )
    } else if name == "model.visual.merger.linear_fc1.weight"@ {
        Some(
            expected(
                seq![4608u64, 4608u64],
                Qwen35TensorScope::DeferredVision,
                Qwen35TensorRole::VisionMergerProjection,
            ),
        )
    } else if name == "model.visual.merger.linear_fc2.bias"@ {
        Some(
            expected(
                seq![5120u64],
                Qwen35TensorScope::DeferredVision,
                Qwen35TensorRole::Bias,
            ),
        )
    } else if name == "model.visual.merger.linear_fc2.weight"@ {
        Some(
            expected(
                seq![5120u64, 4608u64],
                Qwen35TensorScope::DeferredVision,
                Qwen35TensorRole::VisionMergerProjection,
            ),
        )
    } else if name == "model.visual.merger.norm.bias"@
        || name == "model.visual.merger.norm.weight"@ {
        Some(
            expected(
                seq![1152u64],
                Qwen35TensorScope::DeferredVision,
                Qwen35TensorRole::Normalization,
            ),
        )
    } else {
        None
    }
}

/// Vision tensors outside the blocks.
fn classify_vision_frame(name: &str) -> (found: Option<ExpectedTensor>)
    ensures
        expected_view(found) == vision_frame_tensor(name@),
{
    if same_text(name, "model.visual.patch_embed.proj.weight") {
        let shape: [u64; 5] = [1152, 3, 2, 16, 16];
        assert(shape@ =~= seq![1152u64, 3u64, 2u64, 16u64, 16u64]);
        return Some(
            ExpectedTensor::of(
                shape.as_slice(),
                Qwen35TensorScope::DeferredVision,
                Qwen35TensorRole::VisionPatchEmbedding,
            ),
        );
    }
    if same_text(name, "model.visual.patch_embed.proj.bias") {
        let shape: [u64; 1] = [1152];
        assert(shape@ =~= seq![1152u64]);
        return Some(
            ExpectedTensor::of(
                shape.as_slice(),
                Qwen35TensorScope::DeferredVision,
                Qwen35TensorRole::Bias,
            ),
        );
    }
    if same_text(name, "model.visual.pos_embed.weight") {
        let shape: [u64; 2] = [2304, 1152];
        assert(shape@ =~= seq![2304u64, 1152u64]);
        return Some(
            ExpectedTensor::of(
                shape.as_slice(),
                Qwen35TensorScope::DeferredVision,
                Qwen35TensorRole::VisionPositionalEmbedding,
            ),
        );
    }
    if same_text(name, "model.visual.merger.linear_fc1.bias") {
        let shape: [u64; 1] = [4608];
        assert(shape@ =~= seq![4608u64]);
        return Some(
            ExpectedTensor::of(
                shape.as_slice(),
                Qwen35TensorScope::DeferredVision,
                Qwen35TensorRole::Bias,
            ),
        );
    }
    if same_text(name, "model.visual.merger.linear_fc1.weight") {
        let shape: [u64; 2] = [4608, 4608];
        assert(shape@ =~= seq![4608u64, 4608u64]);
        return Some(
            ExpectedTensor::of(
                shape.as_slice(),
                Qwen35TensorScope::DeferredVision,
                Qwen35TensorRole::VisionMergerProjection,
            ),
        );
    }
    if same_text(name, "model.visual.merger.linear_fc2.bias") {
        let shape: [u64; 1] = [5120];
        assert(shape@ =~= seq![5120u64]);
        return Some(
            ExpectedTensor::of(
                shape.as_slice(),
                Qwen35TensorScope::DeferredVision,
                Qwen35TensorRole::Bias,
            ),
        );
    }
    if same_text(name, "model.visual.merger.linear_fc2.weight") {
        let shape: [u64; 2] = [5120, 4608];
        assert(shape@ =~= seq![5120u64, 4608u64]);
        return Some(
            ExpectedTensor::of(
                shape.as_slice(),
                Qwen35TensorScope::DeferredVision,
                Qwen35TensorRole::VisionMergerProjection,
            ),
        );
    }
    if same_text(name, "model.visual.merger.norm.bias")
        || same_text(name, "model.visual.merger.norm.weight") {
        let shape: [u64; 1] = [1152];
        assert(shape@ =~= seq![1152u64]);
        return Some(
            ExpectedTensor::of(
                shape.as_slice(),
                Qwen35TensorScope::DeferredVision,
                Qwen35TensorRole::Normalization,
            ),
        );
    }
    None
}

/// Tensors of a vision block.
pub open spec fn block_tensor(suffix: Seq<char>) -> Option<ExpectedView> {
    if suffix == "attn.proj.bias"@ {
        Some(
            expected(
                seq![1152u64],
                Qwen35TensorScope::DeferredVision,
                Qwen35TensorRole::Bias,
            ),
        )
    } else if suffix == "attn.proj.weight"@ {
        Some(
            expected(
                seq![1152u64, 1152u64],
                Qwen35TensorScope::DeferredVision,
                Qwen35TensorRole::VisionAttentionProjection,
            ),
        )
    } else if suffix == "attn.qkv.bias"@ {
        Some(
            expected(
                seq![3456u64],
                Qwen35TensorScope::DeferredVision,
                Qwen35TensorRole::Bias,
            ),
        )
    } else if suffix == "attn.qkv.weight"@ {
        Some(
            expected(
                seq![3456u64, 1152u64],
                Qwen35TensorScope::DeferredVision,
                Qwen35TensorRole::VisionAttentionProjection,
            ),
        )
    } else if suffix == "mlp.linear_fc1.bias"@ {
        Some(
            expected(
                seq![4304u64],
                Qwen35TensorScope::DeferredVision,
                Qwen35TensorRole::Bias,
            ),
        )
    } else if suffix == "mlp.linear_fc1.weight"@ {
        Some(
            expected(
                seq![4304u64, 1152u64],
                Qwen35TensorScope::DeferredVision,
                Qwen35TensorRole::VisionMlpProjection,
            ),
        )
    } else if suffix == "mlp.linear_fc2.bias"@ {
        Some(
            expected(
                seq![1152u64],
                Qwen35TensorScope::DeferredVision,
                Qwen35TensorRole::Bias,
            ),
        )
    } else if suffix == "mlp.linear_fc2.weight"@ {
        Some(
            expected(
                seq![1152u64, 4304u64],
                Qwen35TensorScope::DeferredVision,
                Qwen35TensorRole::VisionMlpProjection,
            ),
        )
    } else if suffix == "norm1.bias"@
        || suffix == "norm1.weight"@
        || suffix == "norm2.bias"@
        || suffix == "norm2.weight"@ {
        Some(
            expected(
                seq![1152u64],
                Qwen35TensorScope::DeferredVision,
                Qwen35TensorRole::Normalization,
            ),
        )
    } else {
        None
    }
}

/// Tensors of a vision block.
fn classify_block(suffix: &str) -> (found: Option<ExpectedTensor>)
    ensures
        expected_view(found) == block_tensor(suffix@),
{
    if same_text(suffix, "attn.proj.bias") {
        let shape: [u64; 1] = [1152];
        assert(shape@ =~= seq![1152u64]);
        return Some(
            ExpectedTensor::of(
                shape.as_slice(),
                Qwen35TensorScope::DeferredVision,
                Qwen35TensorRole::Bias,
            ),
        );
    }
    if same_text(suffix, "attn.proj.weight") {
        let shape: [u64; 2] = [1152, 1152];
        assert(shape@ =~= seq![1152u64, 1152u64]);
        return Some(
            ExpectedTensor::of(
                shape.as_slice(),
                Qwen35TensorScope::DeferredVision,
                Qwen35TensorRole::VisionAttentionProjection,
            ),
        );
    }
    if same_text(suffix, "attn.qkv.bias") {
        let shape: [u64; 1] = [3456];
        assert(shape@ =~= seq![3456u64]);
        return Some(
            ExpectedTensor::of(
                shape.as_slice(),
                Qwen35TensorScope::DeferredVision,
                Qwen35TensorRole::Bias,
            ),
        );
    }
    if same_text(suffix, "attn.qkv.weight") {
        let shape: [u64; 2] = [3456, 1152];
        assert(shape@ =~= seq![3456u64, 1152u64]);
        return Some(
            ExpectedTensor::of(
                shape.as_slice(),
                Qwen35TensorScope::DeferredVision,
                Qwen35TensorRole::VisionAttentionProjection,
            ),
        );
    }
    if same_text(suffix, "mlp.linear_fc1.bias") {
        let shape: [u64; 1] = [4304];
        assert(shape@ =~= seq![4304u64]);
        return Some(
            ExpectedTensor::of(
                shape.as_slice(),
                Qwen35TensorScope::DeferredVision,
                Qwen35TensorRole::Bias,
            ),
        );
    }
    if same_text(suffix, "mlp.linear_fc1.weight") {
        let shape: [u64; 2] = [4304, 1152];
        assert(shape@ =~= seq![4304u64, 1152u64]);
        return Some(
            ExpectedTensor::of(
                shape.as_slice(),
                Qwen35TensorScope::DeferredVision,
                Qwen35TensorRole::VisionMlpProjection,
            ),
        );
    }
    if same_text(suffix, "mlp.linear_fc2.bias") {
        let shape: [u64; 1] = [1152];
        assert(shape@ =~= seq![1152u64]);
        return Some(
            ExpectedTensor::of(
                shape.as_slice(),
                Qwen35TensorScope::DeferredVision,
                Qwen35TensorRole::Bias,
            ),
        );
    }
    if same_text(suffix, "mlp.linear_fc2.weight") {
        let shape: [u64; 2] = [1152, 4304];
        assert(shape@ =~= seq![1152u64, 4304u64]);
        return Some(
            ExpectedTensor::of(
                shape.as_slice(),
                Qwen35TensorScope::DeferredVision,
                Qwen35TensorRole::VisionMlpProjection,
            ),
        );
    }
    if same_text(suffix, "norm1.bias")
        || same_text(suffix, "norm1.weight")
        || same_text(suffix, "norm2.bias")
        || same_text(suffix, "norm2.weight") {
        let shape: [u64; 1] = [1152];
        assert(shape@ =~= seq![1152u64]);
        return Some(
            ExpectedTensor::of(
                shape.as_slice(),
                Qwen35TensorScope::DeferredVision,
                Qwen35TensorRole::Normalization,
            ),
        );
    }
    None
}

/// Every fourth language layer has full attention.
pub open spec fn layer_kind(layer: u8) -> Qwen35LanguageLayerKind {
    if layer % 4 == 3 {
        Qwen35LanguageLayerKind::FullAttention
    } else {
        Qwen35LanguageLayerKind::DeltaNet
    }
}

/// The attention tensor of a layer that a suffix names.
pub open spec fn attention_tensor(layer: u8, suffix: Seq<char>) -> Result<
    ExpectedView,
    ClassificationFailure,
> {
    let kind = layer_kind(layer);
    let (foreign, found) = match kind {
        Qwen35LanguageLayerKind::DeltaNet => ("self_attn."@, delta_tensor(suffix)),
        Qwen35LanguageLayerKind::FullAttention => ("linear_attn."@, full_attention_tensor(suffix)),
    };
    if begins_with(suffix, foreign) {
        Err(ClassificationFailure::WrongLayerKind { layer, expected: kind })
    } else {
        match found {
            Some(tensor) => Ok(tensor),
            None => Err(ClassificationFailure::Unknown),
        }
    }
}

/// The tensor that a layer number, a dot and a suffix name.
pub open spec fn layer_tensor(rest: Seq<char>) -> Result<ExpectedView, ClassificationFailure> {
    let dot = first_at(rest, '.', 0);
    if dot >= rest.len() {
        Err(ClassificationFailure::Unknown)
    } else {
        match small_number(rest.take(dot)) {
            None => Err(ClassificationFailure::Unknown),
            Some(layer) => if layer >= 64 {
                Err(ClassificationFailure::Unknown)
            } else {
                match common_tensor(rest.skip(dot + 1)) {
                    Some(tensor) => Ok(tensor),
                    None => attention_tensor(layer, rest.skip(dot + 1)),
                }
            },
        }
    }
}

/// The tensor that a block number, a dot and a suffix name.
pub open spec fn numbered_block_tensor(rest: Seq<char>) -> Option<ExpectedView> {
    let dot = first_at(rest, '.', 0);
    if dot >= rest.len() {
        None
    } else {
        match small_number(rest.take(dot)) {
            None => None,
            Some(number) => if number >= 27 {
                None
            } else {
                block_tensor(rest.skip(dot + 1))
            },
        }
    }
}

/// The vision tensor with a name.
pub open spec fn vision_tensor(name: Seq<char>) -> Option<ExpectedView> {
    match vision_frame_tensor(name) {
        Some(tensor) => Some(tensor),
        None => if begins_with(name, "model.visual.blocks."@) {
            numbered_block_tensor(name.skip("model.visual.blocks."@.len() as int))
        } else {
            None
        },
    }
}

/// The place of a name in the schedule.
pub open spec fn scheduled(name: Seq<char>) -> Result<ExpectedView, ClassificationFailure> {
    match top_tensor(name) {
        Some(tensor) => Ok(tensor),
        None => if begins_with(name, "model.language_model.layers."@) {
            layer_tensor(name.skip("model.language_model.layers."@.len() as int))
        } else {
            let found = if begins_with(name, "mtp."@) {
                mtp_tensor(name)
            } else if begins_with(name, "model.visual."@) {
                vision_tensor(name)
            } else {
                None
            };
            match found {
                Some(tensor) => Ok(tensor),
                None => Err(ClassificationFailure::Unknown),
            }
        },
    }
}

/// Whether a classification has the stated outcome.
pub open spec fn agrees(
    found: Result<ExpectedTensor, ClassificationFailure>,
    stated: Result<ExpectedView, ClassificationFailure>,
) -> bool {
    match stated {
        Ok(tensor) => found matches Ok(made) && made@ == tensor,
        Err(failure) => found == Err::<ExpectedTensor, ClassificationFailure>(failure),
    }
}

fn known(found: Option<ExpectedTensor>) -> (result: Result<ExpectedTensor, ClassificationFailure>)
    ensures
        match found {
            Some(tensor) => result == Ok::<ExpectedTensor, ClassificationFailure>(tensor),
            None => result == Err::<ExpectedTensor, ClassificationFailure>(
                ClassificationFailure::Unknown,
            ),
        },
{
    match found {
        Some(tensor) => Ok(tensor),
        None => Err(ClassificationFailure::Unknown),
    }
}

fn classify_attention(layer: u8, suffix: &str) -> (found: Result<
    ExpectedTensor,
    ClassificationFailure,
>)
    ensures
        agrees(found, attention_tensor(layer, suffix@)),
{
    if layer % 4 == 3 {
        if text_after(suffix, "linear_attn.").is_some() {
            return Err(
                ClassificationFailure::WrongLayerKind {
                    layer,
                    expected: Qwen35LanguageLayerKind::FullAttention,
                },
            );
        }
        known(classify_full_attention(suffix))
    } else {
        if text_after(suffix, "self_attn.").is_some() {
            return Err(
                ClassificationFailure::WrongLayerKind {
                    layer,
                    expected: Qwen35LanguageLayerKind::DeltaNet,
                },
            );
        }
        known(classify_delta(suffix))
    }
}

fn classify_language_layer(rest: &str) -> (found: Result<ExpectedTensor, ClassificationFailure>)
    ensures
        agrees(found, layer_tensor(rest@)),
{
    let (number, suffix) = match split_first(rest, '.') {
        Some(parts) => parts,
        None => {
            return Err(ClassificationFailure::Unknown);
        },
    };
    let layer: u8 = match parse_small(number) {
        Some(layer) => layer,
        None => {
            return Err(ClassificationFailure::Unknown);
        },
    };
    if layer >= 64 {
        return Err(ClassificationFailure::Unknown);
    }
    match classify_common(suffix) {
        Some(tensor) => Ok(tensor),
        None => classify_attention(layer, suffix),
    }
}

fn classify_numbered_block(rest: &str) -> (found: Option<ExpectedTensor>)
    ensures
        expected_view(found) == numbered_block_tensor(rest@),
{
    let (number, suffix) = match split_first(rest, '.') {
        Some(parts) => parts,
        None => {
            return None;
        },
    };
    match parse_small(number) {
        Some(block) => {
            if block >= 27 {
                None
            } else {
                classify_block(suffix)
            }
        },
        None => None,
    }
}

fn classify_vision(name: &str) -> (found: Option<ExpectedTensor>)
    ensures
        expected_view(found) == vision_tensor(name@),
{
    match classify_vision_frame(name) {
        Some(tensor) => Some(tensor),
        None => match text_after(name, "model.visual.blocks.") {
            Some(rest) => classify_numbered_block(rest),
            None => None,
        },
    }
}

/// The place of a name in the schedule.
pub fn classify_tensor(name: &str) -> (found: Result<ExpectedTensor, ClassificationFailure>)
    ensures
        agrees(found, scheduled(name@)),
{
    match classify_top(name) {
        Some(tensor) => {
            return Ok(tensor);
        },
        None => {},
    }
    match text_after(name, "model.language_model.layers.") {
        Some(rest) => {
            return classify_language_layer(rest);
        },
        None => {},
    }
    if text_after(name, "mtp.").is_some() {
        return known(classify_mtp(name));
    }
    if text_after(name, "model.visual.").is_some() {
        return known(classify_vision(name));
    }
    Err(ClassificationFailure::Unknown)
}

} // verus!
