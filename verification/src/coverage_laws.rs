//! What the coverage schedule and policy promise of names, roles, shapes and actions.

use crate::coverage_policy::{disposition_number, role_number, scope_number};
use crate::coverage_schedule::{
    attention_tensor, block_tensor, common_tensor, delta_tensor, full_attention_tensor,
    layer_tensor, mtp_tensor, scheduled, top_tensor, vision_frame_tensor, ExpectedView,
    Qwen35TensorRole, Qwen35TensorScope,
};
use crate::qwen35_coverage::{
    admitted, covered, covered_sets_are_pinned, is_admitted, product, totals, CoveragePart,
    EntryView, Qwen35CoverageDisposition, TensorView,
};
use crate::text::begins_with;
use vstd::prelude::*;

verus! {

/// Whether a text holds another at a position.
pub open spec fn holds_at(text: Seq<char>, part: Seq<char>, at: int) -> bool {
    0 <= at && at + part.len() <= text.len() && text.subrange(at, at + part.len()) == part
}

/// Whether a text holds another.
pub open spec fn mentions(text: Seq<char>, part: Seq<char>) -> bool {
    exists|at: int| #[trigger] holds_at(text, part, at)
}

/// The word that the names of a role's tensors hold.
pub open spec fn word_of(role: Qwen35TensorRole) -> Seq<char> {
    match role {
        Qwen35TensorRole::OutputHead => "lm_head"@,
        Qwen35TensorRole::TokenEmbedding => "embed_tokens"@,
        Qwen35TensorRole::Normalization => "norm"@,
        Qwen35TensorRole::MlpProjection => "mlp."@,
        Qwen35TensorRole::DeltaNetState => "linear_attn."@,
        Qwen35TensorRole::DeltaNetConvolution => "conv1d"@,
        Qwen35TensorRole::DeltaNetProjection => "linear_attn."@,
        Qwen35TensorRole::FullAttentionProjection => "self_attn."@,
        Qwen35TensorRole::MtpFusionProjection => "mtp.fc"@,
        Qwen35TensorRole::VisionPatchEmbedding => "patch_embed"@,
        Qwen35TensorRole::Bias => ".bias"@,
        Qwen35TensorRole::VisionPositionalEmbedding => "pos_embed"@,
        Qwen35TensorRole::VisionMergerProjection => "merger."@,
        Qwen35TensorRole::VisionAttentionProjection => "attn."@,
        Qwen35TensorRole::VisionMlpProjection => "mlp."@,
    }
}

/// The number of dimensions of a role's tensors.
pub open spec fn rank_of(role: Qwen35TensorRole) -> nat {
    match role {
        Qwen35TensorRole::Normalization
        | Qwen35TensorRole::Bias
        | Qwen35TensorRole::DeltaNetState => 1,
        Qwen35TensorRole::DeltaNetConvolution => 3,
        Qwen35TensorRole::VisionPatchEmbedding => 5,
        _ => 2,
    }
}

/// Whether a tensor's name and shape are of the kind that its role asks for.
pub open spec fn suits(name: Seq<char>, tensor: ExpectedView) -> bool {
    mentions(name, word_of(tensor.role)) && tensor.shape.len() == rank_of(tensor.role)
}

pub proof fn lemma_mentions_later(text: Seq<char>, skipped: int, part: Seq<char>)
    requires
        0 <= skipped <= text.len(),
        mentions(text.skip(skipped), part),
    ensures
        mentions(text, part),
{
    let at = choose|at: int| #[trigger] holds_at(text.skip(skipped), part, at);
    assert(text.subrange(skipped + at, skipped + at + part.len()) =~= text.skip(skipped).subrange(
        at,
        at + part.len(),
    ));
    assert(holds_at(text, part, skipped + at));
}

proof fn lemma_top_tensor_suits(name: Seq<char>)
    requires
        top_tensor(name) is Some,
    ensures
        suits(name, top_tensor(name)->0),
        top_tensor(name)->0.scope is Language,
{
    reveal_strlit("embed_tokens");
    reveal_strlit("lm_head");
    reveal_strlit("norm");
    if name == "lm_head.weight"@ {
        reveal_strlit("lm_head.weight");
        assert(name.subrange(0, 7) =~= "lm_head"@);
        assert(holds_at(name, "lm_head"@, 0));
    } else if name == "model.language_model.embed_tokens.weight"@ {
        reveal_strlit("model.language_model.embed_tokens.weight");
        assert(name.subrange(21, 33) =~= "embed_tokens"@);
        assert(holds_at(name, "embed_tokens"@, 21));
    } else if name == "model.language_model.norm.weight"@ {
        reveal_strlit("model.language_model.norm.weight");
        assert(name.subrange(21, 25) =~= "norm"@);
        assert(holds_at(name, "norm"@, 21));
    }
}

proof fn lemma_common_tensor_suits(name: Seq<char>)
    requires
        common_tensor(name) is Some,
    ensures
        suits(name, common_tensor(name)->0),
        common_tensor(name)->0.scope is Language,
{
    reveal_strlit("mlp.");
    reveal_strlit("norm");
    if name == "input_layernorm.weight"@ {
        reveal_strlit("input_layernorm.weight");
        assert(name.subrange(11, 15) =~= "norm"@);
        assert(holds_at(name, "norm"@, 11));
    } else if name == "post_attention_layernorm.weight"@ {
        reveal_strlit("post_attention_layernorm.weight");
        assert(name.subrange(20, 24) =~= "norm"@);
        assert(holds_at(name, "norm"@, 20));
    } else if name == "mlp.down_proj.weight"@ {
        reveal_strlit("mlp.down_proj.weight");
        assert(name.subrange(0, 4) =~= "mlp."@);
        assert(holds_at(name, "mlp."@, 0));
    } else if name == "mlp.gate_proj.weight"@ {
        reveal_strlit("mlp.gate_proj.weight");
        assert(name.subrange(0, 4) =~= "mlp."@);
        assert(holds_at(name, "mlp."@, 0));
    } else if name == "mlp.up_proj.weight"@ {
        reveal_strlit("mlp.up_proj.weight");
        assert(name.subrange(0, 4) =~= "mlp."@);
        assert(holds_at(name, "mlp."@, 0));
    }
}

proof fn lemma_delta_tensor_suits(name: Seq<char>)
    requires
        delta_tensor(name) is Some,
    ensures
        suits(name, delta_tensor(name)->0),
        delta_tensor(name)->0.scope is Language,
        begins_with(name, "linear_attn."@),
{
    reveal_strlit("conv1d");
    reveal_strlit("linear_attn.");
    reveal_strlit("norm");
    if name == "linear_attn.A_log"@ {
        reveal_strlit("linear_attn.A_log");
        assert(name.subrange(0, 12) =~= "linear_attn."@);
        assert(holds_at(name, "linear_attn."@, 0));
        assert(name.take(12) =~= "linear_attn."@);
    } else if name == "linear_attn.dt_bias"@ {
        reveal_strlit("linear_attn.dt_bias");
        assert(name.subrange(0, 12) =~= "linear_attn."@);
        assert(holds_at(name, "linear_attn."@, 0));
        assert(name.take(12) =~= "linear_attn."@);
    } else if name == "linear_attn.conv1d.weight"@ {
        reveal_strlit("linear_attn.conv1d.weight");
        assert(name.subrange(12, 18) =~= "conv1d"@);
        assert(holds_at(name, "conv1d"@, 12));
        assert(name.take(12) =~= "linear_attn."@);
    } else if name == "linear_attn.in_proj_a.weight"@ {
        reveal_strlit("linear_attn.in_proj_a.weight");
        assert(name.subrange(0, 12) =~= "linear_attn."@);
        assert(holds_at(name, "linear_attn."@, 0));
        assert(name.take(12) =~= "linear_attn."@);
    } else if name == "linear_attn.in_proj_b.weight"@ {
        reveal_strlit("linear_attn.in_proj_b.weight");
        assert(name.subrange(0, 12) =~= "linear_attn."@);
        assert(holds_at(name, "linear_attn."@, 0));
        assert(name.take(12) =~= "linear_attn."@);
    } else if name == "linear_attn.in_proj_qkv.weight"@ {
        reveal_strlit("linear_attn.in_proj_qkv.weight");
        assert(name.subrange(0, 12) =~= "linear_attn."@);
        assert(holds_at(name, "linear_attn."@, 0));
        assert(name.take(12) =~= "linear_attn."@);
    } else if name == "linear_attn.in_proj_z.weight"@ {
        reveal_strlit("linear_attn.in_proj_z.weight");
        assert(name.subrange(0, 12) =~= "linear_attn."@);
        assert(holds_at(name, "linear_attn."@, 0));
        assert(name.take(12) =~= "linear_attn."@);
    } else if name == "linear_attn.norm.weight"@ {
        reveal_strlit("linear_attn.norm.weight");
        assert(name.subrange(12, 16) =~= "norm"@);
        assert(holds_at(name, "norm"@, 12));
        assert(name.take(12) =~= "linear_attn."@);
    } else if name == "linear_attn.out_proj.weight"@ {
        reveal_strlit("linear_attn.out_proj.weight");
        assert(name.subrange(0, 12) =~= "linear_attn."@);
        assert(holds_at(name, "linear_attn."@, 0));
        assert(name.take(12) =~= "linear_attn."@);
    }
}

proof fn lemma_full_attention_tensor_suits(name: Seq<char>)
    requires
        full_attention_tensor(name) is Some,
    ensures
        suits(name, full_attention_tensor(name)->0),
        full_attention_tensor(name)->0.scope is Language,
        begins_with(name, "self_attn."@),
{
    reveal_strlit("norm");
    reveal_strlit("self_attn.");
    if name == "self_attn.k_norm.weight"@ {
        reveal_strlit("self_attn.k_norm.weight");
        assert(name.subrange(12, 16) =~= "norm"@);
        assert(holds_at(name, "norm"@, 12));
        assert(name.take(10) =~= "self_attn."@);
    } else if name == "self_attn.q_norm.weight"@ {
        reveal_strlit("self_attn.q_norm.weight");
        assert(name.subrange(12, 16) =~= "norm"@);
        assert(holds_at(name, "norm"@, 12));
        assert(name.take(10) =~= "self_attn."@);
    } else if name == "self_attn.k_proj.weight"@ {
        reveal_strlit("self_attn.k_proj.weight");
        assert(name.subrange(0, 10) =~= "self_attn."@);
        assert(holds_at(name, "self_attn."@, 0));
        assert(name.take(10) =~= "self_attn."@);
    } else if name == "self_attn.v_proj.weight"@ {
        reveal_strlit("self_attn.v_proj.weight");
        assert(name.subrange(0, 10) =~= "self_attn."@);
        assert(holds_at(name, "self_attn."@, 0));
        assert(name.take(10) =~= "self_attn."@);
    } else if name == "self_attn.o_proj.weight"@ {
        reveal_strlit("self_attn.o_proj.weight");
        assert(name.subrange(0, 10) =~= "self_attn."@);
        assert(holds_at(name, "self_attn."@, 0));
        assert(name.take(10) =~= "self_attn."@);
    } else if name == "self_attn.q_proj.weight"@ {
        reveal_strlit("self_attn.q_proj.weight");
        assert(name.subrange(0, 10) =~= "self_attn."@);
        assert(holds_at(name, "self_attn."@, 0));
        assert(name.take(10) =~= "self_attn."@);
    }
}

proof fn lemma_mtp_tensor_suits(name: Seq<char>)
    requires
        mtp_tensor(name) is Some,
    ensures
        suits(name, mtp_tensor(name)->0),
        mtp_tensor(name)->0.scope is MtpDrafter,
{
    reveal_strlit("mlp.");
    reveal_strlit("mtp.fc");
    reveal_strlit("norm");
    reveal_strlit("self_attn.");
    if name == "mtp.fc.weight"@ {
        reveal_strlit("mtp.fc.weight");
        assert(name.subrange(0, 6) =~= "mtp.fc"@);
        assert(holds_at(name, "mtp.fc"@, 0));
    } else if name == "mtp.layers.0.input_layernorm.weight"@ {
        reveal_strlit("mtp.layers.0.input_layernorm.weight");
        assert(name.subrange(24, 28) =~= "norm"@);
        assert(holds_at(name, "norm"@, 24));
    } else if name == "mtp.layers.0.post_attention_layernorm.weight"@ {
        reveal_strlit("mtp.layers.0.post_attention_layernorm.weight");
        assert(name.subrange(33, 37) =~= "norm"@);
        assert(holds_at(name, "norm"@, 33));
    } else if name == "mtp.norm.weight"@ {
        reveal_strlit("mtp.norm.weight");
        assert(name.subrange(4, 8) =~= "norm"@);
        assert(holds_at(name, "norm"@, 4));
    } else if name == "mtp.pre_fc_norm_embedding.weight"@ {
        reveal_strlit("mtp.pre_fc_norm_embedding.weight");
        assert(name.subrange(11, 15) =~= "norm"@);
        assert(holds_at(name, "norm"@, 11));
    } else if name == "mtp.pre_fc_norm_hidden.weight"@ {
        reveal_strlit("mtp.pre_fc_norm_hidden.weight");
        assert(name.subrange(11, 15) =~= "norm"@);
        assert(holds_at(name, "norm"@, 11));
    } else if name == "mtp.layers.0.mlp.down_proj.weight"@ {
        reveal_strlit("mtp.layers.0.mlp.down_proj.weight");
        assert(name.subrange(13, 17) =~= "mlp."@);
        assert(holds_at(name, "mlp."@, 13));
    } else if name == "mtp.layers.0.mlp.gate_proj.weight"@ {
        reveal_strlit("mtp.layers.0.mlp.gate_proj.weight");
        assert(name.subrange(13, 17) =~= "mlp."@);
        assert(holds_at(name, "mlp."@, 13));
    } else if name == "mtp.layers.0.mlp.up_proj.weight"@ {
        reveal_strlit("mtp.layers.0.mlp.up_proj.weight");
        assert(name.subrange(13, 17) =~= "mlp."@);
        assert(holds_at(name, "mlp."@, 13));
    } else if name == "mtp.layers.0.self_attn.k_norm.weight"@ {
        reveal_strlit("mtp.layers.0.self_attn.k_norm.weight");
        assert(name.subrange(25, 29) =~= "norm"@);
        assert(holds_at(name, "norm"@, 25));
    } else if name == "mtp.layers.0.self_attn.q_norm.weight"@ {
        reveal_strlit("mtp.layers.0.self_attn.q_norm.weight");
        assert(name.subrange(25, 29) =~= "norm"@);
        assert(holds_at(name, "norm"@, 25));
    } else if name == "mtp.layers.0.self_attn.k_proj.weight"@ {
        reveal_strlit("mtp.layers.0.self_attn.k_proj.weight");
        assert(name.subrange(13, 23) =~= "self_attn."@);
        assert(holds_at(name, "self_attn."@, 13));
    } else if name == "mtp.layers.0.self_attn.v_proj.weight"@ {
        reveal_strlit("mtp.layers.0.self_attn.v_proj.weight");
        assert(name.subrange(13, 23) =~= "self_attn."@);
        assert(holds_at(name, "self_attn."@, 13));
    } else if name == "mtp.layers.0.self_attn.o_proj.weight"@ {
        reveal_strlit("mtp.layers.0.self_attn.o_proj.weight");
        assert(name.subrange(13, 23) =~= "self_attn."@);
        assert(holds_at(name, "self_attn."@, 13));
    } else if name == "mtp.layers.0.self_attn.q_proj.weight"@ {
        reveal_strlit("mtp.layers.0.self_attn.q_proj.weight");
        assert(name.subrange(13, 23) =~= "self_attn."@);
        assert(holds_at(name, "self_attn."@, 13));
    }
}

proof fn lemma_vision_frame_tensor_suits(name: Seq<char>)
    requires
        vision_frame_tensor(name) is Some,
    ensures
        suits(name, vision_frame_tensor(name)->0),
        vision_frame_tensor(name)->0.scope is DeferredVision,
{
    reveal_strlit(".bias");
    reveal_strlit("merger.");
    reveal_strlit("norm");
    reveal_strlit("patch_embed");
    reveal_strlit("pos_embed");
    if name == "model.visual.patch_embed.proj.weight"@ {
        reveal_strlit("model.visual.patch_embed.proj.weight");
        assert(name.subrange(13, 24) =~= "patch_embed"@);
        assert(holds_at(name, "patch_embed"@, 13));
    } else if name == "model.visual.patch_embed.proj.bias"@ {
        reveal_strlit("model.visual.patch_embed.proj.bias");
        assert(name.subrange(29, 34) =~= ".bias"@);
        assert(holds_at(name, ".bias"@, 29));
    } else if name == "model.visual.pos_embed.weight"@ {
        reveal_strlit("model.visual.pos_embed.weight");
        assert(name.subrange(13, 22) =~= "pos_embed"@);
        assert(holds_at(name, "pos_embed"@, 13));
    } else if name == "model.visual.merger.linear_fc1.bias"@ {
        reveal_strlit("model.visual.merger.linear_fc1.bias");
        assert(name.subrange(30, 35) =~= ".bias"@);
        assert(holds_at(name, ".bias"@, 30));
    } else if name == "model.visual.merger.linear_fc1.weight"@ {
        reveal_strlit("model.visual.merger.linear_fc1.weight");
        assert(name.subrange(13, 20) =~= "merger."@);
        assert(holds_at(name, "merger."@, 13));
    } else if name == "model.visual.merger.linear_fc2.bias"@ {
        reveal_strlit("model.visual.merger.linear_fc2.bias");
        assert(name.subrange(30, 35) =~= ".bias"@);
        assert(holds_at(name, ".bias"@, 30));
    } else if name == "model.visual.merger.linear_fc2.weight"@ {
        reveal_strlit("model.visual.merger.linear_fc2.weight");
        assert(name.subrange(13, 20) =~= "merger."@);
        assert(holds_at(name, "merger."@, 13));
    } else if name == "model.visual.merger.norm.bias"@ {
        reveal_strlit("model.visual.merger.norm.bias");
        assert(name.subrange(20, 24) =~= "norm"@);
        assert(holds_at(name, "norm"@, 20));
    } else if name == "model.visual.merger.norm.weight"@ {
        reveal_strlit("model.visual.merger.norm.weight");
        assert(name.subrange(20, 24) =~= "norm"@);
        assert(holds_at(name, "norm"@, 20));
    }
}

proof fn lemma_block_tensor_suits(name: Seq<char>)
    requires
        block_tensor(name) is Some,
    ensures
        suits(name, block_tensor(name)->0),
        block_tensor(name)->0.scope is DeferredVision,
{
    reveal_strlit(".bias");
    reveal_strlit("attn.");
    reveal_strlit("mlp.");
    reveal_strlit("norm");
    if name == "attn.proj.bias"@ {
        reveal_strlit("attn.proj.bias");
        assert(name.subrange(9, 14) =~= ".bias"@);
        assert(holds_at(name, ".bias"@, 9));
    } else if name == "attn.proj.weight"@ {
        reveal_strlit("attn.proj.weight");
        assert(name.subrange(0, 5) =~= "attn."@);
        assert(holds_at(name, "attn."@, 0));
    } else if name == "attn.qkv.bias"@ {
        reveal_strlit("attn.qkv.bias");
        assert(name.subrange(8, 13) =~= ".bias"@);
        assert(holds_at(name, ".bias"@, 8));
    } else if name == "attn.qkv.weight"@ {
        reveal_strlit("attn.qkv.weight");
        assert(name.subrange(0, 5) =~= "attn."@);
        assert(holds_at(name, "attn."@, 0));
    } else if name == "mlp.linear_fc1.bias"@ {
        reveal_strlit("mlp.linear_fc1.bias");
        assert(name.subrange(14, 19) =~= ".bias"@);
        assert(holds_at(name, ".bias"@, 14));
    } else if name == "mlp.linear_fc1.weight"@ {
        reveal_strlit("mlp.linear_fc1.weight");
        assert(name.subrange(0, 4) =~= "mlp."@);
        assert(holds_at(name, "mlp."@, 0));
    } else if name == "mlp.linear_fc2.bias"@ {
        reveal_strlit("mlp.linear_fc2.bias");
        assert(name.subrange(14, 19) =~= ".bias"@);
        assert(holds_at(name, ".bias"@, 14));
    } else if name == "mlp.linear_fc2.weight"@ {
        reveal_strlit("mlp.linear_fc2.weight");
        assert(name.subrange(0, 4) =~= "mlp."@);
        assert(holds_at(name, "mlp."@, 0));
    } else if name == "norm1.bias"@ {
        reveal_strlit("norm1.bias");
        assert(name.subrange(0, 4) =~= "norm"@);
        assert(holds_at(name, "norm"@, 0));
    } else if name == "norm1.weight"@ {
        reveal_strlit("norm1.weight");
        assert(name.subrange(0, 4) =~= "norm"@);
        assert(holds_at(name, "norm"@, 0));
    } else if name == "norm2.bias"@ {
        reveal_strlit("norm2.bias");
        assert(name.subrange(0, 4) =~= "norm"@);
        assert(holds_at(name, "norm"@, 0));
    } else if name == "norm2.weight"@ {
        reveal_strlit("norm2.weight");
        assert(name.subrange(0, 4) =~= "norm"@);
        assert(holds_at(name, "norm"@, 0));
    }
}

proof fn lemma_layer_suits(rest: Seq<char>)
    requires
        layer_tensor(rest) is Ok,
    ensures
        suits(rest, layer_tensor(rest)->Ok_0),
        layer_tensor(rest)->Ok_0.scope is Language,
{
    let dot = crate::text::first_at(rest, '.', 0);
    let suffix = rest.skip(dot + 1);
    let layer = crate::text::small_number(rest.take(dot))->0;
    let tensor = layer_tensor(rest)->Ok_0;
    lemma_first_at(rest, 0);
    if common_tensor(suffix) is Some {
        lemma_common_tensor_suits(suffix);
    } else if delta_tensor(suffix) is Some && attention_tensor(layer, suffix) == Ok::<
        ExpectedView,
        crate::coverage_schedule::ClassificationFailure,
    >(delta_tensor(suffix)->0) {
        lemma_delta_tensor_suits(suffix);
    } else {
        lemma_full_attention_tensor_suits(suffix);
    }
    lemma_mentions_later(rest, dot + 1, word_of(tensor.role));
}

pub proof fn lemma_first_at(text: Seq<char>, from: int)
    requires
        0 <= from <= text.len(),
    ensures
        from <= crate::text::first_at(text, '.', from) <= text.len(),
    decreases text.len() - from,
{
    if from < text.len() && text[from] != '.' {
        lemma_first_at(text, from + 1);
    }
}

/// A scheduled tensor's name says its role and its component: it holds the role's word, and only
/// names that begin with `mtp.` or `model.visual.` are the drafter's or the vision tower's. Its
/// shape has as many dimensions as the role asks for.
pub proof fn names_say_role_and_component(name: Seq<char>)
    requires
        scheduled(name) is Ok,
    ensures
        suits(name, scheduled(name)->Ok_0),
        scheduled(name)->Ok_0.scope is MtpDrafter ==> begins_with(name, "mtp."@),
        scheduled(name)->Ok_0.scope is DeferredVision ==> begins_with(name, "model.visual."@),
        begins_with(name, "model.language_model.layers."@) ==> scheduled(
            name,
        )->Ok_0.scope is Language,
{
    if top_tensor(name) is Some {
        lemma_top_tensor_suits(name);
    } else if begins_with(name, "model.language_model.layers."@) {
        let skipped = "model.language_model.layers."@.len() as int;
        lemma_layer_suits(name.skip(skipped));
        lemma_mentions_later(name, skipped, word_of(scheduled(name)->Ok_0.role));
    } else if begins_with(name, "mtp."@) {
        lemma_mtp_tensor_suits(name);
    } else if vision_frame_tensor(name) is Some {
        lemma_vision_frame_tensor_suits(name);
    } else {
        let skipped = "model.visual.blocks."@.len() as int;
        let rest = name.skip(skipped);
        let dot = crate::text::first_at(rest, '.', 0);
        lemma_first_at(rest, 0);
        lemma_block_tensor_suits(rest.skip(dot + 1));
        lemma_mentions_later(rest, dot + 1, word_of(scheduled(name)->Ok_0.role));
        lemma_mentions_later(name, skipped, word_of(scheduled(name)->Ok_0.role));
    }
}

/// Exactly the matrices outside vision are ternarized, exactly the vision tensors are excluded,
/// and everything else keeps its source precision; so no normalization, recurrent state or
/// convolution is ever ternarized.
pub proof fn only_matrices_are_ternarized(tensor: TensorView)
    requires
        admitted(tensor) is Ok,
    ensures
        ({
            let entry = admitted(tensor)->Ok_0;
            &&& entry.disposition is AdditiveTernary <==> !(entry.scope is DeferredVision)
                && tensor.shape.len() == 2
            &&& entry.disposition is ExcludedFutureVision <==> entry.scope is DeferredVision
            &&& entry.disposition is PreserveSource <==> !(entry.scope is DeferredVision)
                && tensor.shape.len() != 2
            &&& entry.role is Normalization || entry.role is DeltaNetState
                || entry.role is DeltaNetConvolution || entry.role is Bias
                ==> !(entry.disposition is AdditiveTernary)
            &&& entry.role is MlpProjection || entry.role is DeltaNetProjection
                || entry.role is FullAttentionProjection || entry.role is TokenEmbedding
                || entry.role is OutputHead || entry.role is MtpFusionProjection
                ==> entry.scope is DeferredVision || entry.disposition is AdditiveTernary
        }),
{
    names_say_role_and_component(tensor.name);
}

/// An admitted tensor keeps its name and shape, has the scheduled shape, and counts one
/// coefficient per place of its shape.
pub proof fn entries_describe_their_tensor(tensor: TensorView)
    requires
        admitted(tensor) is Ok,
    ensures
        ({
            let entry = admitted(tensor)->Ok_0;
            &&& entry.name == tensor.name
            &&& entry.shape == tensor.shape
            &&& scheduled(tensor.name) is Ok
            &&& entry.shape == scheduled(tensor.name)->Ok_0.shape
            &&& entry.scope == scheduled(tensor.name)->Ok_0.scope
            &&& entry.role == scheduled(tensor.name)->Ok_0.role
            &&& tensor.dtype == "BF16"@
            &&& tensor.shape.len() == 1 ==> entry.coefficients == tensor.shape[0]
            &&& tensor.shape.len() == 2 ==> entry.coefficients == tensor.shape[0]
                * tensor.shape[1]
            &&& tensor.shape.len() == 3 ==> entry.coefficients == tensor.shape[0]
                * tensor.shape[1] * tensor.shape[2]
        }),
{
    reveal_with_fuel(product, 4);
    let shape = tensor.shape;
    if shape.len() == 1 {
        assert(shape.drop_last() =~= Seq::empty());
    } else if shape.len() == 2 {
        assert(shape.drop_last().drop_last() =~= Seq::empty());
        assert(shape.drop_last().last() == shape[0]);
        assert(1 * shape[0] as nat == shape[0]);
    } else if shape.len() == 3 {
        assert(shape.drop_last().drop_last().drop_last() =~= Seq::empty());
        assert(shape.drop_last().drop_last().last() == shape[0]);
        assert(shape.drop_last().last() == shape[1]);
        assert(1 * shape[0] as nat == shape[0]);
    }
}

/// How many entries are wanted.
pub open spec fn counted(entries: Seq<EntryView>, wanted: spec_fn(EntryView) -> bool) -> nat
    decreases entries.len(),
{
    if entries.len() == 0 {
        0
    } else {
        counted(entries.drop_last(), wanted) + if wanted(entries.last()) {
            1nat
        } else {
            0nat
        }
    }
}

/// How many coefficients the wanted entries have.
pub open spec fn summed(entries: Seq<EntryView>, wanted: spec_fn(EntryView) -> bool) -> nat
    decreases entries.len(),
{
    if entries.len() == 0 {
        0
    } else {
        summed(entries.drop_last(), wanted) + if wanted(entries.last()) {
            entries.last().coefficients as nat
        } else {
            0nat
        }
    }
}

proof fn lemma_totals(
    entries: Seq<EntryView>,
    part: CoveragePart,
    wanted: spec_fn(EntryView) -> bool,
)
    requires
        forall|k: int|
            0 <= k < entries.len() ==> (crate::qwen35_coverage::in_part(#[trigger] entries[k], part)
                <==> wanted(entries[k])),
    ensures
        totals(entries, part).tensors == counted(entries, wanted),
        totals(entries, part).coefficients == summed(entries, wanted),
    decreases entries.len(),
{
    if entries.len() > 0 {
        let front = entries.drop_last();
        assert forall|k: int| 0 <= k < front.len() implies (crate::qwen35_coverage::in_part(
            #[trigger] front[k],
            part,
        ) <==> wanted(front[k])) by {
            assert(front[k] == entries[k]);
        }
        lemma_totals(front, part, wanted);
        assert(entries.last() == entries[entries.len() - 1]);
    }
}

/// Of the pinned release's 1199 tensors, the 506 matrices of the language model and the drafter
/// are ternarized, 360 other tensors of these are preserved and the 333 vision tensors are
/// excluded.
pub proof fn covered_sets_have_the_pinned_totals(revision: Seq<char>, tensors: Seq<TensorView>)
    requires
        covered(revision, tensors) is Ok,
    ensures
        ({
            let entries = covered(revision, tensors)->Ok_0;
            let outside = |entry: EntryView| !(entry.scope is DeferredVision);
            let matrix = |entry: EntryView| outside(entry) && entry.shape.len() == 2;
            let other = |entry: EntryView| outside(entry) && entry.shape.len() != 2;
            let ternary = |entry: EntryView| entry.disposition is AdditiveTernary;
            let kept = |entry: EntryView| entry.disposition is PreserveSource;
            let vision = |entry: EntryView| entry.scope is DeferredVision;
            let drafter = |entry: EntryView| entry.scope is MtpDrafter;
            &&& revision == "6a9e13bd6fc8f0983b9b99948120bc37f49c13e9"@
            &&& entries.len() == 1199
            &&& counted(entries, matrix) == 506 && summed(entries, matrix) == 27_318_026_240
            &&& counted(entries, ternary) == 506 && summed(entries, ternary) == 27_318_026_240
            &&& counted(entries, other) == 360 && summed(entries, other) == 2_671_616
            &&& counted(entries, kept) == 360 && summed(entries, kept) == 2_671_616
            &&& counted(entries, vision) == 333 && summed(entries, vision) == 460_730_096
            &&& counted(entries, drafter) == 15 && summed(entries, drafter) == 424_699_392
            &&& counted(entries, outside) == 866 && summed(entries, outside) == 27_320_697_856
        }),
{
    let entries = covered(revision, tensors)->Ok_0;
    covered_sets_are_pinned(revision, tensors);
    let outside = |entry: EntryView| !(entry.scope is DeferredVision);
    let matrix = |entry: EntryView| outside(entry) && entry.shape.len() == 2;
    let other = |entry: EntryView| outside(entry) && entry.shape.len() != 2;
    let ternary = |entry: EntryView| entry.disposition is AdditiveTernary;
    let kept = |entry: EntryView| entry.disposition is PreserveSource;
    let vision = |entry: EntryView| entry.scope is DeferredVision;
    let drafter = |entry: EntryView| entry.scope is MtpDrafter;
    assert forall|k: int| 0 <= k < entries.len() implies (
    #[trigger] entries[k].disposition is AdditiveTernary <==> matrix(entries[k])) && (
    entries[k].disposition is PreserveSource <==> other(entries[k])) by {
        assert(is_admitted(entries[k]));
        only_matrices_are_ternarized(
            TensorView { name: entries[k].name, dtype: "BF16"@, shape: entries[k].shape },
        );
    }
    lemma_totals(entries, CoveragePart::AdditiveTernary, matrix);
    lemma_totals(entries, CoveragePart::AdditiveTernary, ternary);
    lemma_totals(entries, CoveragePart::PreserveSource, other);
    lemma_totals(entries, CoveragePart::PreserveSource, kept);
    lemma_totals(entries, CoveragePart::Vision, vision);
    lemma_totals(entries, CoveragePart::Mtp, drafter);
    lemma_totals(entries, CoveragePart::Included, outside);
}

/// The roles in the order of their tags.
pub open spec fn roles() -> Seq<Qwen35TensorRole> {
    seq![
        Qwen35TensorRole::TokenEmbedding,
        Qwen35TensorRole::OutputHead,
        Qwen35TensorRole::Normalization,
        Qwen35TensorRole::MlpProjection,
        Qwen35TensorRole::FullAttentionProjection,
        Qwen35TensorRole::DeltaNetProjection,
        Qwen35TensorRole::DeltaNetState,
        Qwen35TensorRole::DeltaNetConvolution,
        Qwen35TensorRole::MtpFusionProjection,
        Qwen35TensorRole::VisionAttentionProjection,
        Qwen35TensorRole::VisionMlpProjection,
        Qwen35TensorRole::VisionPatchEmbedding,
        Qwen35TensorRole::VisionPositionalEmbedding,
        Qwen35TensorRole::VisionMergerProjection,
        Qwen35TensorRole::Bias,
    ]
}

/// Roles are tagged by their place in the list, from one on, so that a tag tells the role.
pub proof fn tags_tell_roles_apart(left: Qwen35TensorRole, right: Qwen35TensorRole)
    ensures
        1 <= role_number(left) <= 15,
        roles()[role_number(left) - 1] == left,
        role_number(left) == role_number(right) ==> left == right,
{
}

/// Tags tell components and actions apart, and follow their order.
pub proof fn tags_tell_components_and_actions_apart(
    scope: Qwen35TensorScope,
    action: Qwen35CoverageDisposition,
)
    ensures
        seq![
            Qwen35TensorScope::Language,
            Qwen35TensorScope::MtpDrafter,
            Qwen35TensorScope::DeferredVision,
        ][scope_number(scope) - 1] == scope,
        1 <= scope_number(scope) <= 3,
        seq![
            Qwen35CoverageDisposition::AdditiveTernary,
            Qwen35CoverageDisposition::PreserveSource,
            Qwen35CoverageDisposition::ExcludedFutureVision,
        ][disposition_number(action) - 1] == action,
        1 <= disposition_number(action) <= 3,
{
}

/// Every fourth language layer, the last of each four, has full attention; the others have
/// DeltaNet tensors only.
pub proof fn attention_families_do_not_mix(layer: u8, suffix: Seq<char>)
    requires
        attention_tensor(layer, suffix) is Ok,
    ensures
        layer % 4 == 3 <==> begins_with(suffix, "self_attn."@),
        layer % 4 != 3 <==> begins_with(suffix, "linear_attn."@),
{
    reveal_strlit("self_attn.");
    reveal_strlit("linear_attn.");
    assert("self_attn."@[0] != "linear_attn."@[0]);
    if layer % 4 == 3 {
        lemma_full_attention_tensor_suits(suffix);
        assert(suffix[0] == suffix.take(10)[0]);
        assert(suffix.take("self_attn."@.len() as int)[0] == suffix[0]);
    } else {
        lemma_delta_tensor_suits(suffix);
        assert(suffix.take("linear_attn."@.len() as int)[0] == suffix[0]);
    }
    if begins_with(suffix, "self_attn."@) {
        assert(suffix.take("self_attn."@.len() as int)[0] == suffix[0]);
    }
    if begins_with(suffix, "linear_attn."@) {
        assert(suffix.take("linear_attn."@.len() as int)[0] == suffix[0]);
    }
}

} // verus!
