//! How the scheduled tensors fit together.

use crate::coverage_laws::{holds_at, lemma_first_at, lemma_mentions_later, mentions};
use crate::coverage_schedule::{
    block_tensor, common_tensor, delta_tensor, full_attention_tensor, layer_tensor, mtp_tensor,
    numbered_block_tensor, scheduled, top_tensor, vision_frame_tensor, Qwen35TensorRole,
};
use crate::text::{begins_with, first_at, small_number};
use vstd::prelude::*;

verus! {

/// Width of the residual stream that every layer reads and writes.
pub open spec fn residual() -> u64 {
    5120
}

/// Whether a layer's projection reads the residual stream, and is named so.
pub open spec fn reads(name: Seq<char>, shape: Seq<u64>) -> bool {
    &&& shape[1] == residual()
    &&& mentions(name, "gate_proj"@) || mentions(name, "up_proj"@) || mentions(name, "q_proj"@)
        || mentions(name, "k_proj"@) || mentions(name, "v_proj"@) || mentions(name, "in_proj"@)
}

/// Whether a layer's projection writes the residual stream, and is named so.
pub open spec fn writes(name: Seq<char>, shape: Seq<u64>) -> bool {
    &&& shape[0] == residual()
    &&& mentions(name, "down_proj"@) || mentions(name, "out_proj"@) || mentions(name, "o_proj"@)
}

/// Whether a matrix is of a kind that stands inside a layer.
pub open spec fn in_layer(role: Qwen35TensorRole) -> bool {
    role is MlpProjection || role is DeltaNetProjection || role is FullAttentionProjection
}

proof fn lemma_common_tensor_connects(name: Seq<char>)
    requires
        common_tensor(name) is Some,
        in_layer(common_tensor(name)->0.role),
    ensures
        reads(name, common_tensor(name)->0.shape) || writes(name, common_tensor(name)->0.shape),
        common_tensor(name)->0.shape.len() == 2,
{
    reveal_strlit("down_proj");
    reveal_strlit("gate_proj");
    reveal_strlit("up_proj");
    if name == "mlp.down_proj.weight"@ {
        reveal_strlit("mlp.down_proj.weight");
        assert(name.subrange(4, 13) =~= "down_proj"@);
        assert(holds_at(name, "down_proj"@, 4));
    } else if name == "mlp.gate_proj.weight"@ {
        reveal_strlit("mlp.gate_proj.weight");
        assert(name.subrange(4, 13) =~= "gate_proj"@);
        assert(holds_at(name, "gate_proj"@, 4));
    } else if name == "mlp.up_proj.weight"@ {
        reveal_strlit("mlp.up_proj.weight");
        assert(name.subrange(4, 11) =~= "up_proj"@);
        assert(holds_at(name, "up_proj"@, 4));
    }
}

proof fn lemma_delta_tensor_connects(name: Seq<char>)
    requires
        delta_tensor(name) is Some,
        in_layer(delta_tensor(name)->0.role),
    ensures
        reads(name, delta_tensor(name)->0.shape) || writes(name, delta_tensor(name)->0.shape),
        delta_tensor(name)->0.shape.len() == 2,
{
    reveal_strlit("in_proj");
    reveal_strlit("out_proj");
    if name == "linear_attn.in_proj_a.weight"@ {
        reveal_strlit("linear_attn.in_proj_a.weight");
        assert(name.subrange(12, 19) =~= "in_proj"@);
        assert(holds_at(name, "in_proj"@, 12));
    } else if name == "linear_attn.in_proj_b.weight"@ {
        reveal_strlit("linear_attn.in_proj_b.weight");
        assert(name.subrange(12, 19) =~= "in_proj"@);
        assert(holds_at(name, "in_proj"@, 12));
    } else if name == "linear_attn.in_proj_qkv.weight"@ {
        reveal_strlit("linear_attn.in_proj_qkv.weight");
        assert(name.subrange(12, 19) =~= "in_proj"@);
        assert(holds_at(name, "in_proj"@, 12));
    } else if name == "linear_attn.in_proj_z.weight"@ {
        reveal_strlit("linear_attn.in_proj_z.weight");
        assert(name.subrange(12, 19) =~= "in_proj"@);
        assert(holds_at(name, "in_proj"@, 12));
    } else if name == "linear_attn.out_proj.weight"@ {
        reveal_strlit("linear_attn.out_proj.weight");
        assert(name.subrange(12, 20) =~= "out_proj"@);
        assert(holds_at(name, "out_proj"@, 12));
    }
}

proof fn lemma_full_attention_tensor_connects(name: Seq<char>)
    requires
        full_attention_tensor(name) is Some,
        in_layer(full_attention_tensor(name)->0.role),
    ensures
        reads(name, full_attention_tensor(name)->0.shape) || writes(name, full_attention_tensor(name)->0.shape),
        full_attention_tensor(name)->0.shape.len() == 2,
{
    reveal_strlit("k_proj");
    reveal_strlit("o_proj");
    reveal_strlit("q_proj");
    reveal_strlit("v_proj");
    if name == "self_attn.k_proj.weight"@ {
        reveal_strlit("self_attn.k_proj.weight");
        assert(name.subrange(10, 16) =~= "k_proj"@);
        assert(holds_at(name, "k_proj"@, 10));
    } else if name == "self_attn.v_proj.weight"@ {
        reveal_strlit("self_attn.v_proj.weight");
        assert(name.subrange(10, 16) =~= "v_proj"@);
        assert(holds_at(name, "v_proj"@, 10));
    } else if name == "self_attn.o_proj.weight"@ {
        reveal_strlit("self_attn.o_proj.weight");
        assert(name.subrange(10, 16) =~= "o_proj"@);
        assert(holds_at(name, "o_proj"@, 10));
    } else if name == "self_attn.q_proj.weight"@ {
        reveal_strlit("self_attn.q_proj.weight");
        assert(name.subrange(10, 16) =~= "q_proj"@);
        assert(holds_at(name, "q_proj"@, 10));
    }
}

proof fn lemma_mtp_tensor_connects(name: Seq<char>)
    requires
        mtp_tensor(name) is Some,
        in_layer(mtp_tensor(name)->0.role),
    ensures
        reads(name, mtp_tensor(name)->0.shape) || writes(name, mtp_tensor(name)->0.shape),
        mtp_tensor(name)->0.shape.len() == 2,
{
    reveal_strlit("down_proj");
    reveal_strlit("gate_proj");
    reveal_strlit("k_proj");
    reveal_strlit("o_proj");
    reveal_strlit("q_proj");
    reveal_strlit("up_proj");
    reveal_strlit("v_proj");
    if name == "mtp.layers.0.mlp.down_proj.weight"@ {
        reveal_strlit("mtp.layers.0.mlp.down_proj.weight");
        assert(name.subrange(17, 26) =~= "down_proj"@);
        assert(holds_at(name, "down_proj"@, 17));
    } else if name == "mtp.layers.0.mlp.gate_proj.weight"@ {
        reveal_strlit("mtp.layers.0.mlp.gate_proj.weight");
        assert(name.subrange(17, 26) =~= "gate_proj"@);
        assert(holds_at(name, "gate_proj"@, 17));
    } else if name == "mtp.layers.0.mlp.up_proj.weight"@ {
        reveal_strlit("mtp.layers.0.mlp.up_proj.weight");
        assert(name.subrange(17, 24) =~= "up_proj"@);
        assert(holds_at(name, "up_proj"@, 17));
    } else if name == "mtp.layers.0.self_attn.k_proj.weight"@ {
        reveal_strlit("mtp.layers.0.self_attn.k_proj.weight");
        assert(name.subrange(23, 29) =~= "k_proj"@);
        assert(holds_at(name, "k_proj"@, 23));
    } else if name == "mtp.layers.0.self_attn.v_proj.weight"@ {
        reveal_strlit("mtp.layers.0.self_attn.v_proj.weight");
        assert(name.subrange(23, 29) =~= "v_proj"@);
        assert(holds_at(name, "v_proj"@, 23));
    } else if name == "mtp.layers.0.self_attn.o_proj.weight"@ {
        reveal_strlit("mtp.layers.0.self_attn.o_proj.weight");
        assert(name.subrange(23, 29) =~= "o_proj"@);
        assert(holds_at(name, "o_proj"@, 23));
    } else if name == "mtp.layers.0.self_attn.q_proj.weight"@ {
        reveal_strlit("mtp.layers.0.self_attn.q_proj.weight");
        assert(name.subrange(23, 29) =~= "q_proj"@);
        assert(holds_at(name, "q_proj"@, 23));
    }
}

/// Every projection of a language or drafter layer reads or writes the residual stream on the
/// side that its name says; the token table and the output head have rows of its width, and the
/// drafter fuses two of it into one.
pub proof fn projections_meet_at_the_residual(name: Seq<char>)
    requires
        scheduled(name) is Ok,
    ensures
        ({
            let tensor = scheduled(name)->Ok_0;
            &&& in_layer(tensor.role) ==> tensor.shape.len() == 2 && (reads(name, tensor.shape)
                || writes(name, tensor.shape))
            &&& tensor.role is TokenEmbedding || tensor.role is OutputHead ==> tensor.shape == seq![
                248_320u64,
                residual(),
            ]
            &&& tensor.role is MtpFusionProjection ==> tensor.shape == seq![
                residual(),
                (2 * residual()) as u64,
            ]
        }),
{
    let tensor = scheduled(name)->Ok_0;
    if top_tensor(name) is Some {
    } else if begins_with(name, "model.language_model.layers."@) {
        let skipped = "model.language_model.layers."@.len() as int;
        let rest = name.skip(skipped);
        let dot = first_at(rest, '.', 0);
        lemma_first_at(rest, 0);
        let suffix = rest.skip(dot + 1);
        if in_layer(tensor.role) {
            if common_tensor(suffix) is Some {
                lemma_common_tensor_connects(suffix);
            } else if delta_tensor(suffix) is Some && tensor == delta_tensor(suffix)->0 {
                lemma_delta_tensor_connects(suffix);
            } else {
                lemma_full_attention_tensor_connects(suffix);
            }
            lemma_mentioned_before(rest, dot + 1);
            lemma_mentioned_before(name, skipped);
        }
    } else if begins_with(name, "mtp."@) {
        if in_layer(tensor.role) {
            lemma_mtp_tensor_connects(name);
        }
    } else if vision_frame_tensor(name) is Some {
    } else {
        let skipped = "model.visual.blocks."@.len() as int;
        let rest = name.skip(skipped);
        let dot = first_at(rest, '.', 0);
        assert(block_tensor(rest.skip(dot + 1)) is Some);
    }
}

/// What the rest of a text mentions, the text mentions.
proof fn lemma_mentioned_before(text: Seq<char>, skipped: int)
    requires
        0 <= skipped <= text.len(),
    ensures
        forall|part: Seq<char>| #[trigger]
            mentions(text.skip(skipped), part) ==> mentions(text, part),
{
    assert forall|part: Seq<char>| #[trigger] mentions(text.skip(skipped), part) implies mentions(
        text,
        part,
    ) by {
        lemma_mentions_later(text, skipped, part);
    }
}

/// The drafter's one layer is shaped as a language layer with full attention: each tensor has the
/// shape and the role of its namesake.
pub proof fn the_drafter_layer_mirrors_a_language_layer(suffix: Seq<char>)
    requires
        common_tensor(suffix) is Some || full_attention_tensor(suffix) is Some,
    ensures
        ({
            let there = if common_tensor(suffix) is Some {
                common_tensor(suffix)->0
            } else {
                full_attention_tensor(suffix)->0
            };
            let here = mtp_tensor("mtp.layers.0."@ + suffix);
            &&& here is Some
            &&& here->0.shape == there.shape
            &&& here->0.role == there.role
            &&& here->0.scope is MtpDrafter
            &&& there.scope is Language
        }),
{
    reveal_strlit("mtp.layers.0.");
    reveal_strlit("input_layernorm.weight");
    reveal_strlit("post_attention_layernorm.weight");
    reveal_strlit("mlp.down_proj.weight");
    reveal_strlit("mlp.gate_proj.weight");
    reveal_strlit("mlp.up_proj.weight");
    reveal_strlit("self_attn.k_norm.weight");
    reveal_strlit("self_attn.q_norm.weight");
    reveal_strlit("self_attn.k_proj.weight");
    reveal_strlit("self_attn.v_proj.weight");
    reveal_strlit("self_attn.o_proj.weight");
    reveal_strlit("self_attn.q_proj.weight");
    reveal_strlit("mtp.fc.weight");
    reveal_strlit("mtp.layers.0.input_layernorm.weight");
    reveal_strlit("mtp.layers.0.post_attention_layernorm.weight");
    reveal_strlit("mtp.norm.weight");
    reveal_strlit("mtp.pre_fc_norm_embedding.weight");
    reveal_strlit("mtp.pre_fc_norm_hidden.weight");
    reveal_strlit("mtp.layers.0.mlp.down_proj.weight");
    reveal_strlit("mtp.layers.0.mlp.gate_proj.weight");
    reveal_strlit("mtp.layers.0.mlp.up_proj.weight");
    reveal_strlit("mtp.layers.0.self_attn.k_norm.weight");
    reveal_strlit("mtp.layers.0.self_attn.q_norm.weight");
    reveal_strlit("mtp.layers.0.self_attn.k_proj.weight");
    reveal_strlit("mtp.layers.0.self_attn.v_proj.weight");
    reveal_strlit("mtp.layers.0.self_attn.o_proj.weight");
    reveal_strlit("mtp.layers.0.self_attn.q_proj.weight");
    if suffix == "input_layernorm.weight"@ {
        assert("mtp.layers.0.input_layernorm.weight"@.len() != "mtp.fc.weight"@.len());
        assert("mtp.layers.0."@ + suffix =~= "mtp.layers.0.input_layernorm.weight"@);
    } else if suffix == "post_attention_layernorm.weight"@ {
        assert("mtp.layers.0.post_attention_layernorm.weight"@.len() != "mtp.fc.weight"@.len());
        assert("mtp.layers.0.post_attention_layernorm.weight"@.len() != "mtp.layers.0.input_layernorm.weight"@.len());
        assert("post_attention_layernorm.weight"@.len() != "input_layernorm.weight"@.len());
        assert("mtp.layers.0."@ + suffix =~= "mtp.layers.0.post_attention_layernorm.weight"@);
    } else if suffix == "mlp.down_proj.weight"@ {
        assert("mtp.layers.0.mlp.down_proj.weight"@.len() != "mtp.fc.weight"@.len());
        assert("mtp.layers.0.mlp.down_proj.weight"@.len() != "mtp.layers.0.input_layernorm.weight"@.len());
        assert("mtp.layers.0.mlp.down_proj.weight"@.len() != "mtp.layers.0.post_attention_layernorm.weight"@.len());
        assert("mtp.layers.0.mlp.down_proj.weight"@.len() != "mtp.norm.weight"@.len());
        assert("mtp.layers.0.mlp.down_proj.weight"@.len() != "mtp.pre_fc_norm_embedding.weight"@.len());
        assert("mtp.layers.0.mlp.down_proj.weight"@.len() != "mtp.pre_fc_norm_hidden.weight"@.len());
        assert("mlp.down_proj.weight"@.len() != "input_layernorm.weight"@.len());
        assert("mlp.down_proj.weight"@.len() != "post_attention_layernorm.weight"@.len());
        assert("mtp.layers.0."@ + suffix =~= "mtp.layers.0.mlp.down_proj.weight"@);
    } else if suffix == "mlp.gate_proj.weight"@ {
        assert("mtp.layers.0.mlp.gate_proj.weight"@.len() != "mtp.fc.weight"@.len());
        assert("mtp.layers.0.mlp.gate_proj.weight"@.len() != "mtp.layers.0.input_layernorm.weight"@.len());
        assert("mtp.layers.0.mlp.gate_proj.weight"@.len() != "mtp.layers.0.post_attention_layernorm.weight"@.len());
        assert("mtp.layers.0.mlp.gate_proj.weight"@.len() != "mtp.norm.weight"@.len());
        assert("mtp.layers.0.mlp.gate_proj.weight"@.len() != "mtp.pre_fc_norm_embedding.weight"@.len());
        assert("mtp.layers.0.mlp.gate_proj.weight"@.len() != "mtp.pre_fc_norm_hidden.weight"@.len());
        assert("mtp.layers.0.mlp.gate_proj.weight"@[17] != "mtp.layers.0.mlp.down_proj.weight"@[17]);
        assert("mlp.gate_proj.weight"@.len() != "input_layernorm.weight"@.len());
        assert("mlp.gate_proj.weight"@.len() != "post_attention_layernorm.weight"@.len());
        assert("mlp.gate_proj.weight"@[4] != "mlp.down_proj.weight"@[4]);
        assert("mtp.layers.0."@ + suffix =~= "mtp.layers.0.mlp.gate_proj.weight"@);
    } else if suffix == "mlp.up_proj.weight"@ {
        assert("mtp.layers.0.mlp.up_proj.weight"@.len() != "mtp.fc.weight"@.len());
        assert("mtp.layers.0.mlp.up_proj.weight"@.len() != "mtp.layers.0.input_layernorm.weight"@.len());
        assert("mtp.layers.0.mlp.up_proj.weight"@.len() != "mtp.layers.0.post_attention_layernorm.weight"@.len());
        assert("mtp.layers.0.mlp.up_proj.weight"@.len() != "mtp.norm.weight"@.len());
        assert("mtp.layers.0.mlp.up_proj.weight"@.len() != "mtp.pre_fc_norm_embedding.weight"@.len());
        assert("mtp.layers.0.mlp.up_proj.weight"@.len() != "mtp.pre_fc_norm_hidden.weight"@.len());
        assert("mtp.layers.0.mlp.up_proj.weight"@.len() != "mtp.layers.0.mlp.down_proj.weight"@.len());
        assert("mtp.layers.0.mlp.up_proj.weight"@.len() != "mtp.layers.0.mlp.gate_proj.weight"@.len());
        assert("mlp.up_proj.weight"@.len() != "input_layernorm.weight"@.len());
        assert("mlp.up_proj.weight"@.len() != "post_attention_layernorm.weight"@.len());
        assert("mlp.up_proj.weight"@.len() != "mlp.down_proj.weight"@.len());
        assert("mlp.up_proj.weight"@.len() != "mlp.gate_proj.weight"@.len());
        assert("mtp.layers.0."@ + suffix =~= "mtp.layers.0.mlp.up_proj.weight"@);
    } else if suffix == "self_attn.k_norm.weight"@ {
        assert("mtp.layers.0.self_attn.k_norm.weight"@.len() != "mtp.fc.weight"@.len());
        assert("mtp.layers.0.self_attn.k_norm.weight"@.len() != "mtp.layers.0.input_layernorm.weight"@.len());
        assert("mtp.layers.0.self_attn.k_norm.weight"@.len() != "mtp.layers.0.post_attention_layernorm.weight"@.len());
        assert("mtp.layers.0.self_attn.k_norm.weight"@.len() != "mtp.norm.weight"@.len());
        assert("mtp.layers.0.self_attn.k_norm.weight"@.len() != "mtp.pre_fc_norm_embedding.weight"@.len());
        assert("mtp.layers.0.self_attn.k_norm.weight"@.len() != "mtp.pre_fc_norm_hidden.weight"@.len());
        assert("mtp.layers.0.self_attn.k_norm.weight"@.len() != "mtp.layers.0.mlp.down_proj.weight"@.len());
        assert("mtp.layers.0.self_attn.k_norm.weight"@.len() != "mtp.layers.0.mlp.gate_proj.weight"@.len());
        assert("mtp.layers.0.self_attn.k_norm.weight"@.len() != "mtp.layers.0.mlp.up_proj.weight"@.len());
        assert("self_attn.k_norm.weight"@.len() != "input_layernorm.weight"@.len());
        assert("self_attn.k_norm.weight"@.len() != "post_attention_layernorm.weight"@.len());
        assert("self_attn.k_norm.weight"@.len() != "mlp.down_proj.weight"@.len());
        assert("self_attn.k_norm.weight"@.len() != "mlp.gate_proj.weight"@.len());
        assert("self_attn.k_norm.weight"@.len() != "mlp.up_proj.weight"@.len());
        assert("mtp.layers.0."@ + suffix =~= "mtp.layers.0.self_attn.k_norm.weight"@);
    } else if suffix == "self_attn.q_norm.weight"@ {
        assert("mtp.layers.0.self_attn.q_norm.weight"@.len() != "mtp.fc.weight"@.len());
        assert("mtp.layers.0.self_attn.q_norm.weight"@.len() != "mtp.layers.0.input_layernorm.weight"@.len());
        assert("mtp.layers.0.self_attn.q_norm.weight"@.len() != "mtp.layers.0.post_attention_layernorm.weight"@.len());
        assert("mtp.layers.0.self_attn.q_norm.weight"@.len() != "mtp.norm.weight"@.len());
        assert("mtp.layers.0.self_attn.q_norm.weight"@.len() != "mtp.pre_fc_norm_embedding.weight"@.len());
        assert("mtp.layers.0.self_attn.q_norm.weight"@.len() != "mtp.pre_fc_norm_hidden.weight"@.len());
        assert("mtp.layers.0.self_attn.q_norm.weight"@.len() != "mtp.layers.0.mlp.down_proj.weight"@.len());
        assert("mtp.layers.0.self_attn.q_norm.weight"@.len() != "mtp.layers.0.mlp.gate_proj.weight"@.len());
        assert("mtp.layers.0.self_attn.q_norm.weight"@.len() != "mtp.layers.0.mlp.up_proj.weight"@.len());
        assert("mtp.layers.0.self_attn.q_norm.weight"@[23] != "mtp.layers.0.self_attn.k_norm.weight"@[23]);
        assert("self_attn.q_norm.weight"@.len() != "input_layernorm.weight"@.len());
        assert("self_attn.q_norm.weight"@.len() != "post_attention_layernorm.weight"@.len());
        assert("self_attn.q_norm.weight"@.len() != "mlp.down_proj.weight"@.len());
        assert("self_attn.q_norm.weight"@.len() != "mlp.gate_proj.weight"@.len());
        assert("self_attn.q_norm.weight"@.len() != "mlp.up_proj.weight"@.len());
        assert("self_attn.q_norm.weight"@[10] != "self_attn.k_norm.weight"@[10]);
        assert("mtp.layers.0."@ + suffix =~= "mtp.layers.0.self_attn.q_norm.weight"@);
    } else if suffix == "self_attn.k_proj.weight"@ {
        assert("mtp.layers.0.self_attn.k_proj.weight"@.len() != "mtp.fc.weight"@.len());
        assert("mtp.layers.0.self_attn.k_proj.weight"@.len() != "mtp.layers.0.input_layernorm.weight"@.len());
        assert("mtp.layers.0.self_attn.k_proj.weight"@.len() != "mtp.layers.0.post_attention_layernorm.weight"@.len());
        assert("mtp.layers.0.self_attn.k_proj.weight"@.len() != "mtp.norm.weight"@.len());
        assert("mtp.layers.0.self_attn.k_proj.weight"@.len() != "mtp.pre_fc_norm_embedding.weight"@.len());
        assert("mtp.layers.0.self_attn.k_proj.weight"@.len() != "mtp.pre_fc_norm_hidden.weight"@.len());
        assert("mtp.layers.0.self_attn.k_proj.weight"@.len() != "mtp.layers.0.mlp.down_proj.weight"@.len());
        assert("mtp.layers.0.self_attn.k_proj.weight"@.len() != "mtp.layers.0.mlp.gate_proj.weight"@.len());
        assert("mtp.layers.0.self_attn.k_proj.weight"@.len() != "mtp.layers.0.mlp.up_proj.weight"@.len());
        assert("mtp.layers.0.self_attn.k_proj.weight"@[25] != "mtp.layers.0.self_attn.k_norm.weight"@[25]);
        assert("mtp.layers.0.self_attn.k_proj.weight"@[23] != "mtp.layers.0.self_attn.q_norm.weight"@[23]);
        assert("self_attn.k_proj.weight"@.len() != "input_layernorm.weight"@.len());
        assert("self_attn.k_proj.weight"@.len() != "post_attention_layernorm.weight"@.len());
        assert("self_attn.k_proj.weight"@.len() != "mlp.down_proj.weight"@.len());
        assert("self_attn.k_proj.weight"@.len() != "mlp.gate_proj.weight"@.len());
        assert("self_attn.k_proj.weight"@.len() != "mlp.up_proj.weight"@.len());
        assert("self_attn.k_proj.weight"@[12] != "self_attn.k_norm.weight"@[12]);
        assert("self_attn.k_proj.weight"@[10] != "self_attn.q_norm.weight"@[10]);
        assert("mtp.layers.0."@ + suffix =~= "mtp.layers.0.self_attn.k_proj.weight"@);
    } else if suffix == "self_attn.v_proj.weight"@ {
        assert("mtp.layers.0.self_attn.v_proj.weight"@.len() != "mtp.fc.weight"@.len());
        assert("mtp.layers.0.self_attn.v_proj.weight"@.len() != "mtp.layers.0.input_layernorm.weight"@.len());
        assert("mtp.layers.0.self_attn.v_proj.weight"@.len() != "mtp.layers.0.post_attention_layernorm.weight"@.len());
        assert("mtp.layers.0.self_attn.v_proj.weight"@.len() != "mtp.norm.weight"@.len());
        assert("mtp.layers.0.self_attn.v_proj.weight"@.len() != "mtp.pre_fc_norm_embedding.weight"@.len());
        assert("mtp.layers.0.self_attn.v_proj.weight"@.len() != "mtp.pre_fc_norm_hidden.weight"@.len());
        assert("mtp.layers.0.self_attn.v_proj.weight"@.len() != "mtp.layers.0.mlp.down_proj.weight"@.len());
        assert("mtp.layers.0.self_attn.v_proj.weight"@.len() != "mtp.layers.0.mlp.gate_proj.weight"@.len());
        assert("mtp.layers.0.self_attn.v_proj.weight"@.len() != "mtp.layers.0.mlp.up_proj.weight"@.len());
        assert("mtp.layers.0.self_attn.v_proj.weight"@[23] != "mtp.layers.0.self_attn.k_norm.weight"@[23]);
        assert("mtp.layers.0.self_attn.v_proj.weight"@[23] != "mtp.layers.0.self_attn.q_norm.weight"@[23]);
        assert("mtp.layers.0.self_attn.v_proj.weight"@[23] != "mtp.layers.0.self_attn.k_proj.weight"@[23]);
        assert("self_attn.v_proj.weight"@.len() != "input_layernorm.weight"@.len());
        assert("self_attn.v_proj.weight"@.len() != "post_attention_layernorm.weight"@.len());
        assert("self_attn.v_proj.weight"@.len() != "mlp.down_proj.weight"@.len());
        assert("self_attn.v_proj.weight"@.len() != "mlp.gate_proj.weight"@.len());
        assert("self_attn.v_proj.weight"@.len() != "mlp.up_proj.weight"@.len());
        assert("self_attn.v_proj.weight"@[10] != "self_attn.k_norm.weight"@[10]);
        assert("self_attn.v_proj.weight"@[10] != "self_attn.q_norm.weight"@[10]);
        assert("self_attn.v_proj.weight"@[10] != "self_attn.k_proj.weight"@[10]);
        assert("mtp.layers.0."@ + suffix =~= "mtp.layers.0.self_attn.v_proj.weight"@);
    } else if suffix == "self_attn.o_proj.weight"@ {
        assert("mtp.layers.0.self_attn.o_proj.weight"@.len() != "mtp.fc.weight"@.len());
        assert("mtp.layers.0.self_attn.o_proj.weight"@.len() != "mtp.layers.0.input_layernorm.weight"@.len());
        assert("mtp.layers.0.self_attn.o_proj.weight"@.len() != "mtp.layers.0.post_attention_layernorm.weight"@.len());
        assert("mtp.layers.0.self_attn.o_proj.weight"@.len() != "mtp.norm.weight"@.len());
        assert("mtp.layers.0.self_attn.o_proj.weight"@.len() != "mtp.pre_fc_norm_embedding.weight"@.len());
        assert("mtp.layers.0.self_attn.o_proj.weight"@.len() != "mtp.pre_fc_norm_hidden.weight"@.len());
        assert("mtp.layers.0.self_attn.o_proj.weight"@.len() != "mtp.layers.0.mlp.down_proj.weight"@.len());
        assert("mtp.layers.0.self_attn.o_proj.weight"@.len() != "mtp.layers.0.mlp.gate_proj.weight"@.len());
        assert("mtp.layers.0.self_attn.o_proj.weight"@.len() != "mtp.layers.0.mlp.up_proj.weight"@.len());
        assert("mtp.layers.0.self_attn.o_proj.weight"@[23] != "mtp.layers.0.self_attn.k_norm.weight"@[23]);
        assert("mtp.layers.0.self_attn.o_proj.weight"@[23] != "mtp.layers.0.self_attn.q_norm.weight"@[23]);
        assert("mtp.layers.0.self_attn.o_proj.weight"@[23] != "mtp.layers.0.self_attn.k_proj.weight"@[23]);
        assert("mtp.layers.0.self_attn.o_proj.weight"@[23] != "mtp.layers.0.self_attn.v_proj.weight"@[23]);
        assert("self_attn.o_proj.weight"@.len() != "input_layernorm.weight"@.len());
        assert("self_attn.o_proj.weight"@.len() != "post_attention_layernorm.weight"@.len());
        assert("self_attn.o_proj.weight"@.len() != "mlp.down_proj.weight"@.len());
        assert("self_attn.o_proj.weight"@.len() != "mlp.gate_proj.weight"@.len());
        assert("self_attn.o_proj.weight"@.len() != "mlp.up_proj.weight"@.len());
        assert("self_attn.o_proj.weight"@[10] != "self_attn.k_norm.weight"@[10]);
        assert("self_attn.o_proj.weight"@[10] != "self_attn.q_norm.weight"@[10]);
        assert("self_attn.o_proj.weight"@[10] != "self_attn.k_proj.weight"@[10]);
        assert("self_attn.o_proj.weight"@[10] != "self_attn.v_proj.weight"@[10]);
        assert("mtp.layers.0."@ + suffix =~= "mtp.layers.0.self_attn.o_proj.weight"@);
    } else if suffix == "self_attn.q_proj.weight"@ {
        assert("mtp.layers.0.self_attn.q_proj.weight"@.len() != "mtp.fc.weight"@.len());
        assert("mtp.layers.0.self_attn.q_proj.weight"@.len() != "mtp.layers.0.input_layernorm.weight"@.len());
        assert("mtp.layers.0.self_attn.q_proj.weight"@.len() != "mtp.layers.0.post_attention_layernorm.weight"@.len());
        assert("mtp.layers.0.self_attn.q_proj.weight"@.len() != "mtp.norm.weight"@.len());
        assert("mtp.layers.0.self_attn.q_proj.weight"@.len() != "mtp.pre_fc_norm_embedding.weight"@.len());
        assert("mtp.layers.0.self_attn.q_proj.weight"@.len() != "mtp.pre_fc_norm_hidden.weight"@.len());
        assert("mtp.layers.0.self_attn.q_proj.weight"@.len() != "mtp.layers.0.mlp.down_proj.weight"@.len());
        assert("mtp.layers.0.self_attn.q_proj.weight"@.len() != "mtp.layers.0.mlp.gate_proj.weight"@.len());
        assert("mtp.layers.0.self_attn.q_proj.weight"@.len() != "mtp.layers.0.mlp.up_proj.weight"@.len());
        assert("mtp.layers.0.self_attn.q_proj.weight"@[23] != "mtp.layers.0.self_attn.k_norm.weight"@[23]);
        assert("mtp.layers.0.self_attn.q_proj.weight"@[25] != "mtp.layers.0.self_attn.q_norm.weight"@[25]);
        assert("mtp.layers.0.self_attn.q_proj.weight"@[23] != "mtp.layers.0.self_attn.k_proj.weight"@[23]);
        assert("mtp.layers.0.self_attn.q_proj.weight"@[23] != "mtp.layers.0.self_attn.v_proj.weight"@[23]);
        assert("mtp.layers.0.self_attn.q_proj.weight"@[23] != "mtp.layers.0.self_attn.o_proj.weight"@[23]);
        assert("self_attn.q_proj.weight"@.len() != "input_layernorm.weight"@.len());
        assert("self_attn.q_proj.weight"@.len() != "post_attention_layernorm.weight"@.len());
        assert("self_attn.q_proj.weight"@.len() != "mlp.down_proj.weight"@.len());
        assert("self_attn.q_proj.weight"@.len() != "mlp.gate_proj.weight"@.len());
        assert("self_attn.q_proj.weight"@.len() != "mlp.up_proj.weight"@.len());
        assert("self_attn.q_proj.weight"@[10] != "self_attn.k_norm.weight"@[10]);
        assert("self_attn.q_proj.weight"@[12] != "self_attn.q_norm.weight"@[12]);
        assert("self_attn.q_proj.weight"@[10] != "self_attn.k_proj.weight"@[10]);
        assert("self_attn.q_proj.weight"@[10] != "self_attn.v_proj.weight"@[10]);
        assert("self_attn.q_proj.weight"@[10] != "self_attn.o_proj.weight"@[10]);
        assert("mtp.layers.0."@ + suffix =~= "mtp.layers.0.self_attn.q_proj.weight"@);
    }
}

/// A vision block bias has one value for each row of the weights that it is added to.
pub proof fn block_biases_match_their_weights(stem: Seq<char>)
    requires
        block_tensor(stem + ".bias"@) is Some,
        block_tensor(stem + ".weight"@) is Some,
    ensures
        block_tensor(stem + ".bias"@)->0.shape.len() == 1,
        block_tensor(stem + ".bias"@)->0.shape[0] == block_tensor(stem + ".weight"@)->0.shape[0],
{
    reveal_strlit(".bias");
    reveal_strlit(".weight");
    reveal_strlit("attn.proj.bias");
    reveal_strlit("attn.proj.weight");
    reveal_strlit("attn.qkv.bias");
    reveal_strlit("attn.qkv.weight");
    reveal_strlit("mlp.linear_fc1.bias");
    reveal_strlit("mlp.linear_fc1.weight");
    reveal_strlit("mlp.linear_fc2.bias");
    reveal_strlit("mlp.linear_fc2.weight");
    reveal_strlit("norm1.bias");
    reveal_strlit("norm1.weight");
    reveal_strlit("norm2.bias");
    reveal_strlit("norm2.weight");
    let bias = stem + ".bias"@;
    assert(bias[bias.len() - 1] == 's');
    assert("attn.proj.weight"@[15] == 't');
    assert("attn.qkv.weight"@[14] == 't');
    assert("mlp.linear_fc1.weight"@[20] == 't');
    assert("mlp.linear_fc2.weight"@[20] == 't');
    assert("norm1.weight"@[11] == 't');
    assert("norm2.weight"@[11] == 't');
    if stem + ".bias"@ == "attn.proj.bias"@ {
        assert("attn.proj.weight"@.len() != "attn.proj.bias"@.len());
        reveal_strlit("attn.proj");
        lemma_stem(stem, "attn.proj"@, "attn.proj.bias"@);
        assert(stem + ".weight"@ =~= "attn.proj.weight"@);
    } else if stem + ".bias"@ == "attn.qkv.bias"@ {
        assert("attn.qkv.weight"@.len() != "attn.proj.bias"@.len());
        assert("attn.qkv.weight"@.len() != "attn.proj.weight"@.len());
        assert("attn.qkv.weight"@.len() != "attn.qkv.bias"@.len());
        assert("attn.qkv.bias"@.len() != "attn.proj.bias"@.len());
        assert("attn.qkv.bias"@.len() != "attn.proj.weight"@.len());
        reveal_strlit("attn.qkv");
        lemma_stem(stem, "attn.qkv"@, "attn.qkv.bias"@);
        assert(stem + ".weight"@ =~= "attn.qkv.weight"@);
    } else if stem + ".bias"@ == "mlp.linear_fc1.bias"@ {
        assert("mlp.linear_fc1.weight"@.len() != "attn.proj.bias"@.len());
        assert("mlp.linear_fc1.weight"@.len() != "attn.proj.weight"@.len());
        assert("mlp.linear_fc1.weight"@.len() != "attn.qkv.bias"@.len());
        assert("mlp.linear_fc1.weight"@.len() != "attn.qkv.weight"@.len());
        assert("mlp.linear_fc1.weight"@.len() != "mlp.linear_fc1.bias"@.len());
        assert("mlp.linear_fc1.bias"@.len() != "attn.proj.bias"@.len());
        assert("mlp.linear_fc1.bias"@.len() != "attn.proj.weight"@.len());
        assert("mlp.linear_fc1.bias"@.len() != "attn.qkv.bias"@.len());
        assert("mlp.linear_fc1.bias"@.len() != "attn.qkv.weight"@.len());
        reveal_strlit("mlp.linear_fc1");
        lemma_stem(stem, "mlp.linear_fc1"@, "mlp.linear_fc1.bias"@);
        assert(stem + ".weight"@ =~= "mlp.linear_fc1.weight"@);
    } else if stem + ".bias"@ == "mlp.linear_fc2.bias"@ {
        assert("mlp.linear_fc2.weight"@.len() != "attn.proj.bias"@.len());
        assert("mlp.linear_fc2.weight"@.len() != "attn.proj.weight"@.len());
        assert("mlp.linear_fc2.weight"@.len() != "attn.qkv.bias"@.len());
        assert("mlp.linear_fc2.weight"@.len() != "attn.qkv.weight"@.len());
        assert("mlp.linear_fc2.weight"@.len() != "mlp.linear_fc1.bias"@.len());
        assert("mlp.linear_fc2.weight"@[13] != "mlp.linear_fc1.weight"@[13]);
        assert("mlp.linear_fc2.weight"@.len() != "mlp.linear_fc2.bias"@.len());
        assert("mlp.linear_fc2.bias"@.len() != "attn.proj.bias"@.len());
        assert("mlp.linear_fc2.bias"@.len() != "attn.proj.weight"@.len());
        assert("mlp.linear_fc2.bias"@.len() != "attn.qkv.bias"@.len());
        assert("mlp.linear_fc2.bias"@.len() != "attn.qkv.weight"@.len());
        assert("mlp.linear_fc2.bias"@[13] != "mlp.linear_fc1.bias"@[13]);
        assert("mlp.linear_fc2.bias"@.len() != "mlp.linear_fc1.weight"@.len());
        reveal_strlit("mlp.linear_fc2");
        lemma_stem(stem, "mlp.linear_fc2"@, "mlp.linear_fc2.bias"@);
        assert(stem + ".weight"@ =~= "mlp.linear_fc2.weight"@);
    } else if stem + ".bias"@ == "norm1.bias"@ {
        assert("norm1.weight"@.len() != "attn.proj.bias"@.len());
        assert("norm1.weight"@.len() != "attn.proj.weight"@.len());
        assert("norm1.weight"@.len() != "attn.qkv.bias"@.len());
        assert("norm1.weight"@.len() != "attn.qkv.weight"@.len());
        assert("norm1.weight"@.len() != "mlp.linear_fc1.bias"@.len());
        assert("norm1.weight"@.len() != "mlp.linear_fc1.weight"@.len());
        assert("norm1.weight"@.len() != "mlp.linear_fc2.bias"@.len());
        assert("norm1.weight"@.len() != "mlp.linear_fc2.weight"@.len());
        assert("norm1.weight"@.len() != "norm1.bias"@.len());
        assert("norm1.bias"@.len() != "attn.proj.bias"@.len());
        assert("norm1.bias"@.len() != "attn.proj.weight"@.len());
        assert("norm1.bias"@.len() != "attn.qkv.bias"@.len());
        assert("norm1.bias"@.len() != "attn.qkv.weight"@.len());
        assert("norm1.bias"@.len() != "mlp.linear_fc1.bias"@.len());
        assert("norm1.bias"@.len() != "mlp.linear_fc1.weight"@.len());
        assert("norm1.bias"@.len() != "mlp.linear_fc2.bias"@.len());
        assert("norm1.bias"@.len() != "mlp.linear_fc2.weight"@.len());
        reveal_strlit("norm1");
        lemma_stem(stem, "norm1"@, "norm1.bias"@);
        assert(stem + ".weight"@ =~= "norm1.weight"@);
    } else if stem + ".bias"@ == "norm2.bias"@ {
        assert("norm2.weight"@.len() != "attn.proj.bias"@.len());
        assert("norm2.weight"@.len() != "attn.proj.weight"@.len());
        assert("norm2.weight"@.len() != "attn.qkv.bias"@.len());
        assert("norm2.weight"@.len() != "attn.qkv.weight"@.len());
        assert("norm2.weight"@.len() != "mlp.linear_fc1.bias"@.len());
        assert("norm2.weight"@.len() != "mlp.linear_fc1.weight"@.len());
        assert("norm2.weight"@.len() != "mlp.linear_fc2.bias"@.len());
        assert("norm2.weight"@.len() != "mlp.linear_fc2.weight"@.len());
        assert("norm2.weight"@.len() != "norm1.bias"@.len());
        assert("norm2.weight"@[4] != "norm1.weight"@[4]);
        assert("norm2.weight"@.len() != "norm2.bias"@.len());
        assert("norm2.bias"@.len() != "attn.proj.bias"@.len());
        assert("norm2.bias"@.len() != "attn.proj.weight"@.len());
        assert("norm2.bias"@.len() != "attn.qkv.bias"@.len());
        assert("norm2.bias"@.len() != "attn.qkv.weight"@.len());
        assert("norm2.bias"@.len() != "mlp.linear_fc1.bias"@.len());
        assert("norm2.bias"@.len() != "mlp.linear_fc1.weight"@.len());
        assert("norm2.bias"@.len() != "mlp.linear_fc2.bias"@.len());
        assert("norm2.bias"@.len() != "mlp.linear_fc2.weight"@.len());
        assert("norm2.bias"@[4] != "norm1.bias"@[4]);
        assert("norm2.bias"@.len() != "norm1.weight"@.len());
        reveal_strlit("norm2");
        lemma_stem(stem, "norm2"@, "norm2.bias"@);
        assert(stem + ".weight"@ =~= "norm2.weight"@);
    }
}

/// A vision frame's bias has one value for each row of the weights that it is added to.
pub proof fn frame_biases_match_their_weights(stem: Seq<char>)
    requires
        vision_frame_tensor(stem + ".bias"@) is Some,
        vision_frame_tensor(stem + ".weight"@) is Some,
    ensures
        vision_frame_tensor(stem + ".bias"@)->0.shape.len() == 1,
        vision_frame_tensor(stem + ".bias"@)->0.shape[0] == vision_frame_tensor(stem + ".weight"@)->0.shape[0],
{
    reveal_strlit(".bias");
    reveal_strlit(".weight");
    reveal_strlit("model.visual.patch_embed.proj.weight");
    reveal_strlit("model.visual.patch_embed.proj.bias");
    reveal_strlit("model.visual.pos_embed.weight");
    reveal_strlit("model.visual.merger.linear_fc1.bias");
    reveal_strlit("model.visual.merger.linear_fc1.weight");
    reveal_strlit("model.visual.merger.linear_fc2.bias");
    reveal_strlit("model.visual.merger.linear_fc2.weight");
    reveal_strlit("model.visual.merger.norm.bias");
    reveal_strlit("model.visual.merger.norm.weight");
    let bias = stem + ".bias"@;
    assert(bias[bias.len() - 1] == 's');
    assert("model.visual.patch_embed.proj.weight"@[35] == 't');
    assert("model.visual.pos_embed.weight"@[28] == 't');
    assert("model.visual.merger.linear_fc1.weight"@[36] == 't');
    assert("model.visual.merger.linear_fc2.weight"@[36] == 't');
    assert("model.visual.merger.norm.weight"@[30] == 't');
    if stem + ".bias"@ == "model.visual.patch_embed.proj.bias"@ {
        assert("model.visual.patch_embed.proj.bias"@.len() != "model.visual.patch_embed.proj.weight"@.len());
        reveal_strlit("model.visual.patch_embed.proj");
        lemma_stem(stem, "model.visual.patch_embed.proj"@, "model.visual.patch_embed.proj.bias"@);
        assert(stem + ".weight"@ =~= "model.visual.patch_embed.proj.weight"@);
    } else if stem + ".bias"@ == "model.visual.merger.linear_fc1.bias"@ {
        assert("model.visual.merger.linear_fc1.weight"@.len() != "model.visual.patch_embed.proj.weight"@.len());
        assert("model.visual.merger.linear_fc1.weight"@.len() != "model.visual.patch_embed.proj.bias"@.len());
        assert("model.visual.merger.linear_fc1.weight"@.len() != "model.visual.pos_embed.weight"@.len());
        assert("model.visual.merger.linear_fc1.weight"@.len() != "model.visual.merger.linear_fc1.bias"@.len());
        assert("model.visual.merger.linear_fc1.bias"@.len() != "model.visual.patch_embed.proj.weight"@.len());
        assert("model.visual.merger.linear_fc1.bias"@.len() != "model.visual.patch_embed.proj.bias"@.len());
        assert("model.visual.merger.linear_fc1.bias"@.len() != "model.visual.pos_embed.weight"@.len());
        reveal_strlit("model.visual.merger.linear_fc1");
        lemma_stem(stem, "model.visual.merger.linear_fc1"@, "model.visual.merger.linear_fc1.bias"@);
        assert(stem + ".weight"@ =~= "model.visual.merger.linear_fc1.weight"@);
    } else if stem + ".bias"@ == "model.visual.merger.linear_fc2.bias"@ {
        assert("model.visual.merger.linear_fc2.weight"@.len() != "model.visual.patch_embed.proj.weight"@.len());
        assert("model.visual.merger.linear_fc2.weight"@.len() != "model.visual.patch_embed.proj.bias"@.len());
        assert("model.visual.merger.linear_fc2.weight"@.len() != "model.visual.pos_embed.weight"@.len());
        assert("model.visual.merger.linear_fc2.weight"@.len() != "model.visual.merger.linear_fc1.bias"@.len());
        assert("model.visual.merger.linear_fc2.weight"@[29] != "model.visual.merger.linear_fc1.weight"@[29]);
        assert("model.visual.merger.linear_fc2.weight"@.len() != "model.visual.merger.linear_fc2.bias"@.len());
        assert("model.visual.merger.linear_fc2.bias"@.len() != "model.visual.patch_embed.proj.weight"@.len());
        assert("model.visual.merger.linear_fc2.bias"@.len() != "model.visual.patch_embed.proj.bias"@.len());
        assert("model.visual.merger.linear_fc2.bias"@.len() != "model.visual.pos_embed.weight"@.len());
        assert("model.visual.merger.linear_fc2.bias"@[29] != "model.visual.merger.linear_fc1.bias"@[29]);
        assert("model.visual.merger.linear_fc2.bias"@.len() != "model.visual.merger.linear_fc1.weight"@.len());
        reveal_strlit("model.visual.merger.linear_fc2");
        lemma_stem(stem, "model.visual.merger.linear_fc2"@, "model.visual.merger.linear_fc2.bias"@);
        assert(stem + ".weight"@ =~= "model.visual.merger.linear_fc2.weight"@);
    } else if stem + ".bias"@ == "model.visual.merger.norm.bias"@ {
        assert("model.visual.merger.norm.weight"@.len() != "model.visual.patch_embed.proj.weight"@.len());
        assert("model.visual.merger.norm.weight"@.len() != "model.visual.patch_embed.proj.bias"@.len());
        assert("model.visual.merger.norm.weight"@.len() != "model.visual.pos_embed.weight"@.len());
        assert("model.visual.merger.norm.weight"@.len() != "model.visual.merger.linear_fc1.bias"@.len());
        assert("model.visual.merger.norm.weight"@.len() != "model.visual.merger.linear_fc1.weight"@.len());
        assert("model.visual.merger.norm.weight"@.len() != "model.visual.merger.linear_fc2.bias"@.len());
        assert("model.visual.merger.norm.weight"@.len() != "model.visual.merger.linear_fc2.weight"@.len());
        assert("model.visual.merger.norm.weight"@.len() != "model.visual.merger.norm.bias"@.len());
        assert("model.visual.merger.norm.bias"@.len() != "model.visual.patch_embed.proj.weight"@.len());
        assert("model.visual.merger.norm.bias"@.len() != "model.visual.patch_embed.proj.bias"@.len());
        assert("model.visual.merger.norm.bias"@[13] != "model.visual.pos_embed.weight"@[13]);
        assert("model.visual.merger.norm.bias"@.len() != "model.visual.merger.linear_fc1.bias"@.len());
        assert("model.visual.merger.norm.bias"@.len() != "model.visual.merger.linear_fc1.weight"@.len());
        assert("model.visual.merger.norm.bias"@.len() != "model.visual.merger.linear_fc2.bias"@.len());
        assert("model.visual.merger.norm.bias"@.len() != "model.visual.merger.linear_fc2.weight"@.len());
        reveal_strlit("model.visual.merger.norm");
        lemma_stem(stem, "model.visual.merger.norm"@, "model.visual.merger.norm.bias"@);
        assert(stem + ".weight"@ =~= "model.visual.merger.norm.weight"@);
    }
}

/// A name that ends as expected has the expected stem.
proof fn lemma_stem(stem: Seq<char>, wanted: Seq<char>, name: Seq<char>)
    requires
        stem + ".bias"@ == name,
        wanted + ".bias"@ =~= name,
    ensures
        stem == wanted,
{
    assert(stem =~= (stem + ".bias"@).take(stem.len() as int));
    assert(wanted =~= (wanted + ".bias"@).take(wanted.len() as int));
}

/// Layers and vision blocks are named by their numbers, of which there are sixty-four and
/// twenty-seven.
pub proof fn layers_and_blocks_are_numbered(rest: Seq<char>)
    ensures
        layer_tensor(rest) is Ok ==> exists|dot: int|
            {
                &&& 0 <= dot < rest.len()
                &&& #[trigger] rest[dot] == '.'
                &&& small_number(rest.take(dot)) matches Some(layer) && layer < 64
            },
        numbered_block_tensor(rest) is Some ==> exists|dot: int|
            {
                &&& 0 <= dot < rest.len()
                &&& #[trigger] rest[dot] == '.'
                &&& small_number(rest.take(dot)) matches Some(block) && block < 27
            },
{
    let dot = first_at(rest, '.', 0);
    if layer_tensor(rest) is Ok || numbered_block_tensor(rest) is Some {
        lemma_first_at(rest, 0);
        lemma_found_at(rest, 0);
        assert(rest[dot] == '.');
    }
}

proof fn lemma_found_at(text: Seq<char>, from: int)
    requires
        0 <= from <= text.len(),
    ensures
        from <= first_at(text, '.', from) <= text.len(),
        first_at(text, '.', from) < text.len() ==> text[first_at(text, '.', from)] == '.',
    decreases text.len() - from,
{
    if from < text.len() && text[from] != '.' {
        lemma_found_at(text, from + 1);
    }
}

} // verus!
