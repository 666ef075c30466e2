# tritium_quantize

Additive ternary quantization: `W ≈ Σ_p s_p · t_p` with every `t_p` in `{-1, 0, +1}`. The library
holds what such a conversion decides, orders, encodes and checks, each function with a contract
that Verus proves.

* Exact-byte plane allocation: `physical`, `exact`, `plane_model`, `ledger`, `pareto`, `ranked`,
  `regular*`, `allocator`, `packed`, `uniform`, `allocator_laws`.
* Greedy water-filling and matrix layout: `water_filling`, `tensor_plan`.
* Joint ternary fitting, as far as it is not arithmetic on floating-point numbers: `joint_fit`,
  `ternary`, `joint_fit_laws`.
* The content-addressed activation cache and its checkpoints: `activation_*`.
* Campaign records, sizes and Pareto frontiers: `campaign*`.
* The conversion state machine and its checkpoint: `conversion`.
* Architecture capabilities and the pinned Qwen coverage policy: `architecture`,
  `coverage_schedule`, `qwen35_coverage`, `coverage_policy`.
* Shared parts: `float_bits`, `wire`, `text`, `phrase`, `hashing`, `error_text`, `record_text`.

Floating-point values enter and leave as bit patterns (`u32` and `u64`); order, equality, rounding to the
16-bit storage types and exact sums are defined on the patterns. `app/` converts: it holds the
floating-point fits, the readers and files, and the `Display` and `Error` impls.

Three functions are trusted, each with its claim in its doc comment: `wire::utf8_text`,
`hashing::hash_parts` and `hashing::derive_digest`. Content identities are BLAKE3 digests; the
proofs speak of the hashed bytes, and nothing rests on the strength of the hash.
