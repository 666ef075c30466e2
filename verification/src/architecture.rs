//! Fail-closed architecture capability and tensor-role contracts.
//!
//! Additive PTQ can pack many matrix shapes without understanding a model, but a
//! product converter must understand every tensor and every execution-semantic
//! feature. These types keep architecture discovery separate from capability
//! negotiation and from the conservative default quantization policy.

use vstd::prelude::*;

verus! {

/// Execution or layout feature an architecture adapter may require.
#[derive(Clone, Copy, Debug, PartialEq, Eq, PartialOrd, Ord, Hash, Structural)]
#[non_exhaustive]
pub enum ArchitectureFeature {
    /// Conventional full causal attention.
    FullAttention,
    /// Local or sliding-window attention layers.
    SlidingWindowAttention,
    /// Recurrent or gated linear-attention layers.
    LinearAttention,
    /// Low-rank latent attention or a learned sparse-attention indexer.
    LatentAttention,
    /// Per-head query/key normalization.
    QkNorm,
    /// Learned attention-output gating.
    AttentionOutputGate,
    /// Routed mixture-of-experts feed-forward layers.
    MixtureOfExperts,
    /// A dense shared expert alongside routed experts.
    SharedExpert,
    /// Key/value projection weights shared within or across layers.
    SharedKvProjection,
    /// Token embeddings injected separately at decoder layers.
    PerLayerEmbeddings,
    /// Attention head counts or dimensions that vary by layer type.
    PerLayerAttentionGeometry,
    /// Architecture-specific RoPE schedules beyond one global theta.
    CustomRope,
    /// Non-text towers or projectors packaged with the text model.
    Multimodal,
}

impl ArchitectureFeature {
    /// Position in declaration order.
    pub open spec fn rank(self) -> nat {
        match self {
            ArchitectureFeature::FullAttention => 0,
            ArchitectureFeature::SlidingWindowAttention => 1,
            ArchitectureFeature::LinearAttention => 2,
            ArchitectureFeature::LatentAttention => 3,
            ArchitectureFeature::QkNorm => 4,
            ArchitectureFeature::AttentionOutputGate => 5,
            ArchitectureFeature::MixtureOfExperts => 6,
            ArchitectureFeature::SharedExpert => 7,
            ArchitectureFeature::SharedKvProjection => 8,
            ArchitectureFeature::PerLayerEmbeddings => 9,
            ArchitectureFeature::PerLayerAttentionGeometry => 10,
            ArchitectureFeature::CustomRope => 11,
            ArchitectureFeature::Multimodal => 12,
        }
    }

    fn ordinal(self) -> (position: u8)
        ensures
            position == self.rank(),
    {
        match self {
            ArchitectureFeature::FullAttention => 0,
            ArchitectureFeature::SlidingWindowAttention => 1,
            ArchitectureFeature::LinearAttention => 2,
            ArchitectureFeature::LatentAttention => 3,
            ArchitectureFeature::QkNorm => 4,
            ArchitectureFeature::AttentionOutputGate => 5,
            ArchitectureFeature::MixtureOfExperts => 6,
            ArchitectureFeature::SharedExpert => 7,
            ArchitectureFeature::SharedKvProjection => 8,
            ArchitectureFeature::PerLayerEmbeddings => 9,
            ArchitectureFeature::PerLayerAttentionGeometry => 10,
            ArchitectureFeature::CustomRope => 11,
            ArchitectureFeature::Multimodal => 12,
        }
    }
}

/// Whether features are sorted and unique.
pub open spec fn ascending(features: Seq<ArchitectureFeature>) -> bool {
    forall|i: int, j: int|
        0 <= i < j < features.len() ==> (#[trigger] features[i]).rank() < (
        #[trigger] features[j]).rank()
}

/// Whether two feature lists hold the same features.
pub open spec fn same_features(
    left: Seq<ArchitectureFeature>,
    right: Seq<ArchitectureFeature>,
) -> bool {
    forall|feature: ArchitectureFeature| #[trigger]
        left.contains(feature) <==> right.contains(feature)
}

/// The features that are not available, in the order in which they are required.
pub open spec fn unavailable(
    required: Seq<ArchitectureFeature>,
    available: Seq<ArchitectureFeature>,
) -> Seq<ArchitectureFeature>
    decreases required.len(),
{
    if required.len() == 0 {
        Seq::empty()
    } else {
        let before = unavailable(required.drop_last(), available);
        if available.contains(required.last()) {
            before
        } else {
            before.push(required.last())
        }
    }
}

/// A feature list has one sorted, unique form.
pub proof fn canonical_features_are_unique(
    left: Seq<ArchitectureFeature>,
    right: Seq<ArchitectureFeature>,
)
    requires
        ascending(left),
        ascending(right),
        same_features(left, right),
    ensures
        left == right,
    decreases left.len(),
{
    if left.len() == 0 {
        if right.len() > 0 {
            assert(right.contains(right[0]));
            assert(left.contains(right[0]));
        }
        assert(left =~= right);
    } else {
        assert(left.contains(left.last()));
        assert(right.contains(left.last()));
        assert(right.contains(right.last()));
        assert(left.contains(right.last()));
        let i = choose|i: int| 0 <= i < left.len() && left[i] == right.last();
        let j = choose|j: int| 0 <= j < right.len() && right[j] == left.last();
        assert(left.last() == left[left.len() - 1]);
        assert(right.last() == right[right.len() - 1]);
        assert(i == left.len() - 1 && j == right.len() - 1);
        let shorter = left.drop_last();
        let other = right.drop_last();
        assert forall|feature: ArchitectureFeature| #[trigger]
            shorter.contains(feature) <==> other.contains(feature) by {
            if shorter.contains(feature) {
                let k = choose|k: int| 0 <= k < shorter.len() && shorter[k] == feature;
                assert(left[k] == feature);
                assert(left.contains(feature));
                let m = choose|m: int| 0 <= m < right.len() && right[m] == feature;
                assert(left[k].rank() < left[left.len() - 1].rank());
                assert(other[m] == feature);
            }
            if other.contains(feature) {
                let k = choose|k: int| 0 <= k < other.len() && other[k] == feature;
                assert(right[k] == feature);
                assert(right.contains(feature));
                assert(left.contains(feature));
                let m = choose|m: int| 0 <= m < left.len() && left[m] == feature;
                assert(right[k].rank() < right[right.len() - 1].rank());
                assert(shorter[m] == feature);
            }
        }
        canonical_features_are_unique(shorter, other);
        assert(left =~= shorter.push(left.last()));
        assert(right =~= other.push(right.last()));
    }
}

/// The gap holds exactly the required features that are not available, in order.
pub proof fn gap_is_complete(
    required: Seq<ArchitectureFeature>,
    available: Seq<ArchitectureFeature>,
)
    ensures
        forall|feature: ArchitectureFeature| #[trigger]
            unavailable(required, available).contains(feature) <==> required.contains(feature)
                && !available.contains(feature),
        ascending(required) ==> ascending(unavailable(required, available)),
    decreases required.len(),
{
    let gap = unavailable(required, available);
    if required.len() > 0 {
        let before = required.drop_last();
        let last = required.last();
        let earlier = unavailable(before, available);
        gap_is_complete(before, available);
        assert forall|feature: ArchitectureFeature| #[trigger]
            gap.contains(feature) <==> required.contains(feature) && !available.contains(
                feature,
            ) by {
            assert(required.contains(feature) <==> before.contains(feature) || feature == last) by {
                if before.contains(feature) {
                    let k = choose|k: int| 0 <= k < before.len() && before[k] == feature;
                    assert(required[k] == feature);
                }
                if feature == last {
                    assert(required[required.len() - 1] == feature);
                }
                if required.contains(feature) {
                    let k = choose|k: int| 0 <= k < required.len() && required[k] == feature;
                    if k < before.len() {
                        assert(before[k] == feature);
                    }
                }
            }
            assert(earlier.contains(feature) <==> before.contains(feature) && !available.contains(
                feature,
            ));
            if !available.contains(last) {
                if earlier.contains(feature) {
                    let k = choose|k: int| 0 <= k < earlier.len() && earlier[k] == feature;
                    assert(gap[k] == feature);
                }
                if feature == last {
                    assert(gap[earlier.len() as int] == feature);
                }
                if gap.contains(feature) {
                    let k = choose|k: int| 0 <= k < gap.len() && gap[k] == feature;
                    if k < earlier.len() {
                        assert(earlier[k] == feature);
                    }
                }
            }
        }
        if ascending(required) {
            assert(ascending(before)) by {
                assert forall|i: int, j: int| 0 <= i < j < before.len() implies (
                #[trigger] before[i]).rank() < (#[trigger] before[j]).rank() by {
                    assert(required[i].rank() < required[j].rank());
                }
            }
            if !available.contains(last) {
                assert forall|i: int, j: int| 0 <= i < j < gap.len() implies (
                #[trigger] gap[i]).rank() < (#[trigger] gap[j]).rank() by {
                    if j == earlier.len() {
                        assert(earlier.contains(earlier[i]));
                        let k = choose|k: int| 0 <= k < before.len() && before[k] == earlier[i];
                        assert(required[k].rank() < required[required.len() - 1].rank());
                    } else {
                        assert(earlier[i].rank() < earlier[j].rank());
                    }
                }
            }
        }
    }
}

/// Whether a feature is among the listed ones.
fn lists(features: &[ArchitectureFeature], feature: ArchitectureFeature) -> (found: bool)
    ensures
        found == features@.contains(feature),
{
    let mut index: usize = 0;
    while index < features.len()
        invariant
            index <= features@.len(),
            forall|k: int| 0 <= k < index ==> features@[k] != feature,
        decreases features@.len() - index,
    {
        if features[index] == feature {
            assert(features@[index as int] == feature);
            return true;
        }
        index = index + 1;
    }
    false
}

/// Adds a feature to a sorted, unique list unless it is there.
fn insert_feature(features: &mut Vec<ArchitectureFeature>, feature: ArchitectureFeature)
    requires
        ascending(old(features)@),
    ensures
        ascending(final(features)@),
        forall|other: ArchitectureFeature| #[trigger]
            final(features)@.contains(other) <==> old(features)@.contains(other) || other == feature,
{
    let ghost before = features@;
    let mut index: usize = 0;
    while index < features.len() && features[index].ordinal() < feature.ordinal()
        invariant
            index <= features@.len(),
            features@ == before,
            forall|k: int| 0 <= k < index ==> (#[trigger] before[k]).rank() < feature.rank(),
        decreases features@.len() - index,
    {
        index = index + 1;
    }
    if index < features.len() && features[index] == feature {
        assert(before[index as int] == feature);
        return;
    }
    features.insert(index, feature);
    proof {
        let after = features@;
        assert(after == before.insert(index as int, feature));
        assert forall|other: ArchitectureFeature| #[trigger]
            after.contains(other) <==> before.contains(other) || other == feature by {
            if before.contains(other) {
                let k = choose|k: int| 0 <= k < before.len() && before[k] == other;
                assert(after[if k < index {
                    k
                } else {
                    k + 1
                }] == other);
            }
            assert(after[index as int] == feature);
            if after.contains(other) {
                let k = choose|k: int| 0 <= k < after.len() && after[k] == other;
                if k < index {
                    assert(before[k] == other);
                } else if k > index {
                    assert(before[k - 1] == other);
                }
            }
        }
        assert forall|i: int, j: int| 0 <= i < j < after.len() implies (
        #[trigger] after[i]).rank() < (#[trigger] after[j]).rank() by {
            if index < before.len() {
                let next = before[index as int];
                assert(next.rank() != feature.rank()) by {
                    assert(next != feature);
                }
                assert(next.rank() > feature.rank());
            }
            let a = if i < index {
                i
            } else {
                i - 1
            };
            let b = if j < index {
                j
            } else {
                j - 1
            };
            if i != index && j != index {
                assert(before[a].rank() < before[b].rank());
            } else if i == index {
                assert(after[j] == before[b]);
                assert(b == index || before[index as int].rank() < before[b].rank());
            } else {
                assert(after[i] == before[a]);
            }
        }
    }
}

/// The sorted, unique form of a feature list.
fn canonical_features(features: &[ArchitectureFeature]) -> (sorted: Vec<ArchitectureFeature>)
    ensures
        ascending(sorted@),
        same_features(sorted@, features@),
{
    let mut sorted: Vec<ArchitectureFeature> = Vec::new();
    let mut index: usize = 0;
    assert(same_features(sorted@, features@.take(0)));
    while index < features.len()
        invariant
            index <= features@.len(),
            ascending(sorted@),
            same_features(sorted@, features@.take(index as int)),
        decreases features@.len() - index,
    {
        let ghost before = sorted@;
        insert_feature(&mut sorted, features[index]);
        proof {
            let part = features@.take(index as int);
            let longer = features@.take(index + 1);
            let added = features@[index as int];
            assert forall|feature: ArchitectureFeature| #[trigger]
                sorted@.contains(feature) <==> longer.contains(feature) by {
                assert(before.contains(feature) <==> part.contains(feature));
                if part.contains(feature) {
                    let k = choose|k: int| 0 <= k < part.len() && part[k] == feature;
                    assert(longer[k] == feature);
                }
                assert(longer[index as int] == added);
                if longer.contains(feature) {
                    let k = choose|k: int| 0 <= k < longer.len() && longer[k] == feature;
                    if k < index {
                        assert(part[k] == feature);
                    }
                }
            }
        }
        index = index + 1;
    }
    assert(features@.take(index as int) =~= features@);
    sorted
}

/// Canonical feature requirements reported by one architecture adapter.
#[derive(Clone, Debug, PartialEq, Eq)]
pub struct ArchitectureRequirements {
    architecture: String,
    features: Vec<ArchitectureFeature>,
}

/// What requirements or a gap hold.
pub struct FeaturesView {
    /// Architecture identifier.
    pub architecture: Seq<char>,
    /// Features in declaration order.
    pub features: Seq<ArchitectureFeature>,
}

impl View for ArchitectureRequirements {
    type V = FeaturesView;

    closed spec fn view(&self) -> FeaturesView {
        FeaturesView { architecture: self.architecture@, features: self.features@ }
    }
}

impl ArchitectureRequirements {
    /// Build requirements, sorting and deduplicating feature declarations.
    ///
    /// # Errors
    /// Returns [`AdapterError::EmptyArchitecture`] for an empty identifier.
    pub fn new(architecture: &str, features: &[ArchitectureFeature]) -> (requirements: Result<
        Self,
        AdapterError,
    >)
        ensures
            if architecture@.len() == 0 {
                requirements == Err::<Self, AdapterError>(AdapterError::EmptyArchitecture)
            } else {
                &&& requirements matches Ok(made)
                &&& made@.architecture == architecture@
                &&& ascending(made@.features)
                &&& same_features(made@.features, features@)
            },
    {
        if architecture.unicode_len() == 0 {
            return Err(AdapterError::EmptyArchitecture);
        }
        Ok(
            ArchitectureRequirements {
                architecture: architecture.to_owned(),
                features: canonical_features(features),
            },
        )
    }

    /// Architecture identifier supplied by the adapter.
    pub fn architecture(&self) -> (architecture: &str)
        ensures
            architecture@ == self@.architecture,
    {
        self.architecture.as_str()
    }

    /// Sorted, unique required features.
    pub fn features(&self) -> (features: &[ArchitectureFeature])
        ensures
            features@ == self@.features,
    {
        self.features.as_slice()
    }
}

/// Features supported by a converter, evaluator, or runtime implementation.
#[derive(Clone, Debug, PartialEq, Eq)]
pub struct CapabilitySet {
    features: Vec<ArchitectureFeature>,
}

impl View for CapabilitySet {
    type V = Seq<ArchitectureFeature>;

    closed spec fn view(&self) -> Seq<ArchitectureFeature> {
        self.features@
    }
}

impl Default for CapabilitySet {
    /// The set that supports nothing.
    fn default() -> (set: Self)
        ensures
            set@.len() == 0,
    {
        CapabilitySet { features: Vec::new() }
    }
}

impl CapabilitySet {
    /// Build a sorted, deduplicated capability set.
    pub fn new(features: &[ArchitectureFeature]) -> (set: Self)
        ensures
            ascending(set@),
            same_features(set@, features@),
    {
        CapabilitySet { features: canonical_features(features) }
    }

    /// Sorted, unique supported features.
    pub fn features(&self) -> (features: &[ArchitectureFeature])
        ensures
            features@ == self@,
    {
        self.features.as_slice()
    }

    /// Whether this set includes a feature.
    pub fn supports(&self, feature: ArchitectureFeature) -> (supported: bool)
        ensures
            supported == self@.contains(feature),
    {
        lists(self.features.as_slice(), feature)
    }

    /// Require every architecture feature, returning the complete deterministic gap.
    ///
    /// # Errors
    /// Returns [`CapabilityGap`] when one or more requirements are unsupported.
    pub fn validate(&self, requirements: &ArchitectureRequirements) -> (result: Result<
        (),
        CapabilityGap,
    >)
        ensures
            match result {
                Ok(_) => unavailable(requirements@.features, self@).len() == 0,
                Err(gap) => {
                    &&& unavailable(requirements@.features, self@).len() > 0
                    &&& gap@ == (FeaturesView {
                        architecture: requirements@.architecture,
                        features: unavailable(requirements@.features, self@),
                    })
                },
            },
    {
        let required: &[ArchitectureFeature] = requirements.features.as_slice();
        let mut missing: Vec<ArchitectureFeature> = Vec::new();
        let mut index: usize = 0;
        assert(missing@ =~= unavailable(required@.take(0), self@));
        while index < required.len()
            invariant
                index <= required@.len(),
                missing@ == unavailable(required@.take(index as int), self@),
            decreases required@.len() - index,
        {
            if !self.supports(required[index]) {
                missing.push(required[index]);
            }
            proof {
                let longer = required@.take(index + 1);
                assert(longer.drop_last() =~= required@.take(index as int));
            }
            index = index + 1;
        }
        assert(required@.take(index as int) =~= required@);
        if missing.len() == 0 {
            Ok(())
        } else {
            Err(
                CapabilityGap { architecture: requirements.architecture.as_str().to_owned(), missing },
            )
        }
    }
}

/// Complete set of unsupported requirements for an architecture.
#[derive(Clone, Debug, PartialEq, Eq)]
pub struct CapabilityGap {
    architecture: String,
    missing: Vec<ArchitectureFeature>,
}

impl View for CapabilityGap {
    type V = FeaturesView;

    closed spec fn view(&self) -> FeaturesView {
        FeaturesView { architecture: self.architecture@, features: self.missing@ }
    }
}

impl CapabilityGap {
    /// Architecture that could not be handled.
    pub fn architecture(&self) -> (architecture: &str)
        ensures
            architecture@ == self@.architecture,
    {
        self.architecture.as_str()
    }

    /// Sorted, unique unsupported features.
    pub fn missing(&self) -> (missing: &[ArchitectureFeature])
        ensures
            missing@ == self@.features,
    {
        self.missing.as_slice()
    }
}

/// Borrowed tensor metadata presented to an [`ArchitectureAdapter`].
#[derive(Clone, Copy, Debug, PartialEq, Eq)]
pub struct TensorDescriptor<'a> {
    name: &'a str,
    shape: &'a [u64],
}

/// What a descriptor holds.
pub struct DescriptorView {
    /// Tensor name.
    pub name: Seq<char>,
    /// Tensor shape.
    pub shape: Seq<u64>,
}

impl<'a> View for TensorDescriptor<'a> {
    type V = DescriptorView;

    closed spec fn view(&self) -> DescriptorView {
        DescriptorView { name: self.name@, shape: self.shape@ }
    }
}

/// Whether a position holds the first zero of a shape.
pub open spec fn first_zero(shape: Seq<u64>, dimension: int) -> bool {
    &&& 0 <= dimension < shape.len()
    &&& shape[dimension] == 0
    &&& forall|k: int| 0 <= k < dimension ==> shape[k] != 0
}

impl<'a> TensorDescriptor<'a> {
    /// Validate borrowed tensor metadata.
    ///
    /// # Errors
    /// Returns [`AdapterError`] for an empty name, empty shape, or zero dimension.
    pub fn new(name: &'a str, shape: &'a [u64]) -> (descriptor: Result<Self, AdapterError>)
        ensures
            match descriptor {
                Ok(made) => name@.len() > 0 && shape@.len() > 0 && !shape@.contains(0) && made@ == (
                DescriptorView { name: name@, shape: shape@ }),
                Err(AdapterError::EmptyTensorName) => name@.len() == 0,
                Err(AdapterError::EmptyTensorShape(tensor)) => name@.len() > 0 && shape@.len() == 0
                    && tensor@ == name@,
                Err(AdapterError::ZeroTensorDimension { tensor, dimension }) => name@.len() > 0
                    && tensor@ == name@ && first_zero(shape@, dimension as int),
                Err(_) => false,
            },
    {
        if name.unicode_len() == 0 {
            return Err(AdapterError::EmptyTensorName);
        }
        if shape.len() == 0 {
            return Err(AdapterError::EmptyTensorShape(name.to_owned()));
        }
        let mut dimension: usize = 0;
        while dimension < shape.len()
            invariant
                dimension <= shape@.len(),
                name@.len() > 0,
                forall|k: int| 0 <= k < dimension ==> shape@[k] != 0,
            decreases shape@.len() - dimension,
        {
            if shape[dimension] == 0 {
                return Err(
                    AdapterError::ZeroTensorDimension { tensor: name.to_owned(), dimension },
                );
            }
            dimension = dimension + 1;
        }
        Ok(TensorDescriptor { name, shape })
    }

    /// Canonical source tensor name.
    pub fn name(&self) -> (name: &'a str)
        ensures
            name@ == self@.name,
    {
        self.name
    }

    /// Logical source tensor shape.
    pub fn shape(&self) -> (shape: &'a [u64])
        ensures
            shape@ == self@.shape,
    {
        self.shape
    }
}

/// Semantic role assigned to a tensor by an architecture adapter.
#[derive(Clone, Copy, Debug, PartialEq, Eq, Hash, Structural)]
#[non_exhaustive]
pub enum TensorRole {
    /// Dense attention, MLP, or linear-attention matrix projection.
    Projection,
    /// Routed or shared-expert matrix projection.
    ExpertProjection,
    /// MoE routing or gating tensor.
    Router,
    /// Token or per-layer embedding table.
    Embedding,
    /// Normalization scale or bias.
    Normalization,
    /// Additive bias outside normalization.
    Bias,
    /// Learned positional or RoPE parameter.
    PositionalEncoding,
    /// Recurrent, convolutional, or state-space state parameter.
    StateParameter,
    /// Convolution kernel not represented as a matrix projection.
    Convolution,
    /// Untied language-model output head.
    OutputHead,
}

/// Conservative default action for a recognized tensor role.
#[derive(Clone, Copy, Debug, PartialEq, Eq, Hash, Structural)]
#[non_exhaustive]
pub enum TensorDisposition {
    /// Run sensitivity-aware additive ternary quantization.
    AdditiveTernary,
    /// Copy the source tensor without lossy conversion.
    PreserveSource,
}

impl TensorDisposition {
    /// Choose the fail-safe default for a recognized role.
    ///
    /// Only explicit matrix projection roles are ternarized. Routers, norms,
    /// embeddings, biases, state, convolution, positional tensors, and output
    /// heads remain at source precision until a recipe opts them in separately.
    /// The match is intentionally exhaustive so adding a role requires an
    /// explicit safety decision here.
    pub fn for_role(role: TensorRole) -> (disposition: Self)
        ensures
            disposition == if role is Projection || role is ExpertProjection {
                TensorDisposition::AdditiveTernary
            } else {
                TensorDisposition::PreserveSource
            },
    {
        match role {
            TensorRole::Projection
            | TensorRole::ExpertProjection => TensorDisposition::AdditiveTernary,
            TensorRole::Router
            | TensorRole::Embedding
            | TensorRole::Normalization
            | TensorRole::Bias
            | TensorRole::PositionalEncoding
            | TensorRole::StateParameter
            | TensorRole::Convolution
            | TensorRole::OutputHead => TensorDisposition::PreserveSource,
        }
    }
}

/// Fail-closed model-family adapter used during conversion ingest.
pub trait ArchitectureAdapter {
    /// Describe every execution-semantic feature the source model requires.
    fn requirements(&self) -> ArchitectureRequirements;

    /// Assign a known semantic role to a source tensor.
    ///
    /// # Errors
    /// Must return [`AdapterError::UnrecognizedTensor`] rather than guessing when
    /// the model contains an unknown name or layout.
    fn classify_tensor(&self, tensor: TensorDescriptor<'_>) -> Result<TensorRole, AdapterError>;
}

/// Why architecture discovery or tensor classification failed.
#[derive(Clone, Debug, PartialEq, Eq)]
#[non_exhaustive]
pub enum AdapterError {
    /// Architecture identifier was empty.
    EmptyArchitecture,
    /// Tensor name was empty.
    EmptyTensorName,
    /// Tensor shape was empty.
    EmptyTensorShape(String),
    /// Tensor contained a zero-sized dimension.
    ZeroTensorDimension {
        /// Tensor containing the zero dimension.
        tensor: String,
        /// Zero-based dimension index.
        dimension: usize,
    },
    /// Adapter did not recognize a tensor and refused to guess.
    UnrecognizedTensor(String),
}

} // verus!
