//! Which tensors the coverage policy admits, and what it tells of the others.

use crate::coverage_schedule::{scheduled, ClassificationFailure, ExpectedView};
use crate::qwen35_coverage::{admitted, product, zero_at, CoverageFault, TensorView};
use vstd::prelude::*;
use vstd::utf8::encode_utf8;

verus! {

proof fn lemma_zero_at(shape: Seq<u64>, from: int)
    requires
        0 <= from <= shape.len(),
    ensures
        match zero_at(shape, from) {
            None => forall|k: int| from <= k < shape.len() ==> #[trigger] shape[k] != 0,
            Some(at) => {
                &&& from <= at < shape.len()
                &&& shape[at] == 0
                &&& forall|k: int| from <= k < at ==> #[trigger] shape[k] != 0
            },
        },
    decreases shape.len() - from,
{
    if from < shape.len() {
        lemma_zero_at(shape, from + 1);
    }
}

/// Whether a fault is one that a tensor has.
pub open spec fn fault_of_tensor(fault: CoverageFault, tensor: TensorView) -> bool {
    match fault {
        CoverageFault::EmptyTensorName => tensor.name.len() == 0,
        CoverageFault::MetadataFieldTooLong { field, maximum } => {
            ||| field == "tensor name" && encode_utf8(tensor.name).len() > maximum
            ||| field == "tensor dtype" && encode_utf8(tensor.dtype).len() > maximum
        },
        CoverageFault::UnsupportedDtype(name) => name == tensor.name && tensor.dtype != "BF16"@,
        CoverageFault::UnknownTensor(name) => {
            name == tensor.name && scheduled(name) == Err::<
                ExpectedView,
                ClassificationFailure,
            >(ClassificationFailure::Unknown)
        },
        CoverageFault::WrongLayerKind { tensor: name, layer, expected } => {
            name == tensor.name && scheduled(name) == Err::<
                ExpectedView,
                ClassificationFailure,
            >(ClassificationFailure::WrongLayerKind { layer, expected })
        },
        CoverageFault::WrongRank { tensor: name, expected, actual } => {
            &&& name == tensor.name
            &&& scheduled(name) is Ok
            &&& expected == scheduled(name)->Ok_0.shape.len()
            &&& actual == tensor.shape.len()
            &&& expected != actual || actual > 5
        },
        CoverageFault::ZeroDimension { tensor: name, dimension } => {
            &&& name == tensor.name
            &&& 0 <= dimension < tensor.shape.len()
            &&& tensor.shape[dimension] == 0
            &&& forall|k: int| 0 <= k < dimension ==> #[trigger] tensor.shape[k] != 0
        },
        CoverageFault::CoefficientOverflow(name) => {
            name == tensor.name && product(tensor.shape) > u64::MAX
        },
        CoverageFault::WrongShape(name) => {
            &&& name == tensor.name
            &&& scheduled(name) is Ok
            &&& tensor.shape.len() == scheduled(name)->Ok_0.shape.len()
            &&& tensor.shape != scheduled(name)->Ok_0.shape
        },
        _ => false,
    }
}

/// A tensor is admitted exactly if its name is scheduled and fits its bound, it is stored as BF16
/// and it has the scheduled shape, without zeros and with a countable product; otherwise it is
/// told a fault that it has.
pub proof fn only_scheduled_tensors_are_admitted(tensor: TensorView)
    ensures
        admitted(tensor) is Ok <==> {
            &&& 0 < tensor.name.len()
            &&& encode_utf8(tensor.name).len() <= 128
            &&& encode_utf8(tensor.dtype).len() <= 16
            &&& tensor.dtype == "BF16"@
            &&& scheduled(tensor.name) is Ok
            &&& tensor.shape == scheduled(tensor.name)->Ok_0.shape
            &&& tensor.shape.len() <= 5
            &&& forall|k: int| 0 <= k < tensor.shape.len() ==> #[trigger] tensor.shape[k] != 0
            &&& product(tensor.shape) <= u64::MAX
        },
        admitted(tensor) matches Err(fault) ==> fault_of_tensor(fault, tensor),
{
    lemma_zero_at(tensor.shape, 0);
}

} // verus!
