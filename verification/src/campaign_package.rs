//! Physical reports derived from what an opened package says of itself.

use crate::campaign_error::CampaignError;
use crate::campaign_size::{
    first_difference, ledger_components, runtime_ledger_mismatch, LogicalTritCount,
    MeasuredPackage, PhysicalSizeReport, ReportView, ResidentSizeComponents, RuntimeLedger,
    SerializedSizeComponents,
};
use vstd::prelude::*;

verus! {

/// One tile of an opened tensor.
#[derive(Clone, Copy, Debug, PartialEq, Eq, Structural)]
pub struct TileFacts {
    /// Coefficients in the tile.
    pub logical_len: u64,
    /// Ternary planes of the tile.
    pub planes: u64,
}

/// One tensor of an opened package.
#[derive(Clone, Debug, PartialEq, Eq)]
pub struct TensorFacts {
    /// Coefficients in the tensor.
    pub logical_coefficients: u64,
    /// Tiles in order.
    pub tiles: Vec<TileFacts>,
    /// Runtime allocations derived for the tensor.
    pub runtime: RuntimeLedger,
}

/// Serialized byte counts of an opened package.
#[derive(Clone, Copy, Debug, PartialEq, Eq, Structural)]
pub struct PackageLedger {
    /// Ternary payload bytes.
    pub payload_bytes: u64,
    /// Scale bytes.
    pub scales_bytes: u64,
    /// Allocation-map bytes.
    pub maps_bytes: u64,
    /// Logical allocation-map bits.
    pub allocation_map_bits: u64,
    /// Map bits carried in scalar fields.
    pub allocation_map_embedded_bits: u64,
    /// Header bytes.
    pub headers_bytes: u64,
    /// Transform bytes.
    pub transform_bytes: u64,
    /// Padding bytes.
    pub padding_bytes: u64,
}

/// What an opened canonical package says of itself.
#[derive(Clone, Debug, PartialEq, Eq)]
pub struct PackageFacts {
    /// Tensors in canonical order.
    pub tensors: Vec<TensorFacts>,
    /// Serialized byte counts.
    pub ledger: PackageLedger,
    /// Runtime allocations derived for the whole package.
    pub runtime: RuntimeLedger,
}

/// Coefficients of the first `count` tensors.
pub open spec fn parameters(tensors: Seq<TensorFacts>, count: nat) -> nat
    decreases count,
{
    if count == 0 {
        0
    } else {
        parameters(tensors, (count - 1) as nat) + tensors[count - 1].logical_coefficients as nat
    }
}

/// Ternary symbols of the first `count` tiles.
pub open spec fn tile_trits(tiles: Seq<TileFacts>, count: nat) -> nat
    decreases count,
{
    if count == 0 {
        0
    } else {
        tile_trits(tiles, (count - 1) as nat) + tiles[count - 1].logical_len as nat * tiles[count
            - 1].planes as nat
    }
}

/// Ternary symbols of the first `count` tensors.
pub open spec fn tensor_trits(tensors: Seq<TensorFacts>, count: nat) -> nat
    decreases count,
{
    if count == 0 {
        0
    } else {
        let tiles = tensors[count - 1].tiles@;
        tensor_trits(tensors, (count - 1) as nat) + tile_trits(tiles, tiles.len())
    }
}

/// The first runtime receipt from `from` on that disagrees with its tensor, if there is one.
pub open spec fn receipt_error(
    tensors: Seq<TensorFacts>,
    receipts: Seq<RuntimeLedger>,
    from: nat,
) -> Option<CampaignError>
    decreases tensors.len() - from,
{
    if from >= tensors.len() {
        None
    } else {
        match first_difference(
            ledger_components(tensors[from as int].runtime),
            ledger_components(receipts[from as int]),
            0,
        ) {
            Some((component, expected, supplied)) => Some(
                CampaignError::RuntimeAllocationMismatch {
                    tensor_index: from as usize,
                    component,
                    expected,
                    supplied,
                },
            ),
            None => receipt_error(tensors, receipts, from + 1),
        }
    }
}

/// The reason to refuse the supplied runtime receipts, if there is one.
pub open spec fn receipts_error(
    tensors: Seq<TensorFacts>,
    receipts: Option<Seq<RuntimeLedger>>,
) -> Option<CampaignError> {
    match receipts {
        None => None,
        Some(supplied) => if supplied.len() != tensors.len() {
            Some(
                CampaignError::RuntimeAllocationReceiptCountMismatch {
                    expected: tensors.len() as usize,
                    supplied: supplied.len() as usize,
                },
            )
        } else {
            receipt_error(tensors, supplied, 0)
        },
    }
}

/// The serialized components that a package's ledger gives.
pub open spec fn serialized_of(ledger: PackageLedger) -> SerializedSizeComponents {
    SerializedSizeComponents {
        core_payload_bytes: ledger.payload_bytes,
        core_scale_bytes: ledger.scales_bytes,
        allocation_map_bytes: ledger.maps_bytes,
        allocation_map_bits: ledger.allocation_map_bits,
        allocation_map_embedded_bits: ledger.allocation_map_embedded_bits,
        header_bytes: ledger.headers_bytes,
        transform_bytes: ledger.transform_bytes,
        preserved_bytes: 0,
        alignment_bytes: ledger.padding_bytes,
    }
}

/// The resident components that a package's runtime ledger gives.
pub open spec fn resident_of(
    runtime: RuntimeLedger,
    peak_workspace_bytes: Option<u64>,
) -> ResidentSizeComponents {
    ResidentSizeComponents {
        core_bytes: (runtime.payload_bytes + runtime.scale_bytes) as u64,
        map_bytes: runtime.allocation_map_bytes,
        map_bits: runtime.allocation_map_bits,
        map_embedded_bits: runtime.allocation_map_embedded_bits,
        descriptor_bytes: runtime.rank_prefix_bytes,
        preserved_bytes: 0,
        shadow_bytes: runtime.dense_shadow_bytes,
        peak_workspace_bytes,
    }
}

/// The reason to refuse a package's facts before its report is built, if there is one.
pub open spec fn facts_error(
    tensors: Seq<TensorFacts>,
    runtime: RuntimeLedger,
    receipts: Option<Seq<RuntimeLedger>>,
) -> Option<CampaignError> {
    if receipts_error(tensors, receipts) is Some {
        receipts_error(tensors, receipts)
    } else if parameters(tensors, tensors.len()) > u64::MAX {
        Some(CampaignError::PhysicalSizeOverflow("core parameter count"))
    } else if tensor_trits(tensors, tensors.len()) > u64::MAX {
        Some(CampaignError::PhysicalSizeOverflow("logical core trits"))
    } else if runtime.payload_bytes + runtime.scale_bytes > u64::MAX {
        Some(CampaignError::PhysicalSizeOverflow("resident core"))
    } else if tensor_trits(tensors, tensors.len()) == 0 {
        Some(CampaignError::ZeroValue("logical_core_trits"))
    } else {
        None
    }
}

proof fn lemma_parameters_grow(tensors: Seq<TensorFacts>, few: nat, many: nat)
    requires
        few <= many,
    ensures
        parameters(tensors, few) <= parameters(tensors, many),
    decreases many,
{
    if few < many {
        lemma_parameters_grow(tensors, few, (many - 1) as nat);
    }
}

proof fn lemma_tile_trits_grow(tiles: Seq<TileFacts>, few: nat, many: nat)
    requires
        few <= many,
    ensures
        tile_trits(tiles, few) <= tile_trits(tiles, many),
    decreases many,
{
    if few < many {
        lemma_tile_trits_grow(tiles, few, (many - 1) as nat);
        let last = tiles[many - 1];
        assert(last.logical_len as nat * last.planes as nat >= 0) by (nonlinear_arith);
    }
}

proof fn lemma_tensor_trits_grow(tensors: Seq<TensorFacts>, few: nat, many: nat)
    requires
        few <= many,
    ensures
        tensor_trits(tensors, few) <= tensor_trits(tensors, many),
    decreases many,
{
    if few < many {
        lemma_tensor_trits_grow(tensors, few, (many - 1) as nat);
    }
}

/// Compares every runtime receipt with its tensor.
fn check_receipts(tensors: &[TensorFacts], receipts: &[RuntimeLedger]) -> (result: Result<
    (),
    CampaignError,
>)
    ensures
        match receipts_error(tensors@, Some(receipts@)) {
            Some(error) => result == Err::<(), CampaignError>(error),
            None => result is Ok,
        },
{
    if receipts.len() != tensors.len() {
        return Err(
            CampaignError::RuntimeAllocationReceiptCountMismatch {
                expected: tensors.len(),
                supplied: receipts.len(),
            },
        );
    }
    let mut index: usize = 0;
    while index < tensors.len()
        invariant
            index <= tensors@.len() == receipts@.len(),
            receipt_error(tensors@, receipts@, 0) == receipt_error(
                tensors@,
                receipts@,
                index as nat,
            ),
        decreases tensors@.len() - index,
    {
        match runtime_ledger_mismatch(tensors[index].runtime, receipts[index]) {
            Some((component, expected, supplied)) => {
                return Err(
                    CampaignError::RuntimeAllocationMismatch {
                        tensor_index: index,
                        component,
                        expected,
                        supplied,
                    },
                );
            },
            None => {},
        }
        index = index + 1;
    }
    Ok(())
}

/// Coefficients of all tensors.
fn count_parameters(tensors: &[TensorFacts]) -> (count: Result<u64, CampaignError>)
    ensures
        if parameters(tensors@, tensors@.len()) > u64::MAX {
            count == Err::<u64, CampaignError>(
                CampaignError::PhysicalSizeOverflow("core parameter count"),
            )
        } else {
            count matches Ok(total) && total as nat == parameters(tensors@, tensors@.len())
        },
{
    let mut total: u64 = 0;
    let mut index: usize = 0;
    while index < tensors.len()
        invariant
            index <= tensors@.len(),
            total as nat == parameters(tensors@, index as nat),
        decreases tensors@.len() - index,
    {
        proof {
            lemma_parameters_grow(tensors@, (index + 1) as nat, tensors@.len());
        }
        total = match total.checked_add(tensors[index].logical_coefficients) {
            Some(sum) => sum,
            None => {
                return Err(CampaignError::PhysicalSizeOverflow("core parameter count"));
            },
        };
        index = index + 1;
    }
    Ok(total)
}

/// Adds the ternary symbols of a tensor's tiles.
fn add_tile_trits(before: u64, tiles: &[TileFacts]) -> (count: Result<u64, CampaignError>)
    ensures
        if before + tile_trits(tiles@, tiles@.len()) > u64::MAX {
            count == Err::<u64, CampaignError>(
                CampaignError::PhysicalSizeOverflow("logical core trits"),
            )
        } else {
            count matches Ok(total) && total == before + tile_trits(tiles@, tiles@.len())
        },
{
    let mut total: u64 = before;
    let mut index: usize = 0;
    while index < tiles.len()
        invariant
            index <= tiles@.len(),
            total == before + tile_trits(tiles@, index as nat),
        decreases tiles@.len() - index,
    {
        proof {
            lemma_tile_trits_grow(tiles@, (index + 1) as nat, tiles@.len());
        }
        let trits: u64 = match tiles[index].logical_len.checked_mul(tiles[index].planes) {
            Some(product) => product,
            None => {
                return Err(CampaignError::PhysicalSizeOverflow("logical core trits"));
            },
        };
        total = match total.checked_add(trits) {
            Some(sum) => sum,
            None => {
                return Err(CampaignError::PhysicalSizeOverflow("logical core trits"));
            },
        };
        index = index + 1;
    }
    Ok(total)
}

/// Ternary symbols of all tensors.
fn count_trits(tensors: &[TensorFacts]) -> (count: Result<u64, CampaignError>)
    ensures
        if tensor_trits(tensors@, tensors@.len()) > u64::MAX {
            count == Err::<u64, CampaignError>(
                CampaignError::PhysicalSizeOverflow("logical core trits"),
            )
        } else {
            count matches Ok(total) && total as nat == tensor_trits(tensors@, tensors@.len())
        },
{
    let mut total: u64 = 0;
    let mut index: usize = 0;
    while index < tensors.len()
        invariant
            index <= tensors@.len(),
            total as nat == tensor_trits(tensors@, index as nat),
        decreases tensors@.len() - index,
    {
        proof {
            lemma_tensor_trits_grow(tensors@, (index + 1) as nat, tensors@.len());
        }
        total = add_tile_trits(total, tensors[index].tiles.as_slice())?;
        index = index + 1;
    }
    Ok(total)
}

/// The receipts as a sequence.
pub open spec fn receipts_view(receipts: Option<&[RuntimeLedger]>) -> Option<Seq<RuntimeLedger>> {
    match receipts {
        Some(supplied) => Some(supplied@),
        None => None,
    }
}

impl PhysicalSizeReport {
    /// Derives all core accounting from what an opened package says of itself.
    ///
    /// Callers supply only the whole-model denominator and an optional independently measured
    /// transient workspace. The package is treated as a core-only artifact, so preserved-model
    /// components and shadows are zero. Where runtime receipts are given, there has to be one per
    /// tensor in canonical order, each equal in every component to the derived ledger.
    pub fn from_package_facts(
        package: MeasuredPackage,
        facts: &PackageFacts,
        model_parameter_count: u64,
        receipts: Option<&[RuntimeLedger]>,
        peak_workspace_bytes: Option<u64>,
    ) -> (report: Result<Self, CampaignError>)
        ensures
            match facts_error(facts.tensors@, facts.runtime, receipts_view(receipts)) {
                Some(error) => report == Err::<Self, CampaignError>(error),
                None => exists|trits: LogicalTritCount| #[trigger]
                    trits.count() == tensor_trits(facts.tensors@, facts.tensors@.len()) && ({
                        let view = ReportView {
                            package,
                            core_parameter_count: parameters(
                                facts.tensors@,
                                facts.tensors@.len(),
                            ) as u64,
                            model_parameter_count,
                            logical_core_trits: trits,
                            serialized: serialized_of(facts.ledger),
                            resident: resident_of(facts.runtime, peak_workspace_bytes),
                        };
                        match view.error() {
                            Some(error) => report == Err::<Self, CampaignError>(error),
                            None => report matches Ok(made) && made.wf() && made@ == view,
                        }
                    }),
            },
            report matches Ok(made) ==> {
                &&& made@.package == package
                &&& made@.model_parameter_count == model_parameter_count
                &&& made@.resident.steady() == facts.runtime.payload_bytes
                    + facts.runtime.scale_bytes + facts.runtime.allocation_map_bytes
                    + facts.runtime.rank_prefix_bytes + facts.runtime.dense_shadow_bytes
                &&& made@.resident.core_sum() == made@.resident.steady()
                &&& made@.resident.peak_workspace_bytes == peak_workspace_bytes
                &&& package.length() == facts.ledger.payload_bytes + facts.ledger.scales_bytes
                    + facts.ledger.maps_bytes + facts.ledger.headers_bytes
                    + facts.ledger.transform_bytes + facts.ledger.padding_bytes
            },
    {
        let tensors: &[TensorFacts] = facts.tensors.as_slice();
        match receipts {
            Some(supplied) => {
                check_receipts(tensors, supplied)?;
            },
            None => {},
        }
        let core_parameter_count: u64 = count_parameters(tensors)?;
        let trits: u64 = count_trits(tensors)?;
        let runtime: RuntimeLedger = facts.runtime;
        let core_bytes: u64 = match runtime.payload_bytes.checked_add(runtime.scale_bytes) {
            Some(sum) => sum,
            None => {
                return Err(CampaignError::PhysicalSizeOverflow("resident core"));
            },
        };
        let logical_core_trits: LogicalTritCount = LogicalTritCount::new(trits)?;
        let serialized = SerializedSizeComponents::new(
            facts.ledger.payload_bytes,
            facts.ledger.scales_bytes,
            facts.ledger.maps_bytes,
            facts.ledger.allocation_map_bits,
            facts.ledger.allocation_map_embedded_bits,
            facts.ledger.headers_bytes,
            facts.ledger.transform_bytes,
            0,
            facts.ledger.padding_bytes,
        );
        let resident = ResidentSizeComponents::new(
            core_bytes,
            runtime.allocation_map_bytes,
            runtime.allocation_map_bits,
            runtime.allocation_map_embedded_bits,
            runtime.rank_prefix_bytes,
            0,
            runtime.dense_shadow_bytes,
            peak_workspace_bytes,
        );
        let report = Self::new(
            package,
            core_parameter_count,
            model_parameter_count,
            logical_core_trits,
            serialized,
            resident,
        );
        assert(logical_core_trits.count() == tensor_trits(facts.tensors@, facts.tensors@.len()));
        report
    }
}

} // verus!
