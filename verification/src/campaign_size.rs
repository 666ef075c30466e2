//! Exact physical accounting of measured packages.

use crate::campaign_error::CampaignError;
use crate::campaign_provenance::{validate_nonzero, zero_error, PackageId};
use vstd::prelude::*;

verus! {

/// Exact identity and physical size of serialized inference bytes.
///
/// Identity and byte count are measured together, so a measurement is one value.
#[derive(Clone, Copy, Debug, PartialEq, Eq, Hash)]
pub struct MeasuredPackage {
    id: PackageId,
    physical_bytes: u64,
}

impl MeasuredPackage {
    /// The content identity.
    pub closed spec fn package_id(self) -> PackageId {
        self.id
    }

    /// The artifact length.
    pub closed spec fn length(self) -> u64 {
        self.physical_bytes
    }

    /// Joins the identity and the length of one measured artifact.
    pub fn measured(id: PackageId, physical_bytes: u64) -> (package: Result<Self, CampaignError>)
        ensures
            match zero_error("physical_bytes", physical_bytes) {
                Some(error) => package == Err::<Self, CampaignError>(error),
                None => package matches Ok(made) && made.package_id() == id && made.length()
                    == physical_bytes,
            },
    {
        validate_nonzero("physical_bytes", physical_bytes)?;
        Ok(MeasuredPackage { id, physical_bytes })
    }

    /// Content identity of the exact serialized artifact.
    pub fn id(self) -> (id: PackageId)
        ensures
            id == self.package_id(),
    {
        self.id
    }

    /// Exact serialized artifact length.
    pub fn physical_bytes(self) -> (bytes: u64)
        ensures
            bytes == self.length(),
    {
        self.physical_bytes
    }

    /// Whether both measurements found the same identity and length.
    pub fn same(&self, other: &Self) -> (equal: bool)
        ensures
            equal == (*self == *other),
            equal == (self.package_id() == other.package_id() && self.length() == other.length()),
    {
        self.id.same(&other.id) && self.physical_bytes == other.physical_bytes
    }

    /// Requires a remeasured package to have the same identity and length.
    pub fn verify(self, actual: Self) -> (result: Result<(), CampaignError>)
        ensures
            if self == actual {
                result is Ok
            } else {
                result == Err::<(), CampaignError>(measurement_mismatch(self, actual))
            },
    {
        if !actual.same(&self) {
            return Err(
                CampaignError::PackageMeasurementMismatch {
                    expected_id: self.id,
                    actual_id: actual.id,
                    expected_bytes: self.physical_bytes,
                    actual_bytes: actual.physical_bytes,
                },
            );
        }
        Ok(())
    }
}

/// The failure of a measurement that differs from the expected one.
pub open spec fn measurement_mismatch(expected: MeasuredPackage, actual: MeasuredPackage) -> CampaignError {
    CampaignError::PackageMeasurementMismatch {
        expected_id: expected.package_id(),
        actual_id: actual.package_id(),
        expected_bytes: expected.length(),
        actual_bytes: actual.length(),
    }
}

/// Adds the length of one read to the measured length.
pub fn checked_package_length(current: u64, read: usize) -> (length: Result<u64, CampaignError>)
    ensures
        if current + read <= u64::MAX {
            length == Ok::<u64, CampaignError>((current + read) as u64)
        } else {
            length == Err::<u64, CampaignError>(CampaignError::RecordTooLarge("package"))
        },
{
    match current.checked_add(read as u64) {
        Some(length) => Ok(length),
        None => Err(CampaignError::RecordTooLarge("package")),
    }
}

/// An exact rational storage rate measured in thousandths of a bit per weight.
///
/// The represented value is `numerator_millibits / denominator_weights`.
/// Keeping both integers avoids using a rounded floating-point display value to
/// authorize a package, resident allocation, or profile claim.
#[derive(Clone, Copy, Debug, PartialEq, Eq, Hash)]
pub struct ExactMillibpw {
    numerator_millibits: u128,
    denominator_weights: u64,
}

impl ExactMillibpw {
    /// Millibits in all.
    pub closed spec fn millibits(self) -> nat {
        self.numerator_millibits as nat
    }

    /// Weights in all.
    pub closed spec fn weights(self) -> nat {
        self.denominator_weights as nat
    }

    /// The rate of some bytes over some weights.
    pub fn from_bytes(bytes: u64, denominator_weights: u64) -> (rate: Self)
        ensures
            rate.millibits() == 8000 * bytes as nat,
            rate.weights() == denominator_weights,
    {
        ExactMillibpw { numerator_millibits: bytes as u128 * 8000, denominator_weights }
    }

    /// Numerator in millibits before division by the weight count.
    pub fn numerator_millibits(self) -> (millibits: u128)
        ensures
            millibits as nat == self.millibits(),
    {
        self.numerator_millibits
    }

    /// Exact weight-count denominator.
    pub fn denominator_weights(self) -> (weights: u64)
        ensures
            weights as nat == self.weights(),
    {
        self.denominator_weights
    }

    /// Smallest integer millibpw value no lower than the exact rate.
    ///
    /// This conservative ceiling is suitable for display and integer-only
    /// budgets. Exact authorization should prefer [`Self::is_at_most`].
    pub fn ceiling(self) -> (ceiling: u128)
        requires
            self.weights() > 0,
        ensures
            ceiling * self.weights() >= self.millibits(),
            forall|lower: nat|
                lower < ceiling ==> #[trigger] (lower * self.weights()) < self.millibits(),
    {
        let denominator: u128 = self.denominator_weights as u128;
        let quotient: u128 = self.numerator_millibits / denominator;
        let remainder: u128 = self.numerator_millibits % denominator;
        proof {
            let n = self.numerator_millibits as int;
            let d = denominator as int;
            let q = quotient as int;
            vstd::arithmetic::div_mod::lemma_fundamental_div_mod(n, d);
            assert(d * q == q * d) by (nonlinear_arith);
            assert((q + 1) * d == q * d + d) by (nonlinear_arith);
            let top = if remainder == 0 {
                q
            } else {
                q + 1
            };
            assert forall|lower: nat| lower < top implies #[trigger] (lower * self.weights())
                < self.millibits() by {
                assert((lower + 1) * d == lower * d + d) by (nonlinear_arith);
                assert((lower + 1) * d <= top * d) by (nonlinear_arith)
                    requires
                        lower + 1 <= top,
                        d >= 1,
                ;
            }
            if q > 0 {
                assert(q <= q * d) by (nonlinear_arith)
                    requires
                        d >= 1,
                        q >= 0,
                ;
            }
            if remainder > 0 {
                assert(q < u128::MAX) by (nonlinear_arith)
                    requires
                        q * d + remainder == n,
                        n <= u128::MAX,
                        remainder > 0,
                        d >= 1,
                        q >= 0,
                ;
            }
        }
        if remainder == 0 {
            quotient
        } else {
            quotient + 1
        }
    }

    /// Test an integer millibpw ceiling without division or floating point.
    pub fn is_at_most(self, limit_millibpw: u64) -> (within: bool)
        ensures
            within == (self.millibits() <= self.weights() * limit_millibpw as nat),
    {
        proof {
            lemma_wide_product(self.denominator_weights, limit_millibpw);
        }
        self.numerator_millibits <= self.denominator_weights as u128 * limit_millibpw as u128
    }

    /// Test whether the exact rate equals an integer millibpw value.
    pub fn equals(self, millibpw: u64) -> (equal: bool)
        ensures
            equal == (self.millibits() == self.weights() * millibpw as nat),
    {
        proof {
            lemma_wide_product(self.denominator_weights, millibpw);
        }
        self.numerator_millibits == self.denominator_weights as u128 * millibpw as u128
    }
}

/// A product of two 64-bit counts fits 128 bits.
pub proof fn lemma_wide_product(left: u64, right: u64)
    ensures
        0 <= left as int * right as int <= u128::MAX,
{
    assert(left as int * right as int <= 0xffff_ffff_ffff_ffff * 0xffff_ffff_ffff_ffff)
        by (nonlinear_arith)
        requires
            0 <= left <= 0xffff_ffff_ffff_ffff,
            0 <= right <= 0xffff_ffff_ffff_ffff,
    ;
    assert(left as int * right as int >= 0) by (nonlinear_arith);
}

/// Nonzero count of logical ternary symbols assigned by an additive allocator.
///
/// This wrapper prevents a rounded integer bit count from being passed where a
/// trit count is required. Information bits are derived only for display.
#[derive(Clone, Copy, Debug, PartialEq, Eq, Hash)]
pub struct LogicalTritCount {
    trits: u64,
}

impl LogicalTritCount {
    /// The number of ternary symbols.
    pub closed spec fn count(self) -> u64 {
        self.trits
    }

    /// Construct a nonzero logical trit count.
    pub fn new(trits: u64) -> (count: Result<Self, CampaignError>)
        ensures
            match zero_error("logical_core_trits", trits) {
                Some(error) => count == Err::<Self, CampaignError>(error),
                None => count matches Ok(made) && made.count() == trits,
            },
    {
        validate_nonzero("logical_core_trits", trits)?;
        Ok(LogicalTritCount { trits })
    }

    /// Raw number of logical ternary symbols.
    pub fn get(self) -> (trits: u64)
        ensures
            trits == self.count(),
    {
        self.trits
    }
}

/// Exact rational logical trit rate.
#[derive(Clone, Copy, Debug, PartialEq, Eq, Hash)]
pub struct LogicalTritRate {
    trits: LogicalTritCount,
    weights: u64,
}

impl LogicalTritRate {
    /// The trit numerator.
    pub closed spec fn numerator(self) -> u64 {
        self.trits.count()
    }

    /// The weight denominator.
    pub closed spec fn denominator(self) -> u64 {
        self.weights
    }

    /// Exact trit numerator.
    pub fn trits(self) -> (trits: u64)
        ensures
            trits == self.numerator(),
    {
        self.trits.get()
    }

    /// Exact weight denominator.
    pub fn weights(self) -> (weights: u64)
        ensures
            weights == self.denominator(),
    {
        self.weights
    }
}

/// The sum of some byte counts.
pub open spec fn total_of(components: Seq<u64>) -> nat
    decreases components.len(),
{
    if components.len() == 0 {
        0
    } else {
        total_of(components.drop_last()) + components.last() as nat
    }
}

proof fn lemma_partial_total(components: Seq<u64>, few: int)
    requires
        0 <= few <= components.len(),
    ensures
        total_of(components.take(few)) <= total_of(components),
    decreases components.len(),
{
    if few < components.len() {
        lemma_partial_total(components.drop_last(), few);
        assert(components.drop_last().take(few) =~= components.take(few));
    } else {
        assert(components.take(few) =~= components);
    }
}

/// Adds byte counts, or names the sum that does not fit.
pub fn checked_physical_sum(field: &'static str, components: &[u64]) -> (sum: Result<
    u64,
    CampaignError,
>)
    ensures
        if total_of(components@) > u64::MAX {
            sum == Err::<u64, CampaignError>(CampaignError::PhysicalSizeOverflow(field))
        } else {
            sum matches Ok(total) && total as nat == total_of(components@)
        },
{
    let mut total: u64 = 0;
    let mut index: usize = 0;
    while index < components.len()
        invariant
            index <= components@.len(),
            total as nat == total_of(components@.take(index as int)),
        decreases components@.len() - index,
    {
        proof {
            let longer = components@.take(index + 1);
            assert(longer.drop_last() =~= components@.take(index as int));
            lemma_partial_total(components@, index + 1);
        }
        total = match total.checked_add(components[index]) {
            Some(sum) => sum,
            None => {
                return Err(CampaignError::PhysicalSizeOverflow(field));
            },
        };
        index = index + 1;
    }
    assert(components@.take(index as int) =~= components@);
    Ok(total)
}

/// Exact serialized component counters for one inference package.
#[derive(Clone, Copy, Debug, PartialEq, Eq, Hash, Structural)]
pub struct SerializedSizeComponents {
    /// Encoded ternary coefficient payload bytes.
    pub core_payload_bytes: u64,
    /// Deployment-scale bytes associated with the core payload.
    pub core_scale_bytes: u64,
    /// Plane-presence, plane-count, and other allocation-map bytes.
    pub allocation_map_bytes: u64,
    /// Exact logical allocation-map bits, including embedded terminal bits.
    pub allocation_map_bits: u64,
    /// Logical map bits carried in mandatory package/tensor scalar fields.
    pub allocation_map_embedded_bits: u64,
    /// Tensor, row, and container header bytes.
    pub header_bytes: u64,
    /// Serialized transform metadata bytes.
    pub transform_bytes: u64,
    /// Serialized bytes of preserved non-core tensors and assets.
    pub preserved_bytes: u64,
    /// Alignment and padding bytes present in the exact package.
    pub alignment_bytes: u64,
}

impl SerializedSizeComponents {
    /// Record exact serialized byte counts in package order-independent classes.
    pub fn new(
        core_payload_bytes: u64,
        core_scale_bytes: u64,
        allocation_map_bytes: u64,
        allocation_map_bits: u64,
        allocation_map_embedded_bits: u64,
        header_bytes: u64,
        transform_bytes: u64,
        preserved_bytes: u64,
        alignment_bytes: u64,
    ) -> (components: Self)
        ensures
            components == (SerializedSizeComponents {
                core_payload_bytes,
                core_scale_bytes,
                allocation_map_bytes,
                allocation_map_bits,
                allocation_map_embedded_bits,
                header_bytes,
                transform_bytes,
                preserved_bytes,
                alignment_bytes,
            }),
    {
        SerializedSizeComponents {
            core_payload_bytes,
            core_scale_bytes,
            allocation_map_bytes,
            allocation_map_bits,
            allocation_map_embedded_bits,
            header_bytes,
            transform_bytes,
            preserved_bytes,
            alignment_bytes,
        }
    }

    /// Encoded ternary coefficient payload bytes.
    pub fn core_payload_bytes(self) -> (value: u64)
        ensures
            value == self.core_payload_bytes,
    {
        self.core_payload_bytes
    }

    /// Deployment-scale bytes associated with the core payload.
    pub fn core_scale_bytes(self) -> (value: u64)
        ensures
            value == self.core_scale_bytes,
    {
        self.core_scale_bytes
    }

    /// Plane-presence, plane-count, and other allocation-map bytes.
    pub fn allocation_map_bytes(self) -> (value: u64)
        ensures
            value == self.allocation_map_bytes,
    {
        self.allocation_map_bytes
    }

    /// Exact logical allocation-map bits, including embedded terminal bits.
    pub fn allocation_map_bits(self) -> (value: u64)
        ensures
            value == self.allocation_map_bits,
    {
        self.allocation_map_bits
    }

    /// Logical map bits carried in mandatory package/tensor scalar fields.
    pub fn allocation_map_embedded_bits(self) -> (value: u64)
        ensures
            value == self.allocation_map_embedded_bits,
    {
        self.allocation_map_embedded_bits
    }

    /// Tensor, row, and container header bytes.
    pub fn header_bytes(self) -> (value: u64)
        ensures
            value == self.header_bytes,
    {
        self.header_bytes
    }

    /// Serialized transform metadata bytes.
    pub fn transform_bytes(self) -> (value: u64)
        ensures
            value == self.transform_bytes,
    {
        self.transform_bytes
    }

    /// Serialized bytes of preserved non-core tensors and assets.
    pub fn preserved_bytes(self) -> (value: u64)
        ensures
            value == self.preserved_bytes,
    {
        self.preserved_bytes
    }

    /// Alignment and padding bytes present in the exact package.
    pub fn alignment_bytes(self) -> (value: u64)
        ensures
            value == self.alignment_bytes,
    {
        self.alignment_bytes
    }

    /// Bytes of the core: everything but the preserved tensors.
    pub open spec fn core_sum(self) -> nat {
        self.core_payload_bytes as nat + self.core_scale_bytes as nat
            + self.allocation_map_bytes as nat + self.header_bytes as nat
            + self.transform_bytes as nat + self.alignment_bytes as nat
    }

    /// Bytes of the package.
    pub open spec fn total(self) -> nat {
        self.core_sum() + self.preserved_bytes as nat
    }

    fn core_total_bytes(self) -> (bytes: Result<u64, CampaignError>)
        ensures
            if self.core_sum() > u64::MAX {
                bytes == Err::<u64, CampaignError>(
                    CampaignError::PhysicalSizeOverflow("serialized core"),
                )
            } else {
                bytes matches Ok(total) && total as nat == self.core_sum()
            },
    {
        let parts: [u64; 6] = [
            self.core_payload_bytes,
            self.core_scale_bytes,
            self.allocation_map_bytes,
            self.header_bytes,
            self.transform_bytes,
            self.alignment_bytes,
        ];
        proof {
            lemma_total_6(parts@);
        }
        checked_physical_sum("serialized core", parts.as_slice())
    }

    fn total_bytes(self) -> (bytes: Result<u64, CampaignError>)
        ensures
            if self.total() > u64::MAX {
                bytes == Err::<u64, CampaignError>(
                    CampaignError::PhysicalSizeOverflow("serialized package"),
                )
            } else {
                bytes matches Ok(total) && total as nat == self.total()
            },
    {
        let parts: [u64; 7] = [
            self.core_payload_bytes,
            self.core_scale_bytes,
            self.allocation_map_bytes,
            self.header_bytes,
            self.transform_bytes,
            self.preserved_bytes,
            self.alignment_bytes,
        ];
        proof {
            lemma_total_7(parts@);
        }
        checked_physical_sum("serialized package", parts.as_slice())
    }
}

impl Default for SerializedSizeComponents {
    /// No bytes at all.
    fn default() -> (components: Self)
        ensures
            components.total() == 0,
            components.allocation_map_bits == 0,
            components.allocation_map_embedded_bits == 0,
    {
        SerializedSizeComponents::new(0, 0, 0, 0, 0, 0, 0, 0, 0)
    }
}

proof fn lemma_total_step(parts: Seq<u64>)
    requires
        parts.len() > 0,
    ensures
        total_of(parts) == total_of(parts.take(parts.len() - 1)) + parts[parts.len() - 1] as nat,
{
    assert(parts.take(parts.len() - 1) =~= parts.drop_last());
}

proof fn lemma_total_4(parts: Seq<u64>)
    requires
        parts.len() == 4,
    ensures
        total_of(parts) == parts[0] as nat + parts[1] as nat + parts[2] as nat + parts[3] as nat,
{
    reveal_with_fuel(total_of, 5);
}

proof fn lemma_total_5(parts: Seq<u64>)
    requires
        parts.len() == 5,
    ensures
        total_of(parts) == parts[0] as nat + parts[1] as nat + parts[2] as nat + parts[3] as nat
            + parts[4] as nat,
{
    lemma_total_step(parts);
    lemma_total_4(parts.take(4));
}

proof fn lemma_total_6(parts: Seq<u64>)
    requires
        parts.len() == 6,
    ensures
        total_of(parts) == parts[0] as nat + parts[1] as nat + parts[2] as nat + parts[3] as nat
            + parts[4] as nat + parts[5] as nat,
{
    lemma_total_step(parts);
    lemma_total_5(parts.take(5));
}

proof fn lemma_total_7(parts: Seq<u64>)
    requires
        parts.len() == 7,
    ensures
        total_of(parts) == parts[0] as nat + parts[1] as nat + parts[2] as nat + parts[3] as nat
            + parts[4] as nat + parts[5] as nat + parts[6] as nat,
{
    lemma_total_step(parts);
    lemma_total_6(parts.take(6));
}

/// Exact steady-state and peak resident component counters.
#[derive(Clone, Copy, Debug, PartialEq, Eq, Hash, Structural)]
pub struct ResidentSizeComponents {
    /// Resident encoded core coefficient and scale bytes.
    pub core_bytes: u64,
    /// Resident plane/allocation map bytes.
    pub map_bytes: u64,
    /// Exact logical runtime map bits, including scalar-carried terminal bits.
    pub map_bits: u64,
    /// Runtime map bits carried in a mandatory launch scalar rather than an allocation.
    pub map_embedded_bits: u64,
    /// Resident row, tensor, and dispatch descriptor bytes.
    pub descriptor_bytes: u64,
    /// Resident preserved non-core tensor bytes.
    pub preserved_bytes: u64,
    /// Required alternate layouts or other persistent weight shadows.
    pub shadow_bytes: u64,
    /// Additional transient allocation present at the measured peak.
    pub peak_workspace_bytes: Option<u64>,
}

impl ResidentSizeComponents {
    /// Record exact resident allocation byte counts.
    pub fn new(
        core_bytes: u64,
        map_bytes: u64,
        map_bits: u64,
        map_embedded_bits: u64,
        descriptor_bytes: u64,
        preserved_bytes: u64,
        shadow_bytes: u64,
        peak_workspace_bytes: Option<u64>,
    ) -> (components: Self)
        ensures
            components == (ResidentSizeComponents {
                core_bytes,
                map_bytes,
                map_bits,
                map_embedded_bits,
                descriptor_bytes,
                preserved_bytes,
                shadow_bytes,
                peak_workspace_bytes,
            }),
    {
        ResidentSizeComponents {
            core_bytes,
            map_bytes,
            map_bits,
            map_embedded_bits,
            descriptor_bytes,
            preserved_bytes,
            shadow_bytes,
            peak_workspace_bytes,
        }
    }

    /// Resident encoded core coefficient and scale bytes.
    pub fn core_bytes(self) -> (value: u64)
        ensures
            value == self.core_bytes,
    {
        self.core_bytes
    }

    /// Resident plane/allocation map bytes.
    pub fn map_bytes(self) -> (value: u64)
        ensures
            value == self.map_bytes,
    {
        self.map_bytes
    }

    /// Exact logical runtime map bits, including scalar-carried terminal bits.
    pub fn map_bits(self) -> (value: u64)
        ensures
            value == self.map_bits,
    {
        self.map_bits
    }

    /// Runtime map bits carried in a mandatory launch scalar rather than an allocation.
    pub fn map_embedded_bits(self) -> (value: u64)
        ensures
            value == self.map_embedded_bits,
    {
        self.map_embedded_bits
    }

    /// Resident row, tensor, and dispatch descriptor bytes.
    pub fn descriptor_bytes(self) -> (value: u64)
        ensures
            value == self.descriptor_bytes,
    {
        self.descriptor_bytes
    }

    /// Resident preserved non-core tensor bytes.
    pub fn preserved_bytes(self) -> (value: u64)
        ensures
            value == self.preserved_bytes,
    {
        self.preserved_bytes
    }

    /// Required alternate layouts or other persistent weight shadows.
    pub fn shadow_bytes(self) -> (value: u64)
        ensures
            value == self.shadow_bytes,
    {
        self.shadow_bytes
    }

    /// Additional transient allocation present at the measured peak.
    pub fn peak_workspace_bytes(self) -> (value: Option<u64>)
        ensures
            value == self.peak_workspace_bytes,
    {
        self.peak_workspace_bytes
    }

    /// Steady resident bytes of the core.
    pub open spec fn core_sum(self) -> nat {
        self.core_bytes as nat + self.map_bytes as nat + self.descriptor_bytes as nat
            + self.shadow_bytes as nat
    }

    /// Steady resident bytes of the whole model.
    pub open spec fn steady(self) -> nat {
        self.core_sum() + self.preserved_bytes as nat
    }

    /// Peak resident bytes of the whole model, when the workspace was measured.
    pub open spec fn peak(self) -> Option<nat> {
        match self.peak_workspace_bytes {
            Some(workspace) => Some(self.steady() + workspace as nat),
            None => None,
        }
    }

    fn core_total_bytes(self) -> (bytes: Result<u64, CampaignError>)
        ensures
            if self.core_sum() > u64::MAX {
                bytes == Err::<u64, CampaignError>(
                    CampaignError::PhysicalSizeOverflow("resident core"),
                )
            } else {
                bytes matches Ok(total) && total as nat == self.core_sum()
            },
    {
        let parts: [u64; 4] = [
            self.core_bytes,
            self.map_bytes,
            self.descriptor_bytes,
            self.shadow_bytes,
        ];
        proof {
            lemma_total_4(parts@);
        }
        checked_physical_sum("resident core", parts.as_slice())
    }

    fn steady_total_bytes(self) -> (bytes: Result<u64, CampaignError>)
        ensures
            if self.steady() > u64::MAX {
                bytes == Err::<u64, CampaignError>(
                    CampaignError::PhysicalSizeOverflow("steady resident"),
                )
            } else {
                bytes matches Ok(total) && total as nat == self.steady()
            },
    {
        let parts: [u64; 5] = [
            self.core_bytes,
            self.map_bytes,
            self.descriptor_bytes,
            self.preserved_bytes,
            self.shadow_bytes,
        ];
        proof {
            lemma_total_5(parts@);
        }
        checked_physical_sum("steady resident", parts.as_slice())
    }

    fn peak_total_bytes(self, steady: u64) -> (bytes: Result<Option<u64>, CampaignError>)
        requires
            steady as nat == self.steady(),
        ensures
            match self.peak() {
                None => bytes == Ok::<Option<u64>, CampaignError>(None),
                Some(peak) => if peak > u64::MAX {
                    bytes == Err::<Option<u64>, CampaignError>(
                        CampaignError::PhysicalSizeOverflow("peak resident"),
                    )
                } else {
                    bytes == Ok::<Option<u64>, CampaignError>(Some(peak as u64))
                },
            },
    {
        match self.peak_workspace_bytes {
            None => Ok(None),
            Some(workspace) => match steady.checked_add(workspace) {
                Some(peak) => Ok(Some(peak)),
                None => Err(CampaignError::PhysicalSizeOverflow("peak resident")),
            },
        }
    }
}

impl Default for ResidentSizeComponents {
    /// No bytes at all, and no measured peak.
    fn default() -> (components: Self)
        ensures
            components.steady() == 0,
            components.map_bits == 0,
            components.map_embedded_bits == 0,
            components.peak_workspace_bytes is None,
    {
        ResidentSizeComponents::new(0, 0, 0, 0, 0, 0, 0, None)
    }
}

/// The reason to refuse a map whose allocated and embedded bits are not its logical bits.
pub open spec fn map_error(
    field: &'static str,
    allocated_bytes: u64,
    logical_bits: u64,
    embedded_bits: u64,
) -> Option<CampaignError> {
    let accounted = 8 * allocated_bytes + embedded_bits;
    if accounted > u64::MAX {
        Some(CampaignError::PhysicalSizeOverflow(field))
    } else if accounted != logical_bits {
        Some(CampaignError::InvalidPhysicalSize(field))
    } else {
        None
    }
}

/// Checks that a map's allocated and embedded bits are its logical bits.
pub fn validate_map_accounting(
    field: &'static str,
    allocated_bytes: u64,
    logical_bits: u64,
    embedded_bits: u64,
) -> (result: Result<(), CampaignError>)
    ensures
        match map_error(field, allocated_bytes, logical_bits, embedded_bits) {
            Some(error) => result == Err::<(), CampaignError>(error),
            None => result is Ok,
        },
{
    let allocated_bits: u64 = match allocated_bytes.checked_mul(8) {
        Some(bits) => bits,
        None => {
            return Err(CampaignError::PhysicalSizeOverflow(field));
        },
    };
    let accounted_bits: u64 = match allocated_bits.checked_add(embedded_bits) {
        Some(bits) => bits,
        None => {
            return Err(CampaignError::PhysicalSizeOverflow(field));
        },
    };
    if accounted_bits != logical_bits {
        return Err(CampaignError::InvalidPhysicalSize(field));
    }
    Ok(())
}

/// What a physical report accounts for.
pub struct ReportView {
    /// The measured package.
    pub package: MeasuredPackage,
    /// Parameters of the core.
    pub core_parameter_count: u64,
    /// Parameters of the model.
    pub model_parameter_count: u64,
    /// Logical ternary symbols of the core.
    pub logical_core_trits: LogicalTritCount,
    /// Serialized components.
    pub serialized: SerializedSizeComponents,
    /// Resident components.
    pub resident: ResidentSizeComponents,
}

impl ReportView {
    /// The reason to refuse the accounting, if there is one.
    pub open spec fn error(self) -> Option<CampaignError> {
        if self.core_parameter_count == 0 {
            Some(CampaignError::ZeroValue("core_parameter_count"))
        } else if self.model_parameter_count == 0 {
            Some(CampaignError::ZeroValue("model_parameter_count"))
        } else if self.core_parameter_count > self.model_parameter_count {
            Some(
                CampaignError::InvalidPhysicalSize(
                    "core_parameter_count exceeds model_parameter_count",
                ),
            )
        } else if self.serialized_map_error() is Some {
            self.serialized_map_error()
        } else if self.resident_map_error() is Some {
            self.resident_map_error()
        } else if self.serialized.core_sum() > u64::MAX {
            Some(CampaignError::PhysicalSizeOverflow("serialized core"))
        } else if self.serialized.core_sum() == 0 {
            Some(CampaignError::ZeroValue("serialized_core_bytes"))
        } else if self.serialized.total() > u64::MAX {
            Some(CampaignError::PhysicalSizeOverflow("serialized package"))
        } else if self.serialized.total() != self.package.length() {
            Some(
                CampaignError::PhysicalPackageSizeMismatch {
                    measured_bytes: self.package.length(),
                    component_bytes: self.serialized.total() as u64,
                },
            )
        } else if self.resident.core_sum() > u64::MAX {
            Some(CampaignError::PhysicalSizeOverflow("resident core"))
        } else if self.resident.core_sum() == 0 {
            Some(CampaignError::ZeroValue("resident_core_bytes"))
        } else if self.resident.steady() > u64::MAX {
            Some(CampaignError::PhysicalSizeOverflow("steady resident"))
        } else if self.resident.peak() is Some && self.resident.peak()->0 > u64::MAX {
            Some(CampaignError::PhysicalSizeOverflow("peak resident"))
        } else {
            None
        }
    }

    /// The reason to refuse the serialized map's accounting, if there is one.
    pub open spec fn serialized_map_error(self) -> Option<CampaignError> {
        map_error(
            "serialized allocation map",
            self.serialized.allocation_map_bytes,
            self.serialized.allocation_map_bits,
            self.serialized.allocation_map_embedded_bits,
        )
    }

    /// The reason to refuse the resident map's accounting, if there is one.
    pub open spec fn resident_map_error(self) -> Option<CampaignError> {
        map_error(
            "resident allocation map",
            self.resident.map_bytes,
            self.resident.map_bits,
            self.resident.map_embedded_bits,
        )
    }

    /// Whether the accounting is accepted.
    pub open spec fn valid(self) -> bool {
        self.error() is None
    }

    /// Peak resident bytes of the whole model, when measured.
    pub open spec fn peak_bytes(self) -> Option<u64> {
        match self.resident.peak() {
            Some(peak) => Some(peak as u64),
            None => None,
        }
    }
}

/// Checked exact logical, serialized, and resident accounting for one package.
///
/// A report is inseparably bound to the [`MeasuredPackage`] used at its
/// construction boundary. Every serialized component is checked and must sum
/// to that measured artifact's actual byte count.
#[derive(Clone, Copy, Debug, PartialEq, Eq, Hash)]
pub struct PhysicalSizeReport {
    package: MeasuredPackage,
    core_parameter_count: u64,
    model_parameter_count: u64,
    logical_core_trits: LogicalTritCount,
    serialized: SerializedSizeComponents,
    resident: ResidentSizeComponents,
    serialized_core_bytes: u64,
    steady_resident_bytes: u64,
    peak_resident_bytes: Option<u64>,
    resident_core_bytes: u64,
}

impl View for PhysicalSizeReport {
    type V = ReportView;

    closed spec fn view(&self) -> ReportView {
        ReportView {
            package: self.package,
            core_parameter_count: self.core_parameter_count,
            model_parameter_count: self.model_parameter_count,
            logical_core_trits: self.logical_core_trits,
            serialized: self.serialized,
            resident: self.resident,
        }
    }
}

impl PhysicalSizeReport {
    /// The accounting is accepted, and the kept totals are its totals.
    pub closed spec fn wf(&self) -> bool {
        &&& self@.valid()
        &&& self.serialized_core_bytes as nat == self.serialized.core_sum()
        &&& self.resident_core_bytes as nat == self.resident.core_sum()
        &&& self.steady_resident_bytes as nat == self.resident.steady()
        &&& self.peak_resident_bytes == self@.peak_bytes()
    }

    /// A well-formed report accounts validly.
    pub proof fn wf_valid(&self)
        requires
            self.wf(),
        ensures
            self@.valid(),
            self@.core_parameter_count > 0,
            self@.model_parameter_count > 0,
    {
    }

    /// Build and validate exact physical accounting against measured bytes.
    ///
    /// `model_parameter_count` is the denominator for whole-model rates and
    /// must include the `core_parameter_count` denominator used by core rates.
    pub fn new(
        package: MeasuredPackage,
        core_parameter_count: u64,
        model_parameter_count: u64,
        logical_core_trits: LogicalTritCount,
        serialized: SerializedSizeComponents,
        resident: ResidentSizeComponents,
    ) -> (report: Result<Self, CampaignError>)
        ensures
            ({
                let view = ReportView {
                    package,
                    core_parameter_count,
                    model_parameter_count,
                    logical_core_trits,
                    serialized,
                    resident,
                };
                match view.error() {
                    Some(error) => report == Err::<Self, CampaignError>(error),
                    None => report matches Ok(made) && made.wf() && made@ == view,
                }
            }),
    {
        validate_nonzero("core_parameter_count", core_parameter_count)?;
        validate_nonzero("model_parameter_count", model_parameter_count)?;
        if core_parameter_count > model_parameter_count {
            return Err(
                CampaignError::InvalidPhysicalSize(
                    "core_parameter_count exceeds model_parameter_count",
                ),
            );
        }
        validate_map_accounting(
            "serialized allocation map",
            serialized.allocation_map_bytes,
            serialized.allocation_map_bits,
            serialized.allocation_map_embedded_bits,
        )?;
        validate_map_accounting(
            "resident allocation map",
            resident.map_bytes,
            resident.map_bits,
            resident.map_embedded_bits,
        )?;
        let serialized_core_bytes: u64 = serialized.core_total_bytes()?;
        validate_nonzero("serialized_core_bytes", serialized_core_bytes)?;
        let serialized_total: u64 = serialized.total_bytes()?;
        if serialized_total != package.physical_bytes() {
            return Err(
                CampaignError::PhysicalPackageSizeMismatch {
                    measured_bytes: package.physical_bytes(),
                    component_bytes: serialized_total,
                },
            );
        }
        let resident_core_bytes: u64 = resident.core_total_bytes()?;
        validate_nonzero("resident_core_bytes", resident_core_bytes)?;
        let steady_resident_bytes: u64 = resident.steady_total_bytes()?;
        let peak_resident_bytes: Option<u64> = resident.peak_total_bytes(steady_resident_bytes)?;
        Ok(
            PhysicalSizeReport {
                package,
                core_parameter_count,
                model_parameter_count,
                logical_core_trits,
                serialized,
                resident,
                serialized_core_bytes,
                steady_resident_bytes,
                peak_resident_bytes,
                resident_core_bytes,
            },
        )
    }

    /// Exact package identity and measured byte count bound to this report.
    pub fn package(self) -> (package: MeasuredPackage)
        ensures
            package == self@.package,
    {
        self.package
    }

    /// Number of core parameters used for logical/core physical rates.
    pub fn core_parameter_count(self) -> (count: u64)
        ensures
            count == self@.core_parameter_count,
    {
        self.core_parameter_count
    }

    /// Total model parameter count used for whole-model rates.
    pub fn model_parameter_count(self) -> (count: u64)
        ensures
            count == self@.model_parameter_count,
    {
        self.model_parameter_count
    }

    /// Exact aggregate logical ternary symbols assigned by the allocator.
    pub fn logical_core_trits(self) -> (trits: LogicalTritCount)
        ensures
            trits == self@.logical_core_trits,
    {
        self.logical_core_trits
    }

    /// Exact serialized component counters.
    pub fn serialized(self) -> (components: SerializedSizeComponents)
        ensures
            components == self@.serialized,
    {
        self.serialized
    }

    /// Exact resident component counters.
    pub fn resident(self) -> (components: ResidentSizeComponents)
        ensures
            components == self@.resident,
    {
        self.resident
    }

    /// Exact serialized core bytes, including maps, headers, transforms, and alignment.
    pub fn serialized_core_bytes(self) -> (bytes: u64)
        requires
            self.wf(),
        ensures
            bytes as nat == self@.serialized.core_sum(),
    {
        self.serialized_core_bytes
    }

    /// Exact steady-state resident core bytes, including maps, descriptors, and shadows.
    pub fn resident_core_bytes(self) -> (bytes: u64)
        requires
            self.wf(),
        ensures
            bytes as nat == self@.resident.core_sum(),
    {
        self.resident_core_bytes
    }

    /// Exact whole-model steady-state resident bytes.
    pub fn steady_resident_bytes(self) -> (bytes: u64)
        requires
            self.wf(),
        ensures
            bytes as nat == self@.resident.steady(),
    {
        self.steady_resident_bytes
    }

    /// Exact whole-model peak resident bytes.
    pub fn peak_resident_bytes(self) -> (bytes: Option<u64>)
        requires
            self.wf(),
        ensures
            bytes == self@.peak_bytes(),
    {
        self.peak_resident_bytes
    }

    /// Exact rational logical-trit rate over core parameters.
    pub fn logical_core_rate(self) -> (rate: LogicalTritRate)
        ensures
            rate.numerator() == self@.logical_core_trits.count(),
            rate.denominator() == self@.core_parameter_count,
    {
        LogicalTritRate { trits: self.logical_core_trits, weights: self.core_parameter_count }
    }

    /// Exact serialized core rate over core parameters.
    pub fn serialized_core_millibpw(self) -> (rate: ExactMillibpw)
        requires
            self.wf(),
        ensures
            rate.millibits() == 8000 * self@.serialized.core_sum(),
            rate.weights() == self@.core_parameter_count,
    {
        ExactMillibpw::from_bytes(self.serialized_core_bytes, self.core_parameter_count)
    }

    /// Exact steady resident core rate over core parameters.
    pub fn resident_core_millibpw(self) -> (rate: ExactMillibpw)
        requires
            self.wf(),
        ensures
            rate.millibits() == 8000 * self@.resident.core_sum(),
            rate.weights() == self@.core_parameter_count,
    {
        ExactMillibpw::from_bytes(self.resident_core_bytes, self.core_parameter_count)
    }

    /// Exact complete artifact-file rate over all model parameters.
    pub fn whole_model_serialized_millibpw(self) -> (rate: ExactMillibpw)
        ensures
            rate.millibits() == 8000 * self@.package.length() as nat,
            rate.weights() == self@.model_parameter_count,
    {
        ExactMillibpw::from_bytes(self.package.physical_bytes(), self.model_parameter_count)
    }

    /// Exact whole-model steady resident rate.
    pub fn whole_model_steady_resident_millibpw(self) -> (rate: ExactMillibpw)
        requires
            self.wf(),
        ensures
            rate.millibits() == 8000 * self@.resident.steady(),
            rate.weights() == self@.model_parameter_count,
    {
        ExactMillibpw::from_bytes(self.steady_resident_bytes, self.model_parameter_count)
    }

    /// Exact whole-model peak resident rate.
    pub fn whole_model_peak_resident_millibpw(self) -> (rate: Option<ExactMillibpw>)
        requires
            self.wf(),
        ensures
            match self@.peak_bytes() {
                Some(bytes) => rate matches Some(made) && made.millibits() == 8000 * bytes as nat
                    && made.weights() == self@.model_parameter_count,
                None => rate is None,
            },
    {
        match self.peak_resident_bytes {
            Some(bytes) => Some(ExactMillibpw::from_bytes(bytes, self.model_parameter_count)),
            None => None,
        }
    }
}

/// A resident runtime's allocation ledger for one tensor or package.
#[derive(Clone, Copy, Debug, PartialEq, Eq, Hash, Structural)]
pub struct RuntimeLedger {
    /// Ternary payload bytes.
    pub payload_bytes: u64,
    /// Scale bytes.
    pub scale_bytes: u64,
    /// Allocation-map bytes.
    pub allocation_map_bytes: u64,
    /// Rank-prefix bytes.
    pub rank_prefix_bytes: u64,
    /// Logical allocation-map bits.
    pub allocation_map_bits: u64,
    /// Map bits carried in a launch scalar.
    pub allocation_map_embedded_bits: u64,
    /// Dense shadow bytes.
    pub dense_shadow_bytes: u64,
    /// Tiles with an allocation.
    pub allocation_tiles: u64,
    /// Present planes.
    pub present_planes: u64,
    /// Steady resident bytes.
    pub steady_resident_bytes: u64,
}

/// The components of a runtime ledger in canonical order.
pub open spec fn ledger_components(ledger: RuntimeLedger) -> Seq<(&'static str, u64)> {
    seq![
        ("payload bytes", ledger.payload_bytes),
        ("scale bytes", ledger.scale_bytes),
        ("allocation-map bytes", ledger.allocation_map_bytes),
        ("rank-prefix bytes", ledger.rank_prefix_bytes),
        ("allocation-map bits", ledger.allocation_map_bits),
        ("allocation-map embedded bits", ledger.allocation_map_embedded_bits),
        ("dense shadow bytes", ledger.dense_shadow_bytes),
        ("allocation tiles", ledger.allocation_tiles),
        ("present planes", ledger.present_planes),
        ("steady resident bytes", ledger.steady_resident_bytes),
    ]
}

/// The first component from `from` on that differs, with both values.
pub open spec fn first_difference(
    expected: Seq<(&'static str, u64)>,
    supplied: Seq<(&'static str, u64)>,
    from: nat,
) -> Option<(&'static str, u64, u64)>
    decreases expected.len() - from,
{
    if from >= expected.len() {
        None
    } else if expected[from as int].1 != supplied[from as int].1 {
        Some((expected[from as int].0, expected[from as int].1, supplied[from as int].1))
    } else {
        first_difference(expected, supplied, from + 1)
    }
}

/// The first component of two runtime ledgers that differs, with both values.
pub fn runtime_ledger_mismatch(expected: RuntimeLedger, supplied: RuntimeLedger) -> (mismatch:
    Option<(&'static str, u64, u64)>)
    ensures
        mismatch == first_difference(ledger_components(expected), ledger_components(supplied), 0),
        mismatch is None <==> expected == supplied,
{
    proof {
        reveal_with_fuel(first_difference, 11);
    }
    if expected.payload_bytes != supplied.payload_bytes {
        return Some(("payload bytes", expected.payload_bytes, supplied.payload_bytes));
    }
    if expected.scale_bytes != supplied.scale_bytes {
        return Some(("scale bytes", expected.scale_bytes, supplied.scale_bytes));
    }
    if expected.allocation_map_bytes != supplied.allocation_map_bytes {
        return Some(
            (
                "allocation-map bytes",
                expected.allocation_map_bytes,
                supplied.allocation_map_bytes,
            ),
        );
    }
    if expected.rank_prefix_bytes != supplied.rank_prefix_bytes {
        return Some(
            ("rank-prefix bytes", expected.rank_prefix_bytes, supplied.rank_prefix_bytes),
        );
    }
    if expected.allocation_map_bits != supplied.allocation_map_bits {
        return Some(
            ("allocation-map bits", expected.allocation_map_bits, supplied.allocation_map_bits),
        );
    }
    if expected.allocation_map_embedded_bits != supplied.allocation_map_embedded_bits {
        return Some(
            (
                "allocation-map embedded bits",
                expected.allocation_map_embedded_bits,
                supplied.allocation_map_embedded_bits,
            ),
        );
    }
    if expected.dense_shadow_bytes != supplied.dense_shadow_bytes {
        return Some(
            ("dense shadow bytes", expected.dense_shadow_bytes, supplied.dense_shadow_bytes),
        );
    }
    if expected.allocation_tiles != supplied.allocation_tiles {
        return Some(("allocation tiles", expected.allocation_tiles, supplied.allocation_tiles));
    }
    if expected.present_planes != supplied.present_planes {
        return Some(("present planes", expected.present_planes, supplied.present_planes));
    }
    if expected.steady_resident_bytes != supplied.steady_resident_bytes {
        return Some(
            (
                "steady resident bytes",
                expected.steady_resident_bytes,
                supplied.steady_resident_bytes,
            ),
        );
    }
    None
}

} // verus!
