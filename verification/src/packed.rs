//! Two-bit packed plane counts.

use crate::physical::{PhysicalAllocError, SaltV2Profile};
use crate::plane_model::{count_fn, plane_sum};
use vstd::prelude::*;

verus! {

/// Two-bit code of one group.
pub open spec fn packed_code(bytes: Seq<u8>, index: int) -> u8 {
    (bytes[index / 4] >> (((index % 4) * 2) as u8)) & 3u8
}

/// Canonical two-bit plane counts (`00 => 1`, `01 => 2`, `10 => 3`).
#[derive(Clone, Debug, PartialEq, Eq)]
pub struct PackedPlaneCounts {
    bytes: Vec<u8>,
    len: u64,
}

impl View for PackedPlaneCounts {
    type V = Seq<u8>;

    /// The represented plane counts.
    closed spec fn view(&self) -> Seq<u8> {
        Seq::new(self.len as nat, |i: int| (packed_code(self.bytes@, i) + 1) as u8)
    }
}

proof fn lemma_code_update(byte: u8, code: u8, shift: u8, other: u8)
    requires
        shift == 0 || shift == 2 || shift == 4 || shift == 6,
        other == 0 || other == 2 || other == 4 || other == 6,
        code <= 3,
    ensures
        ((((byte & !(3u8 << shift)) | (code << shift)) >> other) & 3u8) == if other == shift {
            code
        } else {
            (byte >> other) & 3u8
        },
{
    assert(((((byte & !(3u8 << shift)) | (code << shift)) >> other) & 3u8) == if other == shift {
        code
    } else {
        (byte >> other) & 3u8
    }) by (bit_vector)
        requires
            shift == 0 || shift == 2 || shift == 4 || shift == 6,
            other == 0 || other == 2 || other == 4 || other == 6,
            code <= 3,
    ;
}

/// The byte that repeats one code in its first `used` slots.
fn repeated_code(code: u8, used: u8) -> (byte: u8)
    requires
        code <= 2,
        1 <= used <= 4,
    ensures
        forall|slot: int|
            0 <= slot < 4 ==> (byte >> (#[trigger] (slot * 2) as u8)) & 3u8 == (if slot < used {
                code
            } else {
                0u8
            }),
{
    let byte: u8 = if used == 1 {
        code
    } else if used == 2 {
        code | (code << 2)
    } else if used == 3 {
        code | (code << 2) | (code << 4)
    } else {
        code | (code << 2) | (code << 4) | (code << 6)
    };
    proof {
        let c = code;
        if used == 1 {
            assert(c & 3 == c && (c >> 2) & 3 == 0 && (c >> 4) & 3 == 0 && (c >> 6) & 3 == 0
                && (c >> 0) & 3 == c) by (bit_vector)
                requires
                    c <= 2,
            ;
        } else if used == 2 {
            let b = c | (c << 2);
            assert((b >> 0) & 3 == c && (b >> 2) & 3 == c && (b >> 4) & 3 == 0 && (b >> 6) & 3
                == 0) by (bit_vector)
                requires
                    c <= 2,
                    b == c | (c << 2),
            ;
        } else if used == 3 {
            let b = c | (c << 2) | (c << 4);
            assert((b >> 0) & 3 == c && (b >> 2) & 3 == c && (b >> 4) & 3 == c && (b >> 6) & 3
                == 0) by (bit_vector)
                requires
                    c <= 2,
                    b == c | (c << 2) | (c << 4),
            ;
        } else {
            let b = c | (c << 2) | (c << 4) | (c << 6);
            assert((b >> 0) & 3 == c && (b >> 2) & 3 == c && (b >> 4) & 3 == c && (b >> 6) & 3
                == c) by (bit_vector)
                requires
                    c <= 2,
                    b == c | (c << 2) | (c << 4) | (c << 6),
            ;
        }
        assert forall|slot: int| 0 <= slot < 4 implies (byte >> (#[trigger] (slot * 2) as u8)) & 3u8
            == (if slot < used {
            code
        } else {
            0u8
        }) by {
            assert(slot == 0 || slot == 1 || slot == 2 || slot == 3);
        }
    }
    byte
}

impl PackedPlaneCounts {
    /// One code per group, one to three planes, and zero padding.
    pub closed spec fn wf(&self) -> bool {
        &&& self.bytes@.len() == (self.len + 3) / 4
        &&& forall|i: int|
            0 <= i < 4 * self.bytes@.len() ==> #[trigger] packed_code(self.bytes@, i) <= if i
                < self.len {
                2u8
            } else {
                0u8
            }
    }

    /// Packed payload.
    pub closed spec fn payload(&self) -> Seq<u8> {
        self.bytes@
    }

    /// Every count is one, two or three, the payload holds four codes per byte,
    /// and padding is zero.
    pub proof fn payload_is_canonical(&self)
        requires
            self.wf(),
        ensures
            self.payload().len() == (self@.len() + 3) / 4,
            forall|i: int| 0 <= i < self@.len() ==> 1 <= #[trigger] self@[i] <= 3,
            forall|i: int|
                0 <= i < self@.len() ==> packed_code(self.payload(), i) + 1 == #[trigger] self@[i],
            forall|i: int|
                self@.len() <= i < 4 * self.payload().len() ==> #[trigger] packed_code(
                    self.payload(),
                    i,
                ) == 0,
    {
        assert forall|i: int| 0 <= i < self@.len() implies 1 <= #[trigger] self@[i] <= 3
            && packed_code(self.payload(), i) + 1 == self@[i] by {
            assert(packed_code(self.bytes@, i) <= 2);
        }
        assert forall|i: int|
            0 <= i < self@.len() implies packed_code(self.payload(), i) + 1 == #[trigger] self@[i] by {
            assert(packed_code(self.bytes@, i) <= 2);
        }
    }

    /// Allocate one repeated valid count without a byte-per-tile vector.
    ///
    /// `WorkingMemoryUnavailable` is returned when the payload length leaves the
    /// address width or the memory allocator refuses it.
    pub fn filled(len: u64, count: u8, profile: SaltV2Profile) -> (result: Result<
        Self,
        PhysicalAllocError,
    >)
        ensures
            match result {
                Ok(packed) => packed.wf() && packed@ == Seq::new(len as nat, |i: int| count) && len
                    > 0 && 1 <= count <= 3 && len + 3 <= u64::MAX,
                Err(PhysicalAllocError::WorkingMemoryUnavailable { profile: p }) => p == profile
                    && len > 0 && 1 <= count <= 3 && len + 3 <= u64::MAX,
                Err(error) => error == (if len == 0 {
                    PhysicalAllocError::EmptyGroups
                } else if !(1 <= count <= 3) {
                    PhysicalAllocError::PlaneOrdinal { group: 0, expected: 1, actual: count }
                } else {
                    PhysicalAllocError::AccountingOverflow { profile }
                }) && (len == 0 || !(1 <= count <= 3) || len + 3 > u64::MAX),
            },
    {
        let wanted: u64 = len / 4 + 1;
        let mut bytes: Vec<u8> = Vec::new();
        let room: Option<Vec<u8>> = if wanted <= usize::MAX as u64 && bytes.try_reserve(
            wanted as usize,
        ).is_ok() {
            Some(bytes)
        } else {
            None
        };
        Self::filled_in(len, count, profile, room)
    }

    /// Fills a vector with one repeated valid count; `None` where memory for it was refused.
    pub fn filled_in(
        len: u64,
        count: u8,
        profile: SaltV2Profile,
        room: Option<Vec<u8>>,
    ) -> (result: Result<Self, PhysicalAllocError>)
        requires
            room matches Some(empty) ==> empty@.len() == 0,
        ensures
            if len == 0 {
                result == Err::<Self, PhysicalAllocError>(PhysicalAllocError::EmptyGroups)
            } else if !(1 <= count <= 3) {
                result == Err::<Self, PhysicalAllocError>(
                    PhysicalAllocError::PlaneOrdinal { group: 0, expected: 1, actual: count },
                )
            } else if len + 3 > u64::MAX {
                result == Err::<Self, PhysicalAllocError>(
                    PhysicalAllocError::AccountingOverflow { profile },
                )
            } else if (len + 3) / 4 > usize::MAX || room is None {
                result == Err::<Self, PhysicalAllocError>(
                    PhysicalAllocError::WorkingMemoryUnavailable { profile },
                )
            } else {
                result matches Ok(packed) && packed.wf() && packed@ == Seq::new(
                    len as nat,
                    |i: int| count,
                )
            },
    {
        if len == 0 {
            return Err(PhysicalAllocError::EmptyGroups);
        }
        if count < 1 || count > 3 {
            return Err(
                PhysicalAllocError::PlaneOrdinal { group: 0, expected: 1, actual: count },
            );
        }
        let padded: u64 = match len.checked_add(3) {
            None => {
                return Err(PhysicalAllocError::AccountingOverflow { profile });
            },
            Some(padded) => padded,
        };
        let wanted: u64 = padded / 4;
        if wanted > usize::MAX as u64 {
            return Err(PhysicalAllocError::WorkingMemoryUnavailable { profile });
        }
        let total: usize = wanted as usize;
        let mut bytes: Vec<u8> = match room {
            None => {
                return Err(PhysicalAllocError::WorkingMemoryUnavailable { profile });
            },
            Some(empty) => empty,
        };
        let code: u8 = count - 1;
        let full: u8 = repeated_code(code, 4);
        let used: u8 = ((len - 1) % 4 + 1) as u8;
        let last: u8 = repeated_code(code, used);
        let mut index: usize = 0;
        while index < total
            invariant
                index <= total,
                bytes@.len() == index,
                forall|b: int| 0 <= b < index && b < total - 1 ==> #[trigger] bytes@[b] == full,
                index == total && total > 0 ==> bytes@[total - 1] == last,
            decreases total - index,
        {
            bytes.push(
                if index == total - 1 {
                    last
                } else {
                    full
                },
            );
            index = index + 1;
        }
        let packed = PackedPlaneCounts { bytes, len };
        proof {
            assert forall|i: int| 0 <= i < 4 * total implies #[trigger] packed_code(bytes@, i)
                == (if i < len {
                code
            } else {
                0u8
            }) by {
                let slot = i % 4;
                assert(0 <= slot < 4);
                let shift = (slot * 2) as u8;
                if i / 4 < total - 1 {
                    assert(bytes@[i / 4] == full);
                } else {
                    assert(i / 4 == total - 1);
                }
            }
            assert(packed@ =~= Seq::new(len as nat, |i: int| count));
        }
        Ok(packed)
    }

    /// Number of represented allocation groups.
    pub fn len(&self) -> (len: u64)
        ensures
            len == self@.len(),
    {
        self.len
    }

    /// Whether no groups are represented.
    pub fn is_empty(&self) -> (empty: bool)
        ensures
            empty == (self@.len() == 0),
    {
        self.len == 0
    }

    /// Packed canonical map payload.
    pub fn as_bytes(&self) -> (bytes: &[u8])
        ensures
            bytes@ == self.payload(),
    {
        &self.bytes
    }

    /// Selected count at one global group ordinal.
    pub fn get(&self, index: u64) -> (count: Option<u8>)
        requires
            self.wf(),
        ensures
            count == (if index < self@.len() {
                Some(self@[index as int])
            } else {
                None
            }),
    {
        if index >= self.len {
            return None;
        }
        let byte: usize = (index / 4) as usize;
        let shift: u8 = ((index % 4) * 2) as u8;
        assert(byte == index / 4) by {
            assert(index / 4 < self.bytes.len());
        }
        assert(packed_code(self.bytes@, index as int) <= 2);
        Some(((self.bytes[byte] >> shift) & 3) + 1)
    }

    /// Replace one count.
    pub fn set(&mut self, index: u64, count: u8)
        requires
            old(self).wf(),
            index < old(self)@.len(),
            1 <= count <= 3,
        ensures
            final(self).wf(),
            final(self)@ == old(self)@.update(index as int, count),
    {
        assert(index / 4 < self.bytes.len());
        let byte: usize = (index / 4) as usize;
        let shift: u8 = ((index % 4) * 2) as u8;
        let code: u8 = count - 1;
        let ghost before = self.bytes@;
        let previous: u8 = self.bytes[byte];
        let updated: u8 = (previous & !(3u8 << shift)) | (code << shift);
        self.bytes.set(byte, updated);
        proof {
            assert forall|i: int| 0 <= i < 4 * before.len() implies #[trigger] packed_code(
                self.bytes@,
                i,
            ) == (if i == index {
                code
            } else {
                packed_code(before, i)
            }) by {
                let other = ((i % 4) * 2) as u8;
                if i / 4 == byte {
                    lemma_code_update(previous, code, shift, other);
                }
            }
            assert forall|i: int|
                0 <= i < 4 * self.bytes@.len() implies #[trigger] packed_code(self.bytes@, i)
                <= if i < self.len {
                2u8
            } else {
                0u8
            } by {
                assert(packed_code(before, i) <= if i < self.len {
                    2u8
                } else {
                    0u8
                });
            }
            assert(self@ =~= old(self)@.update(index as int, count));
        }
    }

    /// Copy a packed map.
    pub fn copy(&self) -> (copy: Self)
        requires
            self.wf(),
        ensures
            copy.wf(),
            copy@ == self@,
            copy.payload() == self.payload(),
    {
        let bytes: Vec<u8> = self.bytes.clone();
        assert(bytes@ =~= self.bytes@);
        PackedPlaneCounts { bytes, len: self.len }
    }

    /// Sum all represented plane counts without unpacking the map.
    pub fn present_planes(&self) -> (total: u64)
        requires
            self.wf(),
            3 * self@.len() <= u64::MAX,
        ensures
            total == plane_sum(count_fn(), self@, self@.len() as int),
    {
        let mut total: u64 = 0;
        let mut index: u64 = 0;
        while index < self.len
            invariant
                self.wf(),
                index <= self.len,
                self@.len() == self.len,
                3 * self@.len() <= u64::MAX,
                total <= 3 * index,
                total == plane_sum(count_fn(), self@, index as int),
            decreases self.len - index,
        {
            let count: u8 = self.get(index).unwrap();
            proof {
                self.payload_is_canonical();
                assert(1 <= self@[index as int] <= 3);
            }
            total = total + count as u64;
            index = index + 1;
        }
        total
    }
}

} // verus!
