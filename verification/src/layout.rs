//! Where things stand in the region: two counters, then the slots.

use vstd::prelude::*;
use crate::codec::RECORD_SIZE;

verus! {

/// Width of one counter.
pub const COUNTER_SIZE: usize = 8;

/// Position of the `head` counter.
pub const HEAD_OFFSET: usize = 0;

/// Position of the `tail` counter.
pub const TAIL_OFFSET: usize = 8;

/// Number of bytes before the first slot: the two counters.
pub const HEADER_SIZE: usize = 16;

/// Why a region cannot be laid out.
#[derive(Clone, Copy, Debug, PartialEq, Eq, Structural)]
pub enum LayoutError {
    /// A ring without slots cannot hold anything.
    ZeroCapacity,
    /// Records without bytes cannot hold anything.
    ZeroRecordSize,
    /// The region's size does not fit in `usize`.
    TooLarge,
}

/// Number of bytes of a region with `capacity` slots of `record_size` bytes.
pub open spec fn region_size(capacity: nat, record_size: nat) -> nat {
    HEADER_SIZE as nat + capacity * record_size
}

/// Position of the slot with number `slot`.
pub open spec fn slot_start(slot: nat) -> nat {
    HEADER_SIZE as nat + slot * RECORD_SIZE as nat
}

/// What `compute_size` answers: the size where both arguments are positive
/// and the size fits in `usize`, else the first reason that applies.
pub open spec fn size_outcome(capacity: usize, record_size: usize) -> Result<usize, LayoutError> {
    if capacity == 0 {
        Err(LayoutError::ZeroCapacity)
    } else if record_size == 0 {
        Err(LayoutError::ZeroRecordSize)
    } else if region_size(capacity as nat, record_size as nat) > usize::MAX {
        Err(LayoutError::TooLarge)
    } else {
        Ok(region_size(capacity as nat, record_size as nat) as usize)
    }
}

/// The size in bytes of a region with `capacity` slots of `record_size`
/// bytes each: the two counters plus the slots.
pub fn compute_size(capacity: usize, record_size: usize) -> (size: Result<usize, LayoutError>)
    ensures
        size == size_outcome(capacity, record_size),
{
    if capacity == 0 {
        return Err(LayoutError::ZeroCapacity);
    }
    if record_size == 0 {
        return Err(LayoutError::ZeroRecordSize);
    }
    match capacity.checked_mul(record_size) {
        None => Err(LayoutError::TooLarge),
        Some(slots) => match slots.checked_add(HEADER_SIZE) {
            None => Err(LayoutError::TooLarge),
            Some(total) => Ok(total),
        },
    }
}

/// The slot that holds the record with logical index `index` in a ring of
/// `capacity` slots, and the position of that slot in the region.
pub fn locate(index: u64, capacity: usize) -> (place: (usize, usize))
    requires
        capacity > 0,
        region_size(capacity as nat, RECORD_SIZE as nat) <= usize::MAX,
    ensures
        place.0 == index as nat % capacity as nat,
        place.1 == slot_start(place.0 as nat),
        place.1 + RECORD_SIZE <= region_size(capacity as nat, RECORD_SIZE as nat),
{
    let slot: usize = (index % capacity as u64) as usize;
    (slot, HEADER_SIZE + slot * RECORD_SIZE)
}

} // verus!
