//! Geometry of the shared-memory region between the worker and the parent, and
//! the ownership of its slots.

use vstd::prelude::*;

use crate::error::MediaError;
use crate::text;

verus! {

/// Geometry of a shared region, sent to the worker in the request.
#[derive(Debug)]
pub struct ShmSpec {
    /// Path of the backing file.
    pub path: String,
    /// Bytes per slot.
    pub slot_size: usize,
    /// Number of slots.
    pub slots: u32,
}

impl ShmSpec {
    /// The region can be addressed.
    pub open spec fn wf(self) -> bool {
        self.slot_size > 0 && self.slots > 0 && self.slot_size * self.slots <= usize::MAX
    }

    /// Geometry of a region: neither a slot nor the region may be empty, and its size must fit.
    pub fn create(path: String, slot_size: usize, slots: u32) -> (r: Result<ShmSpec, MediaError>)
        ensures
            match r {
                Ok(s) => s.wf() && s.path == path && s.slot_size == slot_size && s.slots == slots,
                Err(MediaError::Invalid(m)) => m@ == (if slot_size == 0 || slots == 0 {
                    "shm slot_size and slots must be > 0"@
                } else {
                    "shm region too large"@
                }),
                Err(_) => false,
            },
            r is Ok <==> slot_size > 0 && slots > 0 && slot_size * slots <= usize::MAX,
    {
        if slot_size == 0 || slots == 0 {
            return Err(MediaError::Invalid("shm slot_size and slots must be > 0".to_owned()));
        }
        if slot_size.checked_mul(slots as usize).is_none() {
            return Err(MediaError::Invalid("shm region too large".to_owned()));
        }
        Ok(ShmSpec { path, slot_size, slots })
    }

    /// Total bytes.
    pub fn total_len(&self) -> (n: usize)
        requires
            self.slot_size * self.slots <= usize::MAX,
        ensures
            n == self.slot_size * self.slots,
    {
        self.slot_size * self.slots as usize
    }

    /// Where the first `len` bytes of a slot lie in a mapping of `map_len` bytes, cut to the slot
    /// and to the mapping.
    pub fn slot_range(&self, slot: u32, len: usize, map_len: usize) -> (r: (usize, usize))
        requires
            self.wf(),
            slot < self.slots,
        ensures
            r.1 == clipped(
                slot * self.slot_size + (if len < self.slot_size {
                    len
                } else {
                    self.slot_size
                }),
                map_len as int,
            ),
            r.0 == clipped(slot * self.slot_size, r.1 as int),
            r.0 <= r.1 <= map_len,
    {
        proof {
            lemma_slot_fits(self.slot_size as int, self.slots as int, slot as int);
        }
        let start: usize = slot as usize * self.slot_size;
        let used: usize = if len < self.slot_size {
            len
        } else {
            self.slot_size
        };
        let end: usize = if start + used < map_len {
            start + used
        } else {
            map_len
        };
        let from: usize = if start < end {
            start
        } else {
            end
        };
        (from, end)
    }

    /// The bytes that the worker writes of a slot.
    pub fn slot_bounds(&self, slot: u32) -> (r: (usize, usize))
        requires
            self.wf(),
            slot < self.slots,
        ensures
            r.0 == slot * self.slot_size,
            r.1 == slot * self.slot_size + self.slot_size,
            r.1 <= self.slot_size * self.slots,
    {
        proof {
            lemma_slot_fits(self.slot_size as int, self.slots as int, slot as int);
        }
        let start: usize = slot as usize * self.slot_size;
        (start, start + self.slot_size)
    }
}

/// The smaller of a position and a limit.
pub open spec fn clipped(x: int, limit: int) -> int {
    if x < limit {
        x
    } else {
        limit
    }
}

proof fn lemma_slot_fits(size: int, slots: int, slot: int)
    requires
        0 < size,
        0 <= slot < slots,
    ensures
        0 <= slot * size,
        slot * size + size <= size * slots,
{
    assert(slot * size + size <= size * slots && 0 <= slot * size) by (nonlinear_arith)
        requires
            0 < size,
            0 <= slot < slots,
    ;
}

/// Whether an opened backing file is long enough for the region.
pub fn check_file_len(spec: &ShmSpec, len: u64) -> (r: Result<(), MediaError>)
    requires
        spec.wf(),
    ensures
        r is Ok <==> len >= spec.slot_size * spec.slots,
        match r {
            Ok(_) => true,
            Err(MediaError::Protocol(m)) => m@ == "shm file "@ + spec.path@ + " is "@
                + text::decimal(len as nat) + " bytes, expected "@ + text::decimal(
                (spec.slot_size * spec.slots) as nat,
            ),
            Err(_) => false,
        },
{
    let total: usize = spec.total_len();
    if (len as u128) < total as u128 {
        let mut m = "shm file ".to_owned();
        m.append(spec.path.as_str());
        m.append(" is ");
        let have = text::decimal_string(len);
        m.append(have.as_str());
        m.append(" bytes, expected ");
        let want = text::decimal_string(total as u64);
        m.append(want.as_str());
        Err(MediaError::Protocol(m))
    } else {
        Ok(())
    }
}

/// Different slots of a region share no byte, and every slot lies inside it.
pub proof fn law_slots_are_disjoint(spec: ShmSpec, a: u32, b: u32)
    requires
        spec.wf(),
        a < b < spec.slots,
    ensures
        a * spec.slot_size + spec.slot_size <= b * spec.slot_size,
        b * spec.slot_size + spec.slot_size <= spec.slot_size * spec.slots,
{
    lemma_slot_fits(spec.slot_size as int, spec.slots as int, b as int);
    assert(a * spec.slot_size + spec.slot_size <= b * spec.slot_size) by (nonlinear_arith)
        requires
            a < b,
            0 <= spec.slot_size,
    ;
}

} // verus!
