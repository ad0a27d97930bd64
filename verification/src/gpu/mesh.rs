//! Region meshes on the device, one buffer per region holding its four sections.
use crate::gpu::bytes::power_of_two;
use crate::gpu::layout::{RegionKey, Sections};
use vstd::arithmetic::power2::{lemma_pow2_strictly_increases, lemma_pow2_unfold, pow2};
use vstd::prelude::*;

verus! {

/// What is known of a region's buffer on the device.
#[derive(Clone, Copy, Debug, PartialEq, Eq, Structural)]
pub struct GpuRegion {
    pub key: RegionKey,
    pub sections: Sections,
    pub quad_count: u64,
    pub vertex_count: u64,
    pub triangle_count: u64,
    /// The buffer's device address.
    pub address: u64,
}

/// The least power of two at or above `x`.
pub open spec fn is_next_power(r: int, x: int) -> bool {
    power_of_two(r) && x <= r && forall|n: nat| #[trigger] pow2(n) >= x ==> r <= pow2(n)
}

/// The least power of two at or above `x`.
pub fn next_power(x: u64) -> (r: u64)
    requires
        x <= 0x8000_0000_0000_0000,
    ensures
        is_next_power(r as int, x as int),
{
    let mut r: u64 = 1;
    let ghost mut k: nat = 0;
    proof {
        vstd::arithmetic::power2::lemma2_to64();
    }
    while r < x
        invariant
            x <= 0x8000_0000_0000_0000,
            r == pow2(k),
            k > 0 ==> pow2((k - 1) as nat) < x,
            r >= 1,
        decreases 2 * x - r,
    {
        proof {
            lemma_pow2_unfold(k + 1);
            k = k + 1;
        }
        r = r * 2;
    }
    proof {
        assert(power_of_two(r as int)) by {
            assert(r == pow2(k));
        }
        assert forall|n: nat| #[trigger] pow2(n) >= x implies r <= pow2(n) by {
            if n < k {
                if n < k - 1 {
                    lemma_pow2_strictly_increases(n, (k - 1) as nat);
                }
            } else if n > k {
                lemma_pow2_strictly_increases(k, n);
            }
        }
    }
    r
}

/// Section alignment for a device: at least 16 and the storage-buffer offset alignment, as a power
/// of two.
pub fn section_align(min_storage_buffer_offset_alignment: u64) -> (r: u64)
    requires
        min_storage_buffer_offset_alignment <= 0x8000_0000_0000_0000,
    ensures
        is_next_power(
            r as int,
            if min_storage_buffer_offset_alignment > 16 {
                min_storage_buffer_offset_alignment as int
            } else {
                16
            },
        ),
        r >= 16,
{
    next_power(
        if min_storage_buffer_offset_alignment > 16 {
            min_storage_buffer_offset_alignment
        } else {
            16
        },
    )
}

} // verus!
