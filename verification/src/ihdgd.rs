//! The Intel HD Graphics driver's buffers and capabilities: surfaces are
//! carved out of the graphics memory by a range allocator.

use vstd::prelude::*;
use range_alloc::RangeAllocator;
use crate::errno::Errno;
use crate::kms::{Buffer, KmsCrtcDriver, KmsPlaneDriver};

verus! {

/// The best-fit range allocator of the `range-alloc` crate.
#[verifier::external_type_specification]
#[verifier::external_body]
#[verifier::reject_recursive_types(T)]
pub struct ExRangeAllocator<T>(RangeAllocator<T>);

/// The offsets an allocator still has free.
pub uninterp spec fn range_free(a: RangeAllocator<u32>) -> Set<u32>;

/// The offsets `start .. end`.
pub open spec fn span(start: u32, end: u32) -> Set<u32> {
    Set::new(|x: u32| start <= x < end)
}

/// Some run of `length` offsets `s .. s + length` is in `free`.
pub open spec fn fits(free: Set<u32>, length: int) -> bool {
    exists|s: u32| s + length <= u32::MAX && #[trigger] span(s, (s + length) as u32).subset_of(free)
}

/// Allocates `length` offsets (`RangeAllocator::allocate_range`): on
/// success a run of free offsets `start .. start + length` (the smallest
/// free range that fits, per the crate) that are no longer free; on
/// failure nothing changes. The crate keeps its free ranges apart (it
/// merges a freed range with the free ranges it touches, and allocating
/// only shrinks or splits one), so every run of free offsets lies in one
/// free range, and it fails only when no run of `length` free offsets
/// exists. Which fitting run it takes is left unsaid here.
#[verifier::external_body]
fn allocate_range(a: &mut RangeAllocator<u32>, length: u32) -> (r: Option<(u32, u32)>)
    requires
        0 < length,
        2 * length <= u32::MAX,
    ensures
        match r {
            Some((start, end)) => {
                &&& end == start + length
                &&& span(start, end).subset_of(range_free(*old(a)))
                &&& range_free(*final(a)) == range_free(*old(a)).difference(span(start, end))
            },
            None => range_free(*final(a)) == range_free(*old(a)),
        },
        r is None ==> !fits(range_free(*old(a)), length as int),
{
    match a.allocate_range(length) {
        Ok(r) => Some((r.start, r.end)),
        Err(_) => None,
    }
}

/// `n` rounded up to a multiple of `m`.
pub open spec fn round_up(n: int, m: int) -> int {
    ((n + m - 1) / m) * m
}

fn next_multiple(n: u32, m: u32) -> (r: u32)
    requires
        m > 0,
        round_up(n as int, m as int) <= u32::MAX,
    ensures
        r == round_up(n as int, m as int),
{
    let q = n / m;
    let rem = n % m;
    proof {
        assert(n == q * m + rem && 0 <= rem < m && round_up(n as int, m as int) == (if rem == 0 { q * m } else { q * m + m }))
            by (nonlinear_arith)
            requires
                m > 0,
                q == n / m,
                rem == n % m,
        {
            assert(n == q * m + rem);
            assert((n + m - 1) / (m as int) == (if rem == 0 { q as int } else { q + 1 }));
        }
    }
    let base = q * m;
    if rem == 0 {
        base
    } else {
        base + m
    }
}

/// A buffer in the graphics memory: its address as the driver maps it,
/// its offset in the graphics memory, and its size.
#[derive(Debug)]
pub struct GpuBuffer {
    pub virt: usize,
    pub gm_offset: u32,
    pub size: u32,
}

impl GpuBuffer {
    /// The buffer of `size` bytes at `gm_offset` of the graphics memory
    /// mapped at `gm_virt`.
    pub fn new(gm_virt: usize, gm_offset: u32, size: u32) -> (b: GpuBuffer)
        requires
            gm_virt + gm_offset <= usize::MAX,
        ensures
            b.virt == gm_virt + gm_offset,
            b.gm_offset == gm_offset,
            b.size == size,
    {
        GpuBuffer { virt: gm_virt + gm_offset as usize, gm_offset, size }
    }

    /// A buffer of `size` bytes taking whole pages of the graphics memory
    /// mapped at `gm_virt`, from the surface allocator; when no free run
    /// fits, the allocation fails with an I/O error. The caller clears it.
    pub fn allocate(gm_virt: usize, alloc_surfaces: &mut RangeAllocator<u32>, size: u32) -> (r: Result<GpuBuffer, Errno>)
        requires
            0 < size,
            2 * round_up(size as int, 4096) <= u32::MAX,
            gm_virt + u32::MAX <= usize::MAX,
        ensures
            match r {
                Ok(b) => {
                    &&& b.size == size
                    &&& b.virt == gm_virt + b.gm_offset
                    &&& span(b.gm_offset, (b.gm_offset + round_up(size as int, 4096)) as u32).subset_of(range_free(*old(alloc_surfaces)))
                    &&& range_free(*final(alloc_surfaces)) == range_free(*old(alloc_surfaces)).difference(
                        span(b.gm_offset, (b.gm_offset + round_up(size as int, 4096)) as u32))
                },
                Err(e) => e == Errno::Io && range_free(*final(alloc_surfaces)) == range_free(*old(alloc_surfaces)),
            },
            r is Err <==> !fits(range_free(*old(alloc_surfaces)), round_up(size as int, 4096)),
    {
        let surf_size = next_multiple(size, 4096);
        assert(surf_size > 0) by (nonlinear_arith)
            requires surf_size == round_up(size as int, 4096), size > 0;
        match allocate_range(alloc_surfaces, surf_size) {
            Some((start, _end)) => Ok(GpuBuffer::new(gm_virt, start, size)),
            None => Err(Errno::Io),
        }
    }

    /// A dumb buffer for `width` x `height` pixels of 32 bits, with rows
    /// padded to 64 bytes; the buffer and the row stride.
    pub fn alloc_dumb(gm_virt: usize, alloc_surfaces: &mut RangeAllocator<u32>, width: u32, height: u32) -> (r: Result<(GpuBuffer, u32), Errno>)
        requires
            0 < width,
            0 < height,
            round_up(width * 4, 64) * height <= u32::MAX,
            2 * round_up(round_up(width * 4, 64) * height, 4096) <= u32::MAX,
            gm_virt + u32::MAX <= usize::MAX,
        ensures
            match r {
                Ok((b, stride)) => {
                    &&& stride == round_up(width * 4, 64)
                    &&& b.size == stride * height
                    &&& b.virt == gm_virt + b.gm_offset
                    &&& range_free(*final(alloc_surfaces)) == range_free(*old(alloc_surfaces)).difference(
                        span(b.gm_offset, (b.gm_offset + round_up(b.size as int, 4096)) as u32))
                },
                Err(e) => e == Errno::Io && range_free(*final(alloc_surfaces)) == range_free(*old(alloc_surfaces)),
            },
            r is Err <==> !fits(range_free(*old(alloc_surfaces)), round_up(round_up(width * 4, 64) * height, 4096)),
    {
        assert(round_up(width * 4, 64) >= width * 4) by (nonlinear_arith)
            requires width > 0;
        assert(width * 4 <= round_up(width * 4, 64) * height) by (nonlinear_arith)
            requires height >= 1, round_up(width * 4, 64) >= width * 4;
        let stride = next_multiple(width * 4, 64);
        assert(stride * height > 0) by (nonlinear_arith)
            requires stride >= width * 4, width > 0, height > 0;
        let b = GpuBuffer::allocate(gm_virt, alloc_surfaces, stride * height)?;
        Ok((b, stride))
    }

    /// The buffer's size in bytes.
    pub fn buffer_size(&self) -> (n: usize)
        ensures
            n == self.size,
    {
        self.size as usize
    }
}

/// A display pipe of the device.
#[derive(Debug)]
pub struct Crtc {
    pub pipe_idx: usize,
}

/// A plane of a display pipe.
#[derive(Debug)]
pub struct Plane {
    pub pipe_idx: usize,
    pub plane_idx: usize,
}

impl Buffer for GpuBuffer {
    open spec fn byte_size(&self) -> int {
        self.size as int
    }

    fn size(&self) -> (n: usize) {
        self.size as usize
    }
}

impl KmsCrtcDriver for Crtc {
    type State = ();
}

impl KmsPlaneDriver for Plane {
    type State = ();
}

/// Capability: dumb buffers.
pub const DRM_CAP_DUMB_BUFFER: u32 = 1;
/// Capability: the preferred depth of dumb buffers.
pub const DRM_CAP_DUMB_PREFERRED_DEPTH: u32 = 3;
/// Capability: whether a shadow buffer is preferred.
pub const DRM_CAP_DUMB_PREFER_SHADOW: u32 = 4;
/// Client capability: cursor planes with a hotspot.
pub const DRM_CLIENT_CAP_CURSOR_PLANE_HOTSPOT: u32 = 6;

/// The driver's answer to a capability query: dumb buffers of depth 24,
/// shadowed; anything else is invalid.
pub fn get_cap(cap: u32) -> (r: Result<u64, Errno>)
    ensures
        cap == DRM_CAP_DUMB_BUFFER ==> r == Ok::<u64, Errno>(1),
        cap == DRM_CAP_DUMB_PREFERRED_DEPTH ==> r == Ok::<u64, Errno>(24),
        cap == DRM_CAP_DUMB_PREFER_SHADOW ==> r == Ok::<u64, Errno>(1),
        cap != DRM_CAP_DUMB_BUFFER && cap != DRM_CAP_DUMB_PREFERRED_DEPTH && cap != DRM_CAP_DUMB_PREFER_SHADOW
            ==> r == Err::<u64, Errno>(Errno::Inval),
{
    if cap == DRM_CAP_DUMB_BUFFER {
        Ok(1)
    } else if cap == DRM_CAP_DUMB_PREFERRED_DEPTH {
        Ok(24)
    } else if cap == DRM_CAP_DUMB_PREFER_SHADOW {
        Ok(1)
    } else {
        Err(Errno::Inval)
    }
}

/// The driver's answer to a client capability: only cursor plane hotspots
/// are accepted.
pub fn set_client_cap(cap: u32, value: u64) -> (r: Result<(), Errno>)
    ensures
        cap == DRM_CLIENT_CAP_CURSOR_PLANE_HOTSPOT ==> r is Ok,
        cap != DRM_CLIENT_CAP_CURSOR_PLANE_HOTSPOT ==> r == Err::<(), Errno>(Errno::Inval),
{
    if cap == DRM_CLIENT_CAP_CURSOR_PLANE_HOTSPOT {
        Ok(())
    } else {
        Err(Errno::Inval)
    }
}

} // verus!
