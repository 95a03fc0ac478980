use eos_base::errno::Errno;
use eos_base::ihdgd::{get_cap, set_client_cap, GpuBuffer, DRM_CAP_DUMB_BUFFER, DRM_CAP_DUMB_PREFERRED_DEPTH, DRM_CAP_DUMB_PREFER_SHADOW, DRM_CLIENT_CAP_CURSOR_PLANE_HOTSPOT};
use eos_base::kms::Buffer;
use range_alloc::RangeAllocator;

#[test]
fn buffers_take_whole_pages_from_the_allocator() {
    let mut a = RangeAllocator::new(0u32..16384);
    let b = GpuBuffer::allocate(0x1000_0000, &mut a, 100).unwrap();
    assert_eq!(b.gm_offset, 0);
    assert_eq!(b.size, 100);
    assert_eq!(b.virt, 0x1000_0000);
    assert_eq!(b.buffer_size(), 100);
    assert_eq!(Buffer::size(&b), 100);
    let c = GpuBuffer::allocate(0x1000_0000, &mut a, 4097).unwrap();
    assert_eq!(c.gm_offset, 4096);
    assert_eq!(c.virt, 0x1000_0000 + 4096);
    assert_eq!(GpuBuffer::allocate(0, &mut a, 8192).unwrap_err(), Errno::Io);
    let d = GpuBuffer::allocate(0, &mut a, 4096).unwrap();
    assert_eq!(d.gm_offset, 12288);
}

#[test]
fn dumb_buffers_pad_rows_to_64_bytes() {
    let mut a = RangeAllocator::new(0u32..(1 << 20));
    let (b, stride) = GpuBuffer::alloc_dumb(0, &mut a, 10, 3).unwrap();
    assert_eq!(stride, 64);
    assert_eq!(b.size, 192);
    let (b2, stride2) = GpuBuffer::alloc_dumb(0, &mut a, 16, 2).unwrap();
    assert_eq!(stride2, 64);
    assert_eq!(b2.gm_offset, 4096);
    let (_, stride3) = GpuBuffer::alloc_dumb(0, &mut a, 17, 1).unwrap();
    assert_eq!(stride3, 128);
}

#[test]
fn capabilities() {
    assert_eq!(DRM_CAP_DUMB_BUFFER, drm_sys::DRM_CAP_DUMB_BUFFER);
    assert_eq!(DRM_CAP_DUMB_PREFERRED_DEPTH, drm_sys::DRM_CAP_DUMB_PREFERRED_DEPTH);
    assert_eq!(DRM_CAP_DUMB_PREFER_SHADOW, drm_sys::DRM_CAP_DUMB_PREFER_SHADOW);
    assert_eq!(DRM_CLIENT_CAP_CURSOR_PLANE_HOTSPOT, drm_sys::DRM_CLIENT_CAP_CURSOR_PLANE_HOTSPOT);
    assert_eq!(get_cap(DRM_CAP_DUMB_BUFFER), Ok(1));
    assert_eq!(get_cap(DRM_CAP_DUMB_PREFERRED_DEPTH), Ok(24));
    assert_eq!(get_cap(DRM_CAP_DUMB_PREFER_SHADOW), Ok(1));
    assert_eq!(get_cap(2), Err(Errno::Inval));
    assert_eq!(set_client_cap(DRM_CLIENT_CAP_CURSOR_PLANE_HOTSPOT, 1), Ok(()));
    assert_eq!(set_client_cap(1, 1), Err(Errno::Inval));
}

#[test]
fn buffer_size_is_the_requested_size() {
    let b = GpuBuffer::new(0x1000, 0x2000, 12345);
    assert_eq!(Buffer::size(&b), 12345);
    assert_eq!(b.buffer_size(), 12345);
}
