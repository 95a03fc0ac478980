use eos_base::errno::Errno;
use eos_base::kms::{
    DrmConnectorStatus, DrmObjectId, DumbBuffer, KmsCrtcState, KmsFramebuffer, KmsObjectId,
    KmsObjects, KmsPlaneType, KmsPlaneState, KmsRect,
};
use eos_base::kms_ioctl::{
    activate_vt, add_fb2, add_fb2_known, decode_map_offset, fb_has_any_use, get_fb, get_fb2,
    open_error, parse_v2_path, set_version, v2_path, Damage, DrmHandle, Fb2Reply, VtState,
    DRM_FORMAT_ARGB8888, DRM_FORMAT_XRGB8888,
};

fn fb(width: u32, height: u32) -> KmsFramebuffer {
    KmsFramebuffer {
        closed: false,
        width,
        height,
        pixel_format: 0x3432_5258,
        pitch: width * 4,
        buffer: DumbBuffer { buffer: 1, size: (width * height * 4) as usize },
    }
}

fn plane_state(fb_id: Option<KmsObjectId>) -> KmsPlaneState {
    KmsPlaneState {
        fb_id,
        crtc_id: None,
        src_rect: KmsRect { x: 0u32, y: 0u32, width: 0, height: 0 },
        crtc_rect: KmsRect { x: 0i32, y: 0i32, width: 0, height: 0 },
        hotspot: None,
    }
}

#[test]
fn ids_and_codes() {
    assert_eq!(KmsObjectId::invalid(), KmsObjectId(0));
    assert_eq!(DrmObjectId::invalid(), DrmObjectId(0));
    assert_eq!(DrmObjectId(7).as_u64(), 7);
    assert_eq!(KmsPlaneType::Overlay.code(), drm_sys::DRM_PLANE_TYPE_OVERLAY);
    assert_eq!(KmsPlaneType::Primary.code(), drm_sys::DRM_PLANE_TYPE_PRIMARY);
    assert_eq!(KmsPlaneType::Cursor.code(), drm_sys::DRM_PLANE_TYPE_CURSOR);
    assert_eq!(DrmConnectorStatus::Connected.code(), 1);
    assert_eq!(DrmConnectorStatus::Disconnected.code(), 0);
    assert_eq!(DrmConnectorStatus::Unknown.code(), 2);
}

#[test]
fn objects_get_fresh_ids() {
    let mut o = KmsObjects::new();
    let conn = o.add_connector();
    let (crtc, plane) = o.add_crtc();
    assert_ne!(conn, crtc);
    assert_ne!(crtc, plane);
    assert_eq!(o.object_type(conn), Ok(drm_sys::DRM_MODE_OBJECT_CONNECTOR));
    assert_eq!(o.object_type(crtc), Ok(drm_sys::DRM_MODE_OBJECT_CRTC));
    assert_eq!(o.object_type(plane), Ok(drm_sys::DRM_MODE_OBJECT_PLANE));
    assert_eq!(o.object_type(KmsObjectId(999)), Err(Errno::NoEnt));
    assert_eq!(o.get_crtc(crtc).unwrap().primary_plane, plane);
    assert!(o.get_plane(crtc).is_err());
    assert_eq!(o.connector_ids(), &[conn]);
    assert_eq!(o.crtc_ids(), &[crtc]);
    assert_eq!(o.plane_ids(), &[plane]);
    assert_eq!(o.encoder_ids().len(), 1);
    assert!(o.fb_ids().is_empty());
}

#[test]
fn framebuffers_come_and_go() {
    let mut o = KmsObjects::new();
    let f = o.add_framebuffer(fb(8, 4));
    assert_eq!(o.get_framebuffer(f).unwrap().width, 8);
    assert_eq!(o.object_type(f), Ok(drm_sys::DRM_MODE_OBJECT_FB));
    assert_eq!(o.remove_framebuffer(f), Ok(()));
    assert!(o.get_framebuffer(f).is_err());
    assert_eq!(o.remove_framebuffer(f), Err(Errno::NoEnt));
}

#[test]
fn states_are_stored() {
    let mut o = KmsObjects::new();
    let (crtc, plane) = o.add_crtc();
    assert_eq!(o.set_crtc_state(crtc, KmsCrtcState { mode: None }), Ok(()));
    assert_eq!(o.set_crtc_state(plane, KmsCrtcState { mode: None }), Err(Errno::NoEnt));
    let f = o.add_framebuffer(fb(2, 2));
    assert_eq!(o.set_plane_state(plane, plane_state(Some(f))), Ok(()));
    assert_eq!(o.get_plane(plane).unwrap().state.fb_id, Some(f));
}

#[test]
fn interface_version_and_paths() {
    assert_eq!(set_version(0, 4, 0, 4), Ok(()));
    assert_eq!(set_version(1, 4, 0, 4), Err(Errno::Inval));
    assert_eq!(set_version(0, 4, 0, 3), Err(Errno::Inval));
    assert_eq!(parse_v2_path(b"v2/3"), Some(3));
    assert_eq!(parse_v2_path(b"v2/+3"), Some(3));
    assert_eq!(parse_v2_path(b"v2/"), None);
    assert_eq!(parse_v2_path(b"v2/x"), None);
    assert_eq!(parse_v2_path(b"v1/3"), None);
    assert_eq!(open_error(b""), Errno::Inval);
    assert_eq!(open_error(b"abc"), Errno::Inval);
    assert_eq!(open_error(b"v1/3"), Errno::NoEnt);
    assert_eq!(open_error(b"v2/x"), Errno::Inval);
    assert_eq!(decode_map_offset(0x3000_0010), (3, 0x10));
    assert_eq!(decode_map_offset(5), (0, 5));
}

#[test]
fn damage_merge_and_clip() {
    let a = Damage { x: 0, y: 0, width: 2, height: 2 };
    let b = Damage { x: 5, y: 5, width: 1, height: 1 };
    assert_eq!(a.merge(b), Damage { x: 0, y: 0, width: 6, height: 6 });
    assert_eq!(a.merge(b), b.merge(a));
    let none = Damage { x: 9, y: 9, width: 0, height: 3 };
    assert_eq!(none.merge(a), a);
    assert_eq!(a.merge(none), a);
    let big = Damage { x: 10, y: 2, width: 100, height: 100 };
    let clipped = big.clip(50, 40);
    assert_eq!(clipped, Damage { x: 10, y: 2, width: 40, height: 38 });
    assert_eq!(clipped.clip(50, 40), clipped);
    let outside = Damage { x: 60, y: 0, width: 5, height: 5 };
    assert_eq!(outside.clip(50, 40).x, 50);
    assert_eq!(outside.clip(50, 40).width, 0);
}

#[test]
fn handles_number_their_buffers() {
    let mut h = DrmHandle::new(2);
    let a = h.insert_buffer(DumbBuffer { buffer: 10, size: 64 });
    let b = h.insert_buffer(DumbBuffer { buffer: 11, size: 64 });
    assert_ne!(a, b);
    assert_eq!(h.find_buffer(a), Some(DumbBuffer { buffer: 10, size: 64 }));
    assert_eq!(h.find_buffer(b), Some(DumbBuffer { buffer: 11, size: 64 }));
    assert!(h.find_buffer(b + 100).is_none());
}

#[test]
fn switching_vt_restores_its_state() {
    let mut o = KmsObjects::new();
    let conn = o.add_connector();
    let (crtc, plane) = o.add_crtc();
    let f = o.add_framebuffer(fb(640, 480));
    assert_eq!(o.set_plane_state(plane, plane_state(Some(f))), Ok(()));
    let mut vts: Vec<VtState> = Vec::new();
    let (i, plan) = activate_vt(&o, &mut vts, 1);
    assert_eq!(vts.len(), 1);
    assert_eq!(vts[i].vt, 1);
    assert_eq!(plan.connectors.len(), 1);
    assert_eq!(plan.connectors[0].0, conn);
    assert_eq!(plan.crtcs.len(), 1);
    assert_eq!(plan.crtcs[0].0, crtc);
    assert_eq!(plan.crtc_connectors, vec![(conn, crtc)]);
    assert_eq!(plan.planes.len(), 1);
    assert_eq!(plan.planes[0].0, plane);
    assert_eq!(plan.planes[0].1.fb_id, Some(f));
    assert_eq!(plan.planes[0].2, Damage { x: 0, y: 0, width: 640, height: 480 });
    assert!(fb_has_any_use(&vts, f));
    let (j, _) = activate_vt(&o, &mut vts, 1);
    assert_eq!(j, i);
    assert_eq!(vts.len(), 1);
}

#[test]
fn framebuffers_need_a_known_format() {
    let mut o = KmsObjects::new();
    let mut h = DrmHandle::new(1);
    let buf = h.insert_buffer(DumbBuffer { buffer: 5, size: 4 * 4 * 4 });
    let id = add_fb2(&mut o, &h, 4, 4, DRM_FORMAT_XRGB8888, 16, buf).unwrap();
    assert_eq!(o.get_framebuffer(id).unwrap().pixel_format, DRM_FORMAT_XRGB8888);
    assert!(add_fb2(&mut o, &h, 4, 4, DRM_FORMAT_ARGB8888, 16, buf).is_ok());
    assert_eq!(add_fb2(&mut o, &h, 4, 4, 0x1234_5678, 16, buf), Err(Errno::Inval));
    assert_eq!(add_fb2(&mut o, &h, 4, 4, DRM_FORMAT_XRGB8888, 16, buf + 7), Err(Errno::Inval));
    assert_eq!(add_fb2_known(&mut o, &h, 4, 4, DRM_FORMAT_XRGB8888, 16, buf, false), Err(Errno::Inval));
    assert_eq!(DRM_FORMAT_XRGB8888, drm_fourcc::DrmFourcc::Xrgb8888 as u32);
    assert_eq!(DRM_FORMAT_ARGB8888, drm_fourcc::DrmFourcc::Argb8888 as u32);
}

#[test]
fn handle_paths_name_their_vt() {
    assert_eq!(v2_path(0), b"v2/0".to_vec());
    assert_eq!(v2_path(42), b"v2/42".to_vec());
    for vt in [0usize, 7, 10, 12345, usize::MAX] {
        assert_eq!(parse_v2_path(&v2_path(vt)), Some(vt));
    }
}

#[test]
fn framebuffer_queries_hand_out_new_handles() {
    let mut o = KmsObjects::new();
    let f = o.add_framebuffer(KmsFramebuffer { pixel_format: DRM_FORMAT_XRGB8888, ..fb(8, 2) });
    let mut h = DrmHandle::new(0);
    let r = get_fb2(&o, &mut h, f.0).unwrap();
    assert_eq!(r, Fb2Reply { width: 8, height: 2, pixel_format: DRM_FORMAT_XRGB8888, handle: 1, pitch: 32 });
    let r1 = get_fb(&o, &mut h, f.0).unwrap();
    assert_eq!(r1.handle, 2);
    assert_eq!(r1.depth, 24);
    assert!(h.find_buffer(1).is_some() && h.find_buffer(2).is_some());
    assert_eq!(get_fb2(&o, &mut h, 999), Err(Errno::NoEnt));
}
