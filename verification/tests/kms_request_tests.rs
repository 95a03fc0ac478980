use eos_base::errno::Errno;
use eos_base::kms::{
    DumbBuffer, KmsCrtc, KmsCrtcState, KmsFramebuffer, KmsMode, KmsObject, KmsObjectId,
    KmsObjects, KmsPlaneState, KmsPlaneType, KmsPropertyKind, KmsRect,
};
use eos_base::kms_ioctl::{
    activate_vt, add_fb, card_res, close_fb, commit_activation, create_dumb_check, cursor_commit, cursor_plan, decode_map_offset,
    destroy_dumb,
    dirty_fb, map_dumb, obj_get_properties, plane_res, rm_fb, set_crtc_commit, set_crtc_plan,
    set_plane_plan, Damage, DrmHandle, VtState, DRM_FORMAT_ARGB8888, DRM_FORMAT_XRGB8888,
    DRM_MODE_CURSOR_BO, DRM_MODE_CURSOR_MOVE,
};

fn buffer(n: u64) -> DumbBuffer {
    DumbBuffer { buffer: n, size: 4096 }
}

fn empty_plane() -> KmsPlaneState {
    KmsPlaneState {
        fb_id: None,
        crtc_id: None,
        src_rect: KmsRect { x: 0u32, y: 0u32, width: 0, height: 0 },
        crtc_rect: KmsRect { x: 0i32, y: 0i32, width: 0, height: 0 },
        hotspot: None,
    }
}

fn vt_state(vt: usize, planes: usize, crtcs: usize) -> VtState {
    VtState {
        vt,
        connector_state: Vec::new(),
        crtc_state: (0..crtcs).map(|_| KmsCrtcState { mode: None }).collect(),
        plane_state: (0..planes).map(|_| empty_plane()).collect(),
    }
}

fn mode(w: u16, h: u16) -> KmsMode {
    KmsMode {
        clock: 0,
        hdisplay: w,
        hsync_start: w,
        hsync_end: w,
        htotal: w,
        hskew: 0,
        vdisplay: h,
        vsync_start: h,
        vsync_end: h,
        vtotal: h,
        vscan: 0,
        vrefresh: 60,
        flags: 0,
        type_: 0,
        name: [0; 32],
    }
}

#[test]
fn card_resources_list_every_kind() {
    let mut o = KmsObjects::new();
    let conn = o.add_connector();
    let (crtc, plane) = o.add_crtc();
    let res = card_res(&o);
    assert_eq!(res.connector_ids, vec![conn.0]);
    assert_eq!(res.crtc_ids, vec![crtc.0]);
    assert_eq!(res.encoder_ids.len(), 1);
    assert!(res.fb_ids.is_empty());
    assert_eq!((res.min_width, res.max_width, res.min_height, res.max_height), (0, 16384, 0, 16384));
    assert_eq!(plane_res(&o), vec![plane.0]);
}

#[test]
fn add_fb_checks_depth_and_handle() {
    let mut o = KmsObjects::new();
    let mut h = DrmHandle::new(1);
    let bh = h.insert_buffer(buffer(9));
    assert_eq!(add_fb(&mut o, &h, 64, 32, 256, 32, 16, bh), Err(Errno::Inval));
    assert_eq!(add_fb(&mut o, &h, 64, 32, 256, 24, 24, bh), Err(Errno::Inval));
    assert_eq!(add_fb(&mut o, &h, 64, 32, 256, 32, 24, bh + 1), Err(Errno::Inval));
    let xrgb = add_fb(&mut o, &h, 64, 32, 256, 32, 24, bh).unwrap();
    let argb = add_fb(&mut o, &h, 64, 32, 256, 32, 32, bh).unwrap();
    assert_eq!(o.get_framebuffer(xrgb).unwrap().pixel_format, DRM_FORMAT_XRGB8888);
    assert_eq!(o.get_framebuffer(argb).unwrap().pixel_format, DRM_FORMAT_ARGB8888);
    assert_eq!(o.get_framebuffer(argb).unwrap().buffer, buffer(9));
    assert_eq!(o.fb_ids(), &[xrgb, argb]);
}

#[test]
fn dumb_buffer_requests() {
    assert_eq!(create_dumb_check(32, 0), Ok(()));
    assert_eq!(create_dumb_check(16, 0), Err(Errno::Inval));
    assert_eq!(create_dumb_check(32, 1), Err(Errno::Inval));
    let mut h = DrmHandle::new(1);
    let a = h.insert_buffer(buffer(1));
    let b = h.insert_buffer(buffer(2));
    assert_eq!((a, b), (1, 2));
    assert_eq!(map_dumb(&h, 0, b), Ok(2 * 0x1000_0000));
    assert_eq!(decode_map_offset(map_dumb(&h, 0, b).unwrap()), (b, 0));
    assert_eq!(map_dumb(&h, 8, b), Err(Errno::Inval));
    assert_eq!(map_dumb(&h, 0, 7), Err(Errno::NoEnt));
    assert_eq!(destroy_dumb(&mut h, a), Ok(()));
    assert_eq!(destroy_dumb(&mut h, a), Err(Errno::NoEnt));
    assert_eq!(map_dumb(&h, 0, a), Err(Errno::NoEnt));
    assert_eq!(map_dumb(&h, 0, b), Ok(2 * 0x1000_0000));
}

#[test]
fn rm_fb_clears_planes_of_every_vt() {
    let mut o = KmsObjects::new();
    let mut h = DrmHandle::new(1);
    let bh = h.insert_buffer(buffer(3));
    let f = add_fb(&mut o, &h, 8, 8, 32, 32, 24, bh).unwrap();
    let mut vts = vec![vt_state(1, 2, 0), vt_state(2, 2, 0)];
    vts[0].plane_state[1].fb_id = Some(f);
    vts[1].plane_state[0].fb_id = Some(f);
    let updates = rm_fb(&mut o, 1, &mut vts, f.0).unwrap();
    assert_eq!(updates.len(), 1);
    assert_eq!(updates[0].plane_index, 1);
    assert_eq!(updates[0].state.fb_id, None);
    assert_eq!(updates[0].damage, Damage { x: 0, y: 0, width: 0, height: 0 });
    assert!(vts.iter().all(|v| v.plane_state.iter().all(|p| p.fb_id.is_none())));
    assert!(o.get_framebuffer(f).is_err());
    assert!(matches!(rm_fb(&mut o, 1, &mut vts, f.0), Err(Errno::NoEnt)));
}

#[test]
fn close_fb_waits_for_the_last_user() {
    let mut o = KmsObjects::new();
    let mut h = DrmHandle::new(1);
    let bh = h.insert_buffer(buffer(4));
    let shown = add_fb(&mut o, &h, 8, 8, 32, 32, 24, bh).unwrap();
    let hidden = add_fb(&mut o, &h, 8, 8, 32, 32, 24, bh).unwrap();
    let mut vts = vec![vt_state(1, 1, 0)];
    vts[0].plane_state[0].fb_id = Some(shown);
    assert_eq!(close_fb(&mut o, &vts, hidden.0), Ok(()));
    assert!(o.get_framebuffer_maybe_closed(hidden).is_err());
    assert_eq!(close_fb(&mut o, &vts, shown.0), Ok(()));
    assert!(o.get_framebuffer_maybe_closed(shown).unwrap().closed);
    assert!(o.get_framebuffer(shown).is_err());
    assert_eq!(close_fb(&mut o, &vts, shown.0), Err(Errno::NoEnt));
    assert_eq!(close_fb(&mut o, &vts, 999), Err(Errno::NoEnt));
}

#[test]
fn dirty_fb_bounds_the_clips() {
    let mut o = KmsObjects::new();
    let (_crtc, plane) = o.add_crtc();
    let mut h = DrmHandle::new(1);
    let bh = h.insert_buffer(buffer(5));
    let f = add_fb(&mut o, &h, 100, 50, 400, 32, 24, bh).unwrap();
    let mut st = empty_plane();
    st.fb_id = Some(f);
    assert_eq!(o.set_plane_state(plane, st), Ok(()));

    let (whole, planes) = dirty_fb(&o, 1, 1, f.0, &Vec::new()).unwrap();
    assert_eq!(whole, Damage { x: 0, y: 0, width: 100, height: 50 });
    assert_eq!(planes, vec![plane]);

    let clips = vec![(10u16, 5u16, 20u16, 15u16), (30, 2, 40, 8)];
    let (d, planes) = dirty_fb(&o, 2, 1, f.0, &clips).unwrap();
    assert_eq!(d, Damage { x: 10, y: 2, width: 30, height: 13 });
    assert!(planes.is_empty());
    assert!(matches!(dirty_fb(&o, 1, 1, 999, &clips), Err(Errno::NoEnt)));
}

#[test]
fn object_properties_and_blobs() {
    let mut o = KmsObjects::new();
    let (crtc, _plane) = o.add_crtc();
    let prop = o.add_property(b"ACTIVE", false, true, KmsPropertyKind::Range(0, 1));
    let blob = o.add_blob(vec![1, 2, 3]);
    assert_eq!(o.get_blob(blob).unwrap(), &vec![1u8, 2, 3]);
    assert_eq!(o.get_blob(prop), Err(Errno::NoEnt));
    let (ids0, _, _) = obj_get_properties(&o, crtc.0).unwrap();
    o.add_object_property(crtc, prop, 0);
    o.set_object_property(crtc, prop, 1);
    let (ids, vals, t) = obj_get_properties(&o, crtc.0).unwrap();
    assert_eq!(ids.len(), ids0.len() + 1);
    assert_eq!(ids.last(), Some(&prop.0));
    assert_eq!(vals.last(), Some(&1));
    assert_eq!(t, drm_sys::DRM_MODE_OBJECT_CRTC);
    assert!(matches!(obj_get_properties(&o, 999), Err(Errno::Inval)));
    assert!(matches!(o.get_property(prop), Ok(p) if p.atomic && !p.immutable && &p.name[..6] == b"ACTIVE"));
}

#[test]
fn set_plane_checks_the_crtc() {
    let mut o = KmsObjects::new();
    let (crtc, plane) = o.add_crtc();
    let (crtc2, _) = o.add_crtc();
    let overlay = o.add_plane(&[crtc2], KmsPlaneType::Overlay, false);
    let src = KmsRect { x: 0u32, y: 0u32, width: 10, height: 10 };
    let dst = KmsRect { x: 5i32, y: 6i32, width: 10, height: 10 };
    let plan = set_plane_plan(&o, 1, 1, plane.0, crtc.0, 77, src, dst).unwrap();
    assert_eq!(plan.plane_id, plane);
    assert_eq!(plan.plane_index, 0);
    assert_eq!(plan.state.fb_id, Some(KmsObjectId(77)));
    assert_eq!(plan.state.crtc_id, Some(crtc));
    assert_eq!(plan.state.crtc_rect, dst);
    assert!(plan.update);
    assert!(!set_plane_plan(&o, 2, 1, plane.0, crtc.0, 77, src, dst).unwrap().update);
    assert!(matches!(set_plane_plan(&o, 1, 1, overlay.0, crtc.0, 77, src, dst), Err(Errno::Inval)));
    assert!(matches!(set_plane_plan(&o, 1, 1, crtc.0, crtc.0, 77, src, dst), Err(Errno::NoEnt)));
    assert!(matches!(set_plane_plan(&o, 1, 1, plane.0, plane.0, 77, src, dst), Err(Errno::NoEnt)));
}

#[test]
fn set_crtc_plans_and_commits() {
    let mut o = KmsObjects::new();
    let conn = o.add_connector();
    let (crtc, plane) = o.add_crtc();
    let m = mode(640, 480);
    let plan = set_crtc_plan(&o, 1, 1, crtc.0, 55, Some(m), 3, 4).unwrap();
    assert_eq!(plan.damage, Damage { x: 3, y: 4, width: 640, height: 480 });
    assert_eq!(plan.plane_state.fb_id, Some(KmsObjectId(55)));
    assert_eq!(plan.plane_state.crtc_id, Some(crtc));
    assert_eq!(plan.plane_id, plane);
    assert!(plan.update);
    let none = set_crtc_plan(&o, 1, 1, crtc.0, 0, None, 0, 0).unwrap();
    assert_eq!(none.plane_state.fb_id, None);
    assert_eq!(none.damage, Damage { x: 0, y: 0, width: 0, height: 0 });
    assert!(matches!(set_crtc_plan(&o, 1, 1, plane.0, 0, None, 0, 0), Err(Errno::NoEnt)));

    let mut vts = vec![vt_state(1, 1, 1)];
    assert_eq!(set_crtc_commit(&mut o, &mut vts, 1, plan, &vec![conn.0]), Ok(()));
    assert_eq!(o.get_crtc(crtc).unwrap().state.mode.unwrap().hdisplay, 640);
    assert_eq!(o.get_plane(plane).unwrap().state.fb_id, Some(KmsObjectId(55)));
    assert_eq!(o.get_connector(conn).unwrap().crtc_id, crtc);
    assert_eq!(vts[0].plane_state[0].fb_id, Some(KmsObjectId(55)));
    assert_eq!(vts[0].crtc_state[0].mode.unwrap().vdisplay, 480);
    assert_eq!(set_crtc_commit(&mut o, &mut vts, 1, plan, &vec![crtc.0]), Err(Errno::NoEnt));
}

#[test]
fn cursor_requests() {
    let mut o = KmsObjects::new();
    let (crtc, _primary) = o.add_crtc();
    let mut h = DrmHandle::new(1);
    let bh = h.insert_buffer(buffer(6));
    assert!(matches!(
        cursor_plan(&mut o, &h, 1, crtc.0, DRM_MODE_CURSOR_MOVE, 1, 2, 0, 0, 0, 0, 0),
        Err(Errno::NxIo)
    ));
    assert!(matches!(cursor_plan(&mut o, &h, 1, 999, 0, 0, 0, 0, 0, 0, 0, 0), Err(Errno::NoEnt)));

    let cursor = o.add_plane(&[crtc], KmsPlaneType::Cursor, true);
    let i = o.find(crtc).unwrap();
    let c: KmsCrtc = o.get_crtc(crtc).unwrap();
    o.replace_object(i, KmsObject::Crtc(KmsCrtc { cursor_plane: Some(cursor), ..c }));

    assert!(matches!(
        cursor_plan(&mut o, &h, 1, crtc.0, DRM_MODE_CURSOR_BO, 0, 0, 16, 16, bh + 5, 0, 0),
        Err(Errno::Inval)
    ));
    let next = o.next_id;
    let plan = cursor_plan(&mut o, &h, 1, crtc.0, DRM_MODE_CURSOR_BO | DRM_MODE_CURSOR_MOVE, 7, 8, 16, 16, bh, 2, 3).unwrap();
    assert_eq!(plan.plane_id, cursor);
    assert_eq!(plan.old_fb, None);
    assert_eq!(plan.state.fb_id, Some(KmsObjectId(next)));
    assert_eq!(plan.state.crtc_rect, KmsRect { x: 7i32, y: 8i32, width: 16, height: 16 });
    assert_eq!(plan.state.src_rect, KmsRect { x: 0u32, y: 0u32, width: 16, height: 16 });
    assert_eq!(plan.state.hotspot, Some((2, 3)));
    assert_eq!(plan.damage, Some(Damage { x: 0, y: 0, width: 16, height: 16 }));
    let image: KmsFramebuffer = o.get_framebuffer_maybe_closed(KmsObjectId(next)).unwrap();
    assert!(image.closed);
    assert_eq!((image.pitch, image.pixel_format), (64, DRM_FORMAT_ARGB8888));

    // The driver sets the plane on the hardware, as the active VT's plan asks.
    assert_eq!(o.set_plane_state(cursor, plan.state), Ok(()));
    let mut vts = vec![vt_state(1, 2, 1)];
    cursor_commit(&mut o, &mut vts, 1, plan);
    assert_eq!(vts[0].plane_state[1].fb_id, Some(KmsObjectId(next)));

    let hide = cursor_plan(&mut o, &h, 2, crtc.0, DRM_MODE_CURSOR_BO, 0, 0, 0, 0, 0, 0, 0).unwrap();
    assert_eq!(hide.state.fb_id, None);
    assert_eq!(hide.old_fb, Some(KmsObjectId(next)));
    assert_eq!(hide.damage, None);
    cursor_commit(&mut o, &mut vts, 1, hide);
    assert!(o.get_framebuffer_maybe_closed(KmsObjectId(next)).is_err());
}

#[test]
fn activation_puts_the_saved_state_back() {
    let mut o = KmsObjects::new();
    let conn = o.add_connector();
    let (crtc, plane) = o.add_crtc();
    let mut vts: Vec<VtState> = Vec::new();
    let (i, plan) = activate_vt(&o, &mut vts, 3);
    assert_eq!(vts[i].vt, 3);
    let mut st = empty_plane();
    st.fb_id = Some(KmsObjectId(99));
    assert_eq!(o.set_plane_state(plane, st), Ok(()));
    assert_eq!(o.set_crtc_state(crtc, KmsCrtcState { mode: Some(mode(8, 8)) }), Ok(()));
    commit_activation(&mut o, &plan);
    assert_eq!(o.get_plane(plane).unwrap().state.fb_id, None);
    assert!(o.get_crtc(crtc).unwrap().state.mode.is_none());
    assert_eq!(o.get_connector(conn).unwrap().crtc_id, crtc);
}
