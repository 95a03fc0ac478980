//! The DRM requests of a display handle: what each one checks, answers and
//! changes in the KMS objects, the per-VT display state and the handle's
//! buffer table. The work on the hardware (setting a CRTC or plane,
//! creating buffers) is the driver's: a request that needs it is split in a
//! plan, made here, and a commit, made here once the driver succeeded.

use vstd::prelude::*;
use std::collections::HashMap;
use crate::errno::Errno;
use crate::kms::{DumbBuffer, KmsCrtc, KmsPlane, KmsObjectId, KmsObjects, KmsObject, KmsPlaneState, KmsCrtcState, KmsRect, KmsFramebuffer, KmsPropertyKind, KmsMode, PropEnum, others_unchanged, status_code, subpixel_code};

verus! {

broadcast use vstd::std_specs::hash::group_hash_axioms;

/// `DRM_MODE_PROP_RANGE`.
pub const DRM_MODE_PROP_RANGE: u32 = 2;
/// `DRM_MODE_PROP_IMMUTABLE`.
pub const DRM_MODE_PROP_IMMUTABLE: u32 = 4;
/// `DRM_MODE_PROP_ENUM`.
pub const DRM_MODE_PROP_ENUM: u32 = 8;
/// `DRM_MODE_PROP_BLOB`.
pub const DRM_MODE_PROP_BLOB: u32 = 16;
/// `DRM_MODE_PROP_BITMASK`.
pub const DRM_MODE_PROP_BITMASK: u32 = 32;
/// `DRM_MODE_PROP_OBJECT`.
pub const DRM_MODE_PROP_OBJECT: u32 = 64;
/// `DRM_MODE_PROP_SIGNED_RANGE`.
pub const DRM_MODE_PROP_SIGNED_RANGE: u32 = 128;
/// `DRM_MODE_PROP_ATOMIC`.
pub const DRM_MODE_PROP_ATOMIC: u32 = 0x8000_0000;
/// `DRM_MODE_CURSOR_BO`: the cursor request sets the cursor image.
pub const DRM_MODE_CURSOR_BO: u32 = 1;
/// `DRM_MODE_CURSOR_MOVE`: the cursor request moves the cursor.
pub const DRM_MODE_CURSOR_MOVE: u32 = 2;
/// The fourcc of 32-bit XRGB pixels.
pub const DRM_FORMAT_XRGB8888: u32 = 0x3432_5258;
/// The fourcc of 32-bit ARGB pixels.
pub const DRM_FORMAT_ARGB8888: u32 = 0x3432_5241;
/// Map offsets of dumb buffers are their handle times this.
pub const MAP_FAKE_OFFSET_MULTIPLIER: u64 = 0x1000_0000;

/// A rectangle of a display that changed and must be sent to the hardware.
#[derive(Debug, Copy, Clone, PartialEq, Eq, Structural)]
pub struct Damage {
    pub x: u32,
    pub y: u32,
    pub width: u32,
    pub height: u32,
}

impl Damage {
    /// An empty rectangle.
    pub open spec fn is_empty(self) -> bool {
        self.width == 0 || self.height == 0
    }

    /// The right and bottom edges fit in a `u32`.
    pub open spec fn edges_fit(self) -> bool {
        self.x + self.width <= u32::MAX && self.y + self.height <= u32::MAX
    }

    /// The bounding box of two rectangles; an empty one is ignored.
    pub open spec fn spec_merge(self, other: Damage) -> Damage {
        if self.is_empty() {
            other
        } else if other.is_empty() {
            self
        } else {
            let x = if self.x < other.x { self.x } else { other.x };
            let y = if self.y < other.y { self.y } else { other.y };
            let x2 = if self.x + self.width > other.x + other.width { self.x + self.width } else { other.x + other.width };
            let y2 = if self.y + self.height > other.y + other.height { self.y + self.height } else { other.y + other.height };
            Damage { x, y, width: (x2 - x) as u32, height: (y2 - y) as u32 }
        }
    }

    /// The rectangle clipped to a `width` x `height` display.
    pub open spec fn spec_clip(self, width: u32, height: u32) -> Damage {
        let x = if self.x < width { self.x } else { width };
        let y = if self.y < height { self.y } else { height };
        Damage {
            x,
            y,
            width: if self.x + self.width > width { (width - x) as u32 } else { self.width },
            height: if self.y + self.height > height { (height - y) as u32 } else { self.height },
        }
    }

    /// Merges two rectangles into their bounding box.
    pub fn merge(self, other: Self) -> (d: Self)
        requires
            !self.is_empty() && !other.is_empty() ==> self.edges_fit() && other.edges_fit(),
        ensures
            d == self.spec_merge(other),
    {
        if self.width == 0 || self.height == 0 {
            return other;
        }
        if other.width == 0 || other.height == 0 {
            return self;
        }
        let x = if self.x < other.x { self.x } else { other.x };
        let y = if self.y < other.y { self.y } else { other.y };
        let sx2 = self.x + self.width;
        let ox2 = other.x + other.width;
        let sy2 = self.y + self.height;
        let oy2 = other.y + other.height;
        let x2 = if sx2 > ox2 { sx2 } else { ox2 };
        let y2 = if sy2 > oy2 { sy2 } else { oy2 };
        Damage { x, y, width: x2 - x, height: y2 - y }
    }

    /// Clips the rectangle to a `width` x `height` display.
    pub fn clip(self, width: u32, height: u32) -> (d: Self)
        requires
            self.edges_fit(),
        ensures
            d == self.spec_clip(width, height),
    {
        let mut d = self;
        let x2 = d.x + d.width;
        d.x = if d.x < width { d.x } else { width };
        if x2 > width {
            d.width = width - d.x;
        }
        let y2 = d.y + d.height;
        d.y = if d.y < height { d.y } else { height };
        if y2 > height {
            d.height = height - d.y;
        }
        d
    }
}

/// A clipped rectangle lies inside the display.
pub proof fn lemma_clip_inside(d: Damage, width: u32, height: u32)
    requires
        d.edges_fit(),
    ensures
        d.spec_clip(width, height).x + d.spec_clip(width, height).width <= width,
        d.spec_clip(width, height).y + d.spec_clip(width, height).height <= height,
        d.spec_clip(width, height).edges_fit(),
{
}

/// Clipping twice to the same display clips once.
pub proof fn lemma_clip_idempotent(d: Damage, width: u32, height: u32)
    requires
        d.edges_fit(),
    ensures
        d.spec_clip(width, height).spec_clip(width, height) == d.spec_clip(width, height),
{
}

/// A rectangle inside the display is left as it is.
pub proof fn lemma_clip_inside_unchanged(d: Damage, width: u32, height: u32)
    requires
        d.x + d.width <= width,
        d.y + d.height <= height,
    ensures
        d.spec_clip(width, height) == d,
{
}

/// The display state of one VT: the CRTC of each connector and the state
/// of each CRTC and plane, in the order of the object lists.
#[derive(Debug, Clone)]
pub struct VtState {
    pub vt: usize,
    pub connector_state: Vec<KmsObjectId>,
    pub crtc_state: Vec<KmsCrtcState>,
    pub plane_state: Vec<KmsPlaneState>,
}

/// Some plane of some VT shows the framebuffer `fb`.
pub open spec fn fb_used(vts: Seq<VtState>, fb: KmsObjectId) -> bool {
    exists|v: int, p: int|
        0 <= v < vts.len() && 0 <= p < vts[v].plane_state@.len() && (#[trigger] vts[v].plane_state@[p]).fb_id == Some(fb)
}

/// Whether some plane of some VT shows the framebuffer `fb_id`.
pub fn fb_has_any_use(vts: &Vec<VtState>, fb_id: KmsObjectId) -> (r: bool)
    ensures
        r == fb_used(vts@, fb_id),
{
    let mut v: usize = 0;
    while v < vts.len()
        invariant
            v <= vts@.len(),
            forall|a: int, p: int| 0 <= a < v && 0 <= p < vts@[a].plane_state@.len() ==> (#[trigger] vts@[a].plane_state@[p]).fb_id != Some(fb_id),
        decreases vts.len() - v,
    {
        let mut p: usize = 0;
        while p < vts[v].plane_state.len()
            invariant
                v < vts@.len(),
                p <= vts@[v as int].plane_state@.len(),
                forall|q: int| 0 <= q < p ==> (#[trigger] vts@[v as int].plane_state@[q]).fb_id != Some(fb_id),
            decreases vts@[v as int].plane_state@.len() - p,
        {
            match vts[v].plane_state[p].fb_id {
                Some(f) => {
                    if f.0 == fb_id.0 {
                        return true;
                    }
                },
                None => {},
            }
            p += 1;
        }
        v += 1;
    }
    false
}

/// A client's handle on the display: its VT, its unique name once set, and
/// its table of buffer handles.
#[derive(Debug)]
pub struct DrmHandle {
    pub vt: usize,
    pub unique: Option<Vec<u8>>,
    pub next_id: u32,
    pub buffers: HashMap<u32, DumbBuffer>,
}

/// The buffer under handle `h` in a buffer table, if any.
pub open spec fn buffer_of(buffers: Map<u32, DumbBuffer>, h: u32) -> Option<DumbBuffer> {
    if buffers.contains_key(h) {
        Some(buffers[h])
    } else {
        None
    }
}

impl DrmHandle {
    /// A handle on VT `vt` with no buffers.
    pub fn new(vt: usize) -> (h: DrmHandle)
        ensures
            h.vt == vt,
            h.unique is None,
            h.next_id == 0,
            h.buffers@ == Map::<u32, DumbBuffer>::empty(),
    {
        DrmHandle { vt, unique: None, next_id: 0, buffers: HashMap::new() }
    }

    /// The buffer under the handle `h`, if any.
    pub fn find_buffer(&self, h: u32) -> (r: Option<DumbBuffer>)
        ensures
            r == buffer_of(self.buffers@, h),
    {
        match self.buffers.get(&h) {
            Some(b) => Some(*b),
            None => None,
        }
    }

    /// Registers `buffer` under a new handle (one past the last one given
    /// out, replacing a buffer already there) and returns the handle.
    pub fn insert_buffer(&mut self, buffer: DumbBuffer) -> (h: u32)
        requires
            old(self).next_id < u32::MAX,
        ensures
            h == old(self).next_id + 1,
            final(self).next_id == h,
            final(self).vt == old(self).vt,
            final(self).buffers@ == old(self).buffers@.insert(h, buffer),
            buffer_of(final(self).buffers@, h) == Some(buffer),
            forall|x: u32| x != h ==> #[trigger] buffer_of(final(self).buffers@, x) == buffer_of(old(self).buffers@, x),
    {
        self.next_id = self.next_id + 1;
        let h = self.next_id;
        let _ = self.buffers.insert(h, buffer);
        h
    }
}

/// Checks the interface version a client asks for: only 1.4 is spoken, which
/// a client asks for as `0.4` for both the DRM interface and the driver
/// interface. EINVAL otherwise.
pub fn set_version(di_major: i32, di_minor: i32, dd_major: i32, dd_minor: i32) -> (r: Result<(), Errno>)
    ensures
        r is Ok <==> (di_major == 0 && di_minor == 4 && dd_major == 0 && dd_minor == 4),
        r is Err ==> r == Err::<(), Errno>(Errno::Inval),
{
    if di_major != 0 || di_minor != 4 {
        return Err(Errno::Inval);
    }
    if dd_major != 0 || dd_minor != 4 {
        return Err(Errno::Inval);
    }
    Ok(())
}

/// The ids of a list of objects.
pub open spec fn raw_ids(ids: Seq<KmsObjectId>) -> Seq<u32> {
    Seq::new(ids.len(), |i: int| ids[i].0)
}

fn ids_of(ids: &Vec<KmsObjectId>) -> (r: Vec<u32>)
    ensures
        r@ == raw_ids(ids@),
{
    let mut r: Vec<u32> = Vec::new();
    let mut i: usize = 0;
    while i < ids.len()
        invariant
            i <= ids@.len(),
            r@ == raw_ids(ids@.take(i as int)),
        decreases ids.len() - i,
    {
        r.push(ids[i].0);
        i += 1;
        assert(r@ =~= raw_ids(ids@.take(i as int)));
    }
    assert(ids@.take(ids@.len() as int) =~= ids@);
    r
}

/// The answer to a card resources request.
pub struct CardRes {
    pub fb_ids: Vec<u32>,
    pub crtc_ids: Vec<u32>,
    pub connector_ids: Vec<u32>,
    pub encoder_ids: Vec<u32>,
    pub min_width: u32,
    pub max_width: u32,
    pub min_height: u32,
    pub max_height: u32,
}

/// The card's resources: the ids of its framebuffers, CRTCs, connectors
/// and encoders, and the display sizes it takes (0 to 16384 each way).
pub fn card_res(objects: &KmsObjects) -> (r: CardRes)
    ensures
        r.fb_ids@ == raw_ids(objects.framebuffers@),
        r.crtc_ids@ == raw_ids(objects.crtcs@),
        r.connector_ids@ == raw_ids(objects.connectors@),
        r.encoder_ids@ == raw_ids(objects.encoders@),
        r.min_width == 0 && r.max_width == 16384 && r.min_height == 0 && r.max_height == 16384,
{
    CardRes {
        fb_ids: ids_of(&objects.framebuffers),
        crtc_ids: ids_of(&objects.crtcs),
        connector_ids: ids_of(&objects.connectors),
        encoder_ids: ids_of(&objects.encoders),
        min_width: 0,
        max_width: 16384,
        min_height: 0,
        max_height: 16384,
    }
}

/// The answer to a get-CRTC request.
#[derive(Debug, Copy, Clone)]
pub struct CrtcReply {
    pub fb_id: u32,
    pub x: u32,
    pub y: u32,
    pub gamma_size: u32,
    pub mode: Option<KmsMode>,
}

/// The CRTC `crtc_id`: the framebuffer of its primary plane (0 for none),
/// its gamma size and mode; ENOENT when there is no such CRTC.
pub fn get_crtc(objects: &KmsObjects, crtc_id: u32) -> (r: Result<CrtcReply, Errno>)
    requires
        objects.wf(),
        objects.lookup(crtc_id) matches Some(KmsObject::Crtc(c)) ==> objects.lookup(c.primary_plane.0) matches Some(KmsObject::Plane(_)),
    ensures
        match objects.lookup(crtc_id) {
            Some(KmsObject::Crtc(c)) => r matches Ok(reply) && (objects.lookup(c.primary_plane.0) matches Some(KmsObject::Plane(p))
                && reply.fb_id == (match p.state.fb_id { Some(f) => f.0, None => 0 })
                && reply.x == 0 && reply.y == 0 && reply.gamma_size == c.gamma_size && reply.mode == c.state.mode),
            _ => r is Err && r == Err::<CrtcReply, Errno>(Errno::NoEnt),
        },
{
    let crtc = objects.get_crtc(KmsObjectId(crtc_id))?;
    let plane = objects.get_plane(crtc.primary_plane).unwrap();
    let fb_id = match plane.state.fb_id {
        Some(f) => f.0,
        None => 0,
    };
    Ok(CrtcReply { fb_id, x: 0, y: 0, gamma_size: crtc.gamma_size, mode: crtc.state.mode })
}

/// The encoder `encoder_id`; ENOENT when there is none.
pub fn get_encoder(objects: &KmsObjects, encoder_id: u32) -> (r: Result<DrmEncoderReply, Errno>)
    requires
        objects.wf(),
    ensures
        match objects.lookup(encoder_id) {
            Some(KmsObject::Encoder(e)) => r == Ok::<DrmEncoderReply, Errno>(DrmEncoderReply {
                crtc_id: e.crtc_id.0,
                possible_crtcs: e.possible_crtcs,
                possible_clones: e.possible_clones,
            }),
            _ => r == Err::<DrmEncoderReply, Errno>(Errno::NoEnt),
        },
{
    let e = objects.get_encoder(KmsObjectId(encoder_id))?;
    Ok(DrmEncoderReply { crtc_id: e.crtc_id.0, possible_crtcs: e.possible_crtcs, possible_clones: e.possible_clones })
}

/// The answer to a get-encoder request.
#[derive(Debug, Copy, Clone, PartialEq, Eq, Structural)]
pub struct DrmEncoderReply {
    pub crtc_id: u32,
    pub possible_crtcs: u32,
    pub possible_clones: u32,
}

/// The answer to a get-property request.
pub struct PropertyReply {
    pub name: [u8; 32],
    pub flags: u32,
    pub values: Vec<u64>,
    pub enum_blobs: Vec<PropEnum>,
}

/// The `DRM_MODE_PROP_*` flags of a property.
pub open spec fn property_flags(p: KmsProperty) -> u32 {
    let base: u32 = (if p.immutable { DRM_MODE_PROP_IMMUTABLE } else { 0u32 }) | (if p.atomic { DRM_MODE_PROP_ATOMIC } else { 0u32 });
    base | match p.kind {
        KmsPropertyKind::Range(_, _) => DRM_MODE_PROP_RANGE,
        KmsPropertyKind::Enum(_) => DRM_MODE_PROP_ENUM,
        KmsPropertyKind::Blob => DRM_MODE_PROP_BLOB,
        KmsPropertyKind::Bitmask(_) => DRM_MODE_PROP_BITMASK,
        KmsPropertyKind::Object { .. } => DRM_MODE_PROP_OBJECT,
        KmsPropertyKind::SignedRange(_, _) => DRM_MODE_PROP_SIGNED_RANGE,
    }
}

/// The values a property lists: a range's bounds (a signed one as their
/// two's complement bits), the values of its enum or bitmask entries, the
/// object type of an object property, none for a blob property.
pub open spec fn property_values(kind: KmsPropertyKind) -> Seq<u64> {
    match kind {
        KmsPropertyKind::Range(a, b) => seq![a, b],
        KmsPropertyKind::Enum(v) => Seq::new(v@.len(), |i: int| v@[i].value),
        KmsPropertyKind::Blob => Seq::empty(),
        KmsPropertyKind::Bitmask(v) => Seq::new(v@.len(), |i: int| v@[i].value),
        KmsPropertyKind::Object { type_ } => seq![type_ as u64],
        KmsPropertyKind::SignedRange(a, b) => seq![a as u64, b as u64],
    }
}

/// The named entries a property lists: those of an enum or bitmask.
pub open spec fn property_enums(kind: KmsPropertyKind) -> Seq<PropEnum> {
    match kind {
        KmsPropertyKind::Enum(v) => v@,
        KmsPropertyKind::Bitmask(v) => v@,
        _ => Seq::empty(),
    }
}

use crate::kms::KmsProperty;

fn enum_values(v: &Vec<PropEnum>) -> (r: Vec<u64>)
    ensures
        r@ == Seq::new(v@.len(), |i: int| v@[i].value),
{
    let mut r: Vec<u64> = Vec::new();
    let mut i: usize = 0;
    while i < v.len()
        invariant
            i <= v@.len(),
            r@ == Seq::new(i as nat, |k: int| v@[k].value),
        decreases v.len() - i,
    {
        r.push(v[i].value);
        i += 1;
        assert(r@ =~= Seq::new(i as nat, |k: int| v@[k].value));
    }
    r
}

/// The property `prop_id`: its name, flags, values and named entries;
/// ENOENT when there is no such property.
pub fn get_property(objects: &KmsObjects, prop_id: u32) -> (r: Result<PropertyReply, Errno>)
    requires
        objects.wf(),
    ensures
        match objects.lookup(prop_id) {
            Some(KmsObject::Property(p)) => r matches Ok(reply) && reply.name == p.name && reply.flags == property_flags(p)
                && reply.values@ == property_values(p.kind) && reply.enum_blobs@ == property_enums(p.kind),
            _ => r is Err && r == Err::<PropertyReply, Errno>(Errno::NoEnt),
        },
{
    let property = objects.get_property(KmsObjectId(prop_id))?;
    let flags: u32 = (if property.immutable { DRM_MODE_PROP_IMMUTABLE } else { 0u32 }) | (if property.atomic { DRM_MODE_PROP_ATOMIC } else { 0u32 });
    let reply = match &property.kind {
        KmsPropertyKind::Range(start, end) => PropertyReply {
            name: property.name,
            flags: flags | DRM_MODE_PROP_RANGE,
            values: vec![*start, *end],
            enum_blobs: Vec::new(),
        },
        KmsPropertyKind::Enum(variants) => PropertyReply {
            name: property.name,
            flags: flags | DRM_MODE_PROP_ENUM,
            values: enum_values(variants),
            enum_blobs: crate::kms::copy_enums(variants),
        },
        KmsPropertyKind::Blob => PropertyReply {
            name: property.name,
            flags: flags | DRM_MODE_PROP_BLOB,
            values: Vec::new(),
            enum_blobs: Vec::new(),
        },
        KmsPropertyKind::Bitmask(bitmask_flags) => PropertyReply {
            name: property.name,
            flags: flags | DRM_MODE_PROP_BITMASK,
            values: enum_values(bitmask_flags),
            enum_blobs: crate::kms::copy_enums(bitmask_flags),
        },
        KmsPropertyKind::Object { type_ } => PropertyReply {
            name: property.name,
            flags: flags | DRM_MODE_PROP_OBJECT,
            values: vec![*type_ as u64],
            enum_blobs: Vec::new(),
        },
        KmsPropertyKind::SignedRange(start, end) => PropertyReply {
            name: property.name,
            flags: flags | DRM_MODE_PROP_SIGNED_RANGE,
            values: vec![*start as u64, *end as u64],
            enum_blobs: Vec::new(),
        },
    };
    proof {
        assert(reply.values@ =~= property_values(property.kind));
        assert(reply.enum_blobs@ =~= property_enums(property.kind));
    }
    Ok(reply)
}

/// `drm_fourcc::DrmFourcc::try_from` recognizes the format code.
pub uninterp spec fn drm_fourcc_known(code: u32) -> bool;

/// Whether `drm_fourcc` knows the pixel format `code`
/// (`DrmFourcc::try_from(code).is_ok()`); it knows the 32-bit XRGB and ARGB
/// formats.
#[verifier::external_body]
fn fourcc_known(code: u32) -> (known: bool)
    ensures
        known == drm_fourcc_known(code),
        code == DRM_FORMAT_XRGB8888 ==> known,
        code == DRM_FORMAT_ARGB8888 ==> known,
{
    drm_fourcc::DrmFourcc::try_from(code).is_ok()
}

/// The answer to a get-framebuffer request.
#[derive(Debug, Copy, Clone, PartialEq, Eq, Structural)]
pub struct FbReply {
    pub width: u32,
    pub height: u32,
    pub pitch: u32,
    pub bpp: u32,
    pub depth: u32,
    pub pixel_format: u32,
    pub handle: u32,
}

/// The framebuffer `fb_id` (closed or not), with a new buffer handle on its
/// buffer for the client; ENOENT when there is none. `bpp` and `depth`
/// describe the XRGB (32, 24) and ARGB (32, 32) formats.
pub fn get_fb(objects: &KmsObjects, handle: &mut DrmHandle, fb_id: u32) -> (r: Result<FbReply, Errno>)
    requires
        objects.wf(),
        old(handle).next_id < u32::MAX,
        objects.lookup(fb_id) matches Some(KmsObject::Framebuffer(f)) ==> f.pixel_format == DRM_FORMAT_XRGB8888
            || f.pixel_format == DRM_FORMAT_ARGB8888,
    ensures
        final(handle).vt == old(handle).vt,
        match objects.lookup(fb_id) {
            Some(KmsObject::Framebuffer(f)) => r matches Ok(reply) && reply == (FbReply {
                width: f.width,
                height: f.height,
                pitch: f.pitch,
                bpp: 32,
                depth: if f.pixel_format == DRM_FORMAT_XRGB8888 { 24 } else { 32 },
                pixel_format: f.pixel_format,
                handle: (old(handle).next_id + 1) as u32,
            }) && final(handle).next_id == reply.handle && buffer_of(final(handle).buffers@, reply.handle)
                == Some(f.buffer),
            _ => r == Err::<FbReply, Errno>(Errno::NoEnt) && *final(handle) == *old(handle),
        },
{
    let fb = objects.get_framebuffer_maybe_closed(KmsObjectId(fb_id))?;
    let depth: u32 = if fb.pixel_format == DRM_FORMAT_XRGB8888 { 24 } else { 32 };
    let h = handle.insert_buffer(fb.buffer);
    Ok(FbReply { width: fb.width, height: fb.height, pitch: fb.pitch, bpp: 32, depth, pixel_format: fb.pixel_format, handle: h })
}

/// The answer to a get-framebuffer request of the second form: one plane.
#[derive(Debug, Copy, Clone, PartialEq, Eq, Structural)]
pub struct Fb2Reply {
    pub width: u32,
    pub height: u32,
    pub pixel_format: u32,
    pub handle: u32,
    pub pitch: u32,
}

/// The framebuffer `fb_id` (closed or not) in the second form, with a new
/// buffer handle on its buffer for the client; ENOENT when there is none.
pub fn get_fb2(objects: &KmsObjects, handle: &mut DrmHandle, fb_id: u32) -> (r: Result<Fb2Reply, Errno>)
    requires
        objects.wf(),
        old(handle).next_id < u32::MAX,
    ensures
        final(handle).vt == old(handle).vt,
        match objects.lookup(fb_id) {
            Some(KmsObject::Framebuffer(f)) => r matches Ok(reply) && reply == (Fb2Reply {
                width: f.width,
                height: f.height,
                pixel_format: f.pixel_format,
                handle: (old(handle).next_id + 1) as u32,
                pitch: f.pitch,
            }) && final(handle).next_id == reply.handle && buffer_of(final(handle).buffers@, reply.handle)
                == Some(f.buffer),
            _ => r == Err::<Fb2Reply, Errno>(Errno::NoEnt) && *final(handle) == *old(handle),
        },
{
    let fb = match objects.get_framebuffer_maybe_closed(KmsObjectId(fb_id)) {
        Ok(fb) => fb,
        Err(e) => return Err(e),
    };
    let h = handle.insert_buffer(fb.buffer);
    Ok(Fb2Reply { width: fb.width, height: fb.height, pixel_format: fb.pixel_format, handle: h, pitch: fb.pitch })
}

/// Adds a framebuffer on the buffer under handle `buffer_handle`: EINVAL
/// when there is no such buffer, when `bpp` is not 32 or `depth` neither 24
/// (XRGB) nor 32 (ARGB). Returns the new framebuffer's id.
pub fn add_fb(
    objects: &mut KmsObjects,
    handle: &DrmHandle,
    width: u32,
    height: u32,
    pitch: u32,
    bpp: u32,
    depth: u32,
    buffer_handle: u32,
) -> (r: Result<KmsObjectId, Errno>)
    requires
        old(objects).wf(),
        old(objects).next_id < u32::MAX,
    ensures
        final(objects).wf(),
        match (buffer_of(handle.buffers@, buffer_handle), bpp == 32 && (depth == 24 || depth == 32)) {
            (Some(b), true) => r matches Ok(id) && id.0 == old(objects).next_id && final(objects).lookup(id.0)
                == Some(KmsObject::Framebuffer(KmsFramebuffer {
                closed: false,
                width,
                height,
                pixel_format: if depth == 24 { DRM_FORMAT_XRGB8888 } else { DRM_FORMAT_ARGB8888 },
                pitch,
                buffer: b,
            })) && others_unchanged(*old(objects), *final(objects), id.0)
                && final(objects).framebuffers@ == old(objects).framebuffers@.push(id),
            _ => r == Err::<KmsObjectId, Errno>(Errno::Inval) && *final(objects) == *old(objects),
        },
{
    let buffer = match handle.find_buffer(buffer_handle) {
        Some(b) => b,
        None => return Err(Errno::Inval),
    };
    if bpp != 32 {
        return Err(Errno::Inval);
    }
    let pixel_format = if depth == 24 {
        DRM_FORMAT_XRGB8888
    } else if depth == 32 {
        DRM_FORMAT_ARGB8888
    } else {
        return Err(Errno::Inval);
    };
    let id = objects.add_framebuffer(KmsFramebuffer { closed: false, width, height, pixel_format, pitch, buffer });
    Ok(id)
}

/// Adds a framebuffer of pixel format `pixel_format` on the buffer under
/// handle `buffer_handle` (the first plane of the request), where
/// `format_known` tells whether `drm_fourcc` knows the format: EINVAL when
/// there is no such buffer or the format is unknown.
pub fn add_fb2_known(
    objects: &mut KmsObjects,
    handle: &DrmHandle,
    width: u32,
    height: u32,
    pixel_format: u32,
    pitch: u32,
    buffer_handle: u32,
    format_known: bool,
) -> (r: Result<KmsObjectId, Errno>)
    requires
        old(objects).wf(),
        old(objects).next_id < u32::MAX,
    ensures
        final(objects).wf(),
        match buffer_of(handle.buffers@, buffer_handle) {
            Some(b) => if format_known {
                r matches Ok(id) && id.0 == old(objects).next_id && final(objects).lookup(id.0) == Some(
                    KmsObject::Framebuffer(KmsFramebuffer { closed: false, width, height, pixel_format, pitch, buffer: b }),
                ) && others_unchanged(*old(objects), *final(objects), id.0)
                    && final(objects).framebuffers@ == old(objects).framebuffers@.push(id)
            } else {
                r == Err::<KmsObjectId, Errno>(Errno::Inval) && *final(objects) == *old(objects)
            },
            None => r == Err::<KmsObjectId, Errno>(Errno::Inval) && *final(objects) == *old(objects),
        },
{
    let buffer = match handle.find_buffer(buffer_handle) {
        Some(b) => b,
        None => return Err(Errno::Inval),
    };
    if !format_known {
        return Err(Errno::Inval);
    }
    let id = objects.add_framebuffer(KmsFramebuffer { closed: false, width, height, pixel_format, pitch, buffer });
    Ok(id)
}

/// Adds a framebuffer of pixel format `pixel_format` on the buffer under
/// handle `buffer_handle` (the first plane of the request): EINVAL when
/// there is no such buffer or `drm_fourcc` does not know the format.
pub fn add_fb2(
    objects: &mut KmsObjects,
    handle: &DrmHandle,
    width: u32,
    height: u32,
    pixel_format: u32,
    pitch: u32,
    buffer_handle: u32,
) -> (r: Result<KmsObjectId, Errno>)
    requires
        old(objects).wf(),
        old(objects).next_id < u32::MAX,
    ensures
        final(objects).wf(),
        match buffer_of(handle.buffers@, buffer_handle) {
            Some(b) => if drm_fourcc_known(pixel_format) {
                r matches Ok(id) && id.0 == old(objects).next_id && final(objects).lookup(id.0) == Some(
                    KmsObject::Framebuffer(KmsFramebuffer { closed: false, width, height, pixel_format, pitch, buffer: b }),
                ) && others_unchanged(*old(objects), *final(objects), id.0)
                    && final(objects).framebuffers@ == old(objects).framebuffers@.push(id)
            } else {
                r == Err::<KmsObjectId, Errno>(Errno::Inval) && *final(objects) == *old(objects)
            },
            None => r == Err::<KmsObjectId, Errno>(Errno::Inval) && *final(objects) == *old(objects),
        },
{
    let known = fourcc_known(pixel_format);
    add_fb2_known(objects, handle, width, height, pixel_format, pitch, buffer_handle, known)
}

/// A plane to set on the hardware: its position in the plane list, its id,
/// the state to give it and the damage to send.
#[derive(Debug, Copy, Clone)]
pub struct PlaneUpdate {
    pub plane_index: usize,
    pub state: KmsPlaneState,
    pub damage: Damage,
}

/// The empty damage.
pub open spec fn no_damage() -> Damage {
    Damage { x: 0, y: 0, width: 0, height: 0 }
}

/// The plane states `ps` with no plane showing `fb` any more.
pub open spec fn unset_planes(ps: Seq<KmsPlaneState>, fb: KmsObjectId) -> Seq<KmsPlaneState> {
    Seq::new(ps.len(), |p: int| if ps[p].fb_id == Some(fb) { KmsPlaneState { fb_id: None, ..ps[p] } } else { ps[p] })
}

/// The VT states with no plane showing `fb` any more.
pub open spec fn unset_fb(vts: Seq<VtState>, fb: KmsObjectId) -> Seq<Seq<KmsPlaneState>> {
    Seq::new(vts.len(), |v: int| unset_planes(vts[v].plane_state@, fb))
}

/// The planes among `ps` (the plane states of a VT, by plane index) that
/// show `fb`, in order, each to be set again without a framebuffer and
/// with no damage.
pub open spec fn fb_plane_updates(ps: Seq<KmsPlaneState>, fb: KmsObjectId) -> Seq<PlaneUpdate>
    decreases ps.len(),
{
    if ps.len() == 0 {
        Seq::empty()
    } else {
        fb_plane_updates(ps.drop_last(), fb) + if ps.last().fb_id == Some(fb) {
            seq![PlaneUpdate { plane_index: (ps.len() - 1) as usize, state: KmsPlaneState { fb_id: None, ..ps.last() }, damage: no_damage() }]
        } else {
            Seq::empty()
        }
    }
}

/// The plane updates of every VT in `vts` that is the active VT, in order.
pub open spec fn active_fb_updates(vts: Seq<VtState>, active_vt: usize, fb: KmsObjectId) -> Seq<PlaneUpdate>
    decreases vts.len(),
{
    if vts.len() == 0 {
        Seq::empty()
    } else {
        active_fb_updates(vts.drop_last(), active_vt, fb) + if vts.last().vt == active_vt {
            fb_plane_updates(vts.last().plane_state@, fb)
        } else {
            Seq::empty()
        }
    }
}

/// Removes the framebuffer `fb_id` (ENOENT when there is none) and takes
/// it off every plane of every VT. Returns the planes of the active VT
/// that must be set again on the hardware, in order.
#[verifier::spinoff_prover]
pub fn rm_fb(objects: &mut KmsObjects, active_vt: usize, vts: &mut Vec<VtState>, fb_id: u32) -> (r: Result<Vec<PlaneUpdate>, Errno>)
    requires
        old(objects).wf(),
    ensures
        final(objects).wf(),
        match old(objects).lookup(fb_id) {
            Some(KmsObject::Framebuffer(_)) => r is Ok && (final(objects).lookup(fb_id) is None)
                && others_unchanged(*old(objects), *final(objects), fb_id) && final(vts)@.len() == old(vts)@.len()
                && (forall|v: int| 0 <= v < final(vts)@.len() ==> #[trigger] final(vts)@[v].plane_state@ == unset_fb(old(vts)@, KmsObjectId(fb_id))[v]
                    && final(vts)@[v].vt == old(vts)@[v].vt),
            _ => r == Err::<Vec<PlaneUpdate>, Errno>(Errno::NoEnt) && *final(objects) == *old(objects) && final(vts)@ == old(vts)@,
        },
        r matches Ok(updates) ==> updates@ == active_fb_updates(old(vts)@, active_vt, KmsObjectId(fb_id)),
{
    let fb = KmsObjectId(fb_id);
    objects.remove_framebuffer(fb)?;
    let ghost old_vts = vts@;
    let mut updates: Vec<PlaneUpdate> = Vec::new();
    let mut v: usize = 0;
    while v < vts.len()
        invariant
            v <= vts@.len(),
            fb == KmsObjectId(fb_id),
            vts@.len() == old_vts.len(),
            forall|a: int| 0 <= a < v ==> #[trigger] vts@[a].plane_state@ == unset_fb(old_vts, fb)[a] && vts@[a].vt == old_vts[a].vt,
            forall|a: int| v <= a < vts@.len() ==> #[trigger] vts@[a] == old_vts[a],
            updates@ == active_fb_updates(old_vts.take(v as int), active_vt, fb),
        decreases vts.len() - v,
    {
        let ghost before = vts@;
        let mut entry = vts.remove(v);
        assert(entry == old_vts[v as int]);
        clear_fb_planes(&mut entry, fb, active_vt, &mut updates);
        assert(updates@ == active_fb_updates(old_vts.take(v + 1), active_vt, fb)) by {
            assert(old_vts.take(v + 1).drop_last() =~= old_vts.take(v as int));
            assert(old_vts.take(v + 1).last() == old_vts[v as int]);
        }
        let ghost done = entry;
        vts.insert(v, entry);
        proof {
            assert(vts@ =~= before.update(v as int, done));
            assert forall|a: int| 0 <= a < v + 1 implies #[trigger] vts@[a].plane_state@ == unset_fb(old_vts, fb)[a] && vts@[a].vt == old_vts[a].vt by {
                if a < v {
                    assert(vts@[a] == before[a]);
                } else {
                    assert(vts@[a] == done);
                }
            }
        }
        v += 1;
    }
    assert(old_vts.take(old_vts.len() as int) =~= old_vts);
    Ok(updates)
}

/// Takes the framebuffer `fb` off every plane of the VT state `entry`;
/// when it is the active VT's, the planes to set again are added to
/// `updates`, in order.
fn clear_fb_planes(entry: &mut VtState, fb: KmsObjectId, active_vt: usize, updates: &mut Vec<PlaneUpdate>)
    ensures
        final(entry).vt == old(entry).vt,
        final(entry).plane_state@ == unset_planes(old(entry).plane_state@, fb),
        final(updates)@ == old(updates)@ + if old(entry).vt == active_vt {
            fb_plane_updates(old(entry).plane_state@, fb)
        } else {
            Seq::empty()
        },
{
    let ghost start = entry.plane_state@;
    let ghost u0 = updates@;
    let mut p: usize = 0;
    while p < entry.plane_state.len()
        invariant
            entry.vt == old(entry).vt,
            start == old(entry).plane_state@,
            u0 == old(updates)@,
            entry.plane_state@.len() == start.len(),
            p <= start.len(),
            forall|q: int| 0 <= q < p ==> #[trigger] entry.plane_state@[q] == unset_planes(start, fb)[q],
            forall|q: int| p <= q < start.len() ==> #[trigger] entry.plane_state@[q] == start[q],
            updates@ == u0 + if entry.vt == active_vt { fb_plane_updates(start.take(p as int), fb) } else { Seq::empty() },
        decreases start.len() - p,
    {
        proof {
            assert(start.take(p + 1).drop_last() =~= start.take(p as int));
            assert(start.take(p + 1).last() == start[p as int]);
        }
        let st = entry.plane_state[p];
        let uses = match st.fb_id {
            Some(f) => f.0 == fb.0,
            None => false,
        };
        assert(uses == (st.fb_id == Some(fb)));
        if uses {
            let new_st = KmsPlaneState { fb_id: None, ..st };
            entry.plane_state.set(p, new_st);
            if entry.vt == active_vt {
                updates.push(PlaneUpdate { plane_index: p, state: new_st, damage: Damage { x: 0, y: 0, width: 0, height: 0 } });
            }
        }
        proof {
            if entry.vt == active_vt {
                assert(updates@ =~= u0 + fb_plane_updates(start.take(p + 1), fb));
            } else {
                assert(updates@ =~= u0 + Seq::<PlaneUpdate>::empty());
            }
        }
        p += 1;
    }
    assert(start.take(start.len() as int) =~= start);
    assert(entry.plane_state@ =~= unset_planes(start, fb));
}

/// Closes the framebuffer `fb_id` (ENOENT when there is none or it is
/// closed already): it is removed at once when no plane of any VT shows it,
/// and otherwise when the last one stops showing it.
pub fn close_fb(objects: &mut KmsObjects, vts: &Vec<VtState>, fb_id: u32) -> (r: Result<(), Errno>)
    requires
        old(objects).wf(),
    ensures
        final(objects).wf(),
        others_unchanged(*old(objects), *final(objects), fb_id),
        match old(objects).lookup(fb_id) {
            Some(KmsObject::Framebuffer(f)) => if f.closed {
                r == Err::<(), Errno>(Errno::NoEnt) && *final(objects) == *old(objects)
            } else if fb_used(vts@, KmsObjectId(fb_id)) {
                r is Ok && final(objects).lookup(fb_id) == Some(KmsObject::Framebuffer(KmsFramebuffer { closed: true, ..f }))
            } else {
                r is Ok && final(objects).lookup(fb_id) is None
            },
            _ => r == Err::<(), Errno>(Errno::NoEnt) && *final(objects) == *old(objects),
        },
{
    let id = KmsObjectId(fb_id);
    let fb = objects.get_framebuffer(id)?;
    let i = objects.find(id).unwrap();
    objects.replace_object(i, KmsObject::Framebuffer(KmsFramebuffer { closed: true, ..fb }));
    if !fb_has_any_use(vts, id) {
        let ghost mid = *objects;
        let _ = objects.remove_framebuffer(id);
        proof {
            assert forall|x: u32| x != fb_id implies #[trigger] objects.lookup(x) == old(objects).lookup(x) by {
                assert(mid.lookup(x) == old(objects).lookup(x));
            }
        }
    }
    Ok(())
}

/// The damage a dirty-framebuffer request reports: the bounding box of its
/// clip rectangles, or the whole framebuffer when it gives none.
pub open spec fn dirty_damage(clips: Seq<(u16, u16, u16, u16)>, fb_width: u32, fb_height: u32) -> Damage
    decreases clips.len(),
{
    if clips.len() == 0 {
        Damage { x: 0, y: 0, width: fb_width, height: fb_height }
    } else if clips.len() == 1 {
        clip_damage(clips[0])
    } else {
        dirty_damage(clips.drop_last(), fb_width, fb_height).spec_merge(clip_damage(clips.last()))
    }
}

/// The damage of one clip rectangle `(x1, y1, x2, y2)`.
pub open spec fn clip_damage(c: (u16, u16, u16, u16)) -> Damage {
    Damage { x: c.0 as u32, y: c.1 as u32, width: (c.2 - c.0) as u32, height: (c.3 - c.1) as u32 }
}

/// Every clip rectangle has its far corner past its near one.
pub open spec fn clips_ordered(clips: Seq<(u16, u16, u16, u16)>) -> bool {
    forall|i: int| 0 <= i < clips.len() ==> (#[trigger] clips[i]).0 <= clips[i].2 && clips[i].1 <= clips[i].3
}

proof fn lemma_dirty_damage_small(clips: Seq<(u16, u16, u16, u16)>, w: u32, h: u32)
    requires
        clips_ordered(clips),
        clips.len() > 0,
    ensures
        dirty_damage(clips, w, h).x + dirty_damage(clips, w, h).width <= 65535,
        dirty_damage(clips, w, h).y + dirty_damage(clips, w, h).height <= 65535,
    decreases clips.len(),
{
    if clips.len() > 1 {
        lemma_dirty_damage_small(clips.drop_last(), w, h);
        assert(clips.last() == clips[clips.len() - 1]);
    } else {
        assert(clips[0] == clips[0]);
    }
}

/// The damage of a dirty-framebuffer request on the framebuffer `fb_id`
/// (ENOENT when there is none or it is closed), and, when the handle's VT
/// is the active one, the planes showing it, to be set again with that
/// damage.
pub fn dirty_fb(objects: &KmsObjects, handle_vt: usize, active_vt: usize, fb_id: u32, clips: &Vec<(u16, u16, u16, u16)>) -> (r: Result<(Damage, Vec<KmsObjectId>), Errno>)
    requires
        objects.wf(),
        clips_ordered(clips@),
    ensures
        match objects.lookup(fb_id) {
            Some(KmsObject::Framebuffer(f)) => if f.closed {
                r == Err::<(Damage, Vec<KmsObjectId>), Errno>(Errno::NoEnt)
            } else {
                r matches Ok((d, planes)) && d == dirty_damage(clips@, f.width, f.height)
                    && (handle_vt != active_vt ==> planes@.len() == 0)
                    && (handle_vt == active_vt ==> planes@ == objects.planes@.filter(|p: KmsObjectId| shows_fb(*objects, p, fb_id)))
            },
            _ => r == Err::<(Damage, Vec<KmsObjectId>), Errno>(Errno::NoEnt),
        },
{
    let fb = objects.get_framebuffer(KmsObjectId(fb_id))?;
    let mut damage = Damage { x: 0, y: 0, width: fb.width, height: fb.height };
    let mut i: usize = 0;
    while i < clips.len()
        invariant
            i <= clips@.len(),
            clips_ordered(clips@),
            i > 0 ==> damage == dirty_damage(clips@.take(i as int), fb.width, fb.height),
            i == 0 ==> damage == (Damage { x: 0, y: 0, width: fb.width, height: fb.height }),
        decreases clips.len() - i,
    {
        let c = clips[i];
        let d = Damage { x: c.0 as u32, y: c.1 as u32, width: (c.2 - c.0) as u32, height: (c.3 - c.1) as u32 };
        proof {
            assert(clips@.take(i + 1).drop_last() =~= clips@.take(i as int));
            assert(clips_ordered(clips@.take(i + 1)));
            if i > 0 {
                assert(clips_ordered(clips@.take(i as int)));
                lemma_dirty_damage_small(clips@.take(i as int), fb.width, fb.height);
            }
        }
        if i == 0 {
            damage = d;
        } else {
            damage = damage.merge(d);
        }
        i += 1;
    }
    assert(clips@.take(clips@.len() as int) =~= clips@);
    let mut planes: Vec<KmsObjectId> = Vec::new();
    if handle_vt == active_vt {
        let ghost pred = |p: KmsObjectId| shows_fb(*objects, p, fb_id);
        let mut k: usize = 0;
        while k < objects.planes.len()
            invariant
                k <= objects.planes@.len(),
                objects.wf(),
                pred == (|p: KmsObjectId| shows_fb(*objects, p, fb_id)),
                planes@ == objects.planes@.take(k as int).filter(pred),
            decreases objects.planes.len() - k,
        {
            let pid = objects.planes[k];
            proof {
                assert(objects.planes@.take(k + 1) =~= objects.planes@.take(k as int).push(pid));
                objects.planes@.take(k as int).lemma_filter_push(pid, pred);
            }
            let shows = match objects.get_plane(pid) {
                Ok(p) => match p.state.fb_id {
                    Some(f) => f.0 == fb_id,
                    None => false,
                },
                Err(_) => false,
            };
            if shows {
                planes.push(pid);
            }
            k += 1;
        }
        assert(objects.planes@.take(objects.planes@.len() as int) =~= objects.planes@);
    }
    Ok((damage, planes))
}

/// The plane `p` shows the framebuffer `fb_id`.
pub open spec fn shows_fb(o: KmsObjects, p: KmsObjectId, fb_id: u32) -> bool {
    o.lookup(p.0) matches Some(KmsObject::Plane(pl)) && pl.state.fb_id == Some(KmsObjectId(fb_id))
}

/// Checks a create-dumb-buffer request: only 32 bits per pixel and no flags
/// are supported (EINVAL otherwise).
pub fn create_dumb_check(bpp: u32, flags: u32) -> (r: Result<(), Errno>)
    ensures
        r is Ok <==> bpp == 32 && flags == 0,
        r is Err ==> r == Err::<(), Errno>(Errno::Inval),
{
    if bpp != 32 || flags != 0 {
        return Err(Errno::Inval);
    }
    Ok(())
}

/// The map offset of the dumb buffer under handle `buffer_handle`: EINVAL
/// unless the request's offset is 0, ENOENT when there is no such buffer.
pub fn map_dumb(handle: &DrmHandle, offset: u64, buffer_handle: u32) -> (r: Result<u64, Errno>)
    requires
        buffer_of(handle.buffers@, buffer_handle) matches Some(b) ==> b.size < MAP_FAKE_OFFSET_MULTIPLIER,
    ensures
        offset != 0 ==> r == Err::<u64, Errno>(Errno::Inval),
        offset == 0 && buffer_of(handle.buffers@, buffer_handle) is None ==> r == Err::<u64, Errno>(Errno::NoEnt),
        offset == 0 && buffer_of(handle.buffers@, buffer_handle) is Some ==> r == Ok::<u64, Errno>(
            (buffer_handle * MAP_FAKE_OFFSET_MULTIPLIER) as u64,
        ),
{
    if offset != 0 {
        return Err(Errno::Inval);
    }
    match handle.find_buffer(buffer_handle) {
        Some(_) => {
            assert(buffer_handle * MAP_FAKE_OFFSET_MULTIPLIER <= u64::MAX) by (nonlinear_arith)
                requires buffer_handle <= u32::MAX, MAP_FAKE_OFFSET_MULTIPLIER == 0x1000_0000u64;
            Ok(buffer_handle as u64 * MAP_FAKE_OFFSET_MULTIPLIER)
        },
        None => Err(Errno::NoEnt),
    }
}

/// Drops the dumb buffer handle `buffer_handle`; ENOENT when there is none.
pub fn destroy_dumb(handle: &mut DrmHandle, buffer_handle: u32) -> (r: Result<(), Errno>)
    ensures
        final(handle).vt == old(handle).vt && final(handle).next_id == old(handle).next_id,
        final(handle).buffers@ == old(handle).buffers@.remove(buffer_handle),
        buffer_of(old(handle).buffers@, buffer_handle) is None ==> r == Err::<(), Errno>(Errno::NoEnt),
        buffer_of(old(handle).buffers@, buffer_handle) is Some ==> r is Ok,
        buffer_of(final(handle).buffers@, buffer_handle) is None,
        forall|x: u32| x != buffer_handle ==> #[trigger] buffer_of(final(handle).buffers@, x) == buffer_of(old(handle).buffers@, x),
{
    match handle.buffers.remove(&buffer_handle) {
        Some(_) => Ok(()),
        None => Err(Errno::NoEnt),
    }
}

/// The ids of the planes.
pub fn plane_res(objects: &KmsObjects) -> (ids: Vec<u32>)
    ensures
        ids@ == raw_ids(objects.planes@),
{
    ids_of(&objects.planes)
}

/// The answer to a get-plane request.
#[derive(Debug, Copy, Clone, PartialEq, Eq, Structural)]
pub struct PlaneReply {
    pub crtc_id: u32,
    pub fb_id: u32,
    pub possible_crtcs: u32,
    pub format: u32,
}

/// The plane `plane_id`: its CRTC and framebuffer (0 for none), the CRTCs
/// it can be on, and its one format, ARGB.
pub fn get_plane(objects: &KmsObjects, plane_id: u32) -> (r: PlaneReply)
    requires
        objects.wf(),
        objects.lookup(plane_id) matches Some(KmsObject::Plane(_)),
    ensures
        objects.lookup(plane_id) matches Some(KmsObject::Plane(p)) && r == (PlaneReply {
            crtc_id: match p.state.crtc_id { Some(c) => c.0, None => 0 },
            fb_id: match p.state.fb_id { Some(f) => f.0, None => 0 },
            possible_crtcs: p.possible_crtcs,
            format: DRM_FORMAT_ARGB8888,
        }),
{
    let p = objects.get_plane(KmsObjectId(plane_id)).unwrap();
    PlaneReply {
        crtc_id: match p.state.crtc_id { Some(c) => c.0, None => 0 },
        fb_id: match p.state.fb_id { Some(f) => f.0, None => 0 },
        possible_crtcs: p.possible_crtcs,
        format: DRM_FORMAT_ARGB8888,
    }
}

/// The properties of the object `obj_id` with their values, and its
/// object type; EINVAL when there is no such object.
pub fn obj_get_properties(objects: &KmsObjects, obj_id: u32) -> (r: Result<(Vec<u32>, Vec<u64>, u32), Errno>)
    requires
        objects.wf(),
    ensures
        match objects.lookup(obj_id) {
            None => r == Err::<(Vec<u32>, Vec<u64>, u32), Errno>(Errno::Inval),
            Some(o) => r matches Ok((ids, vals, t)) && t == o.spec_object_type()
                && ids@.len() == objects.props_of(obj_id).len() && vals@.len() == ids@.len()
                && forall|k: int| 0 <= k < ids@.len() ==> ids@[k] == objects.props_of(obj_id)[k].0.0 && vals@[k] == objects.props_of(obj_id)[k].1,
        },
{
    let (ids, vals) = objects.get_object_properties(KmsObjectId(obj_id))?;
    let t = objects.object_type(KmsObjectId(obj_id))?;
    Ok((ids, vals, t))
}

/// No VT appears twice.
pub open spec fn vts_unique(vts: Seq<VtState>) -> bool {
    forall|i: int, j: int| 0 <= i < j < vts.len() ==> #[trigger] vts[i].vt != #[trigger] vts[j].vt
}

/// Position of the state of VT `vt`, if there is one.
pub fn find_vt(vts: &Vec<VtState>, vt: usize) -> (r: Option<usize>)
    ensures
        match r {
            Some(i) => i < vts@.len() && vts@[i as int].vt == vt,
            None => forall|j: int| 0 <= j < vts@.len() ==> vts@[j].vt != vt,
        },
{
    let mut i: usize = 0;
    while i < vts.len()
        invariant
            i <= vts@.len(),
            forall|j: int| 0 <= j < i ==> vts@[j].vt != vt,
        decreases vts.len() - i,
    {
        if vts[i].vt == vt {
            return Some(i);
        }
        i += 1;
    }
    None
}

/// A plane state change asked by a set-plane request, to be made on the
/// hardware when `update` holds and then committed.
#[derive(Debug, Copy, Clone)]
pub struct SetPlanePlan {
    pub plane_id: KmsObjectId,
    pub plane_index: usize,
    pub state: KmsPlaneState,
    /// The handle's VT is the active one: the hardware must be set.
    pub update: bool,
}

/// The state a set-plane request gives a plane: the framebuffer (id 0 kept
/// as the invalid id), the CRTC, the source and destination rectangles.
pub open spec fn set_plane_state(old: KmsPlaneState, crtc_id: u32, fb_id: u32, src: KmsRect<u32>, dst: KmsRect<i32>) -> KmsPlaneState {
    KmsPlaneState {
        fb_id: Some(KmsObjectId(fb_id)),
        crtc_id: Some(KmsObjectId(crtc_id)),
        src_rect: src,
        crtc_rect: dst,
        ..old
    }
}

/// Plans a set-plane request: ENOENT when `plane_id` is not a plane or
/// `crtc_id` not a CRTC, EINVAL when the plane cannot be used on that CRTC.
pub fn set_plane_plan(
    objects: &KmsObjects,
    handle_vt: usize,
    active_vt: usize,
    plane_id: u32,
    crtc_id: u32,
    fb_id: u32,
    src: KmsRect<u32>,
    dst: KmsRect<i32>,
) -> (r: Result<SetPlanePlan, Errno>)
    requires
        objects.wf(),
        objects.lookup(crtc_id) matches Some(KmsObject::Crtc(c)) ==> c.crtc_index < 32,
    ensures
        match (objects.lookup(plane_id), objects.lookup(crtc_id)) {
            (Some(KmsObject::Plane(p)), Some(KmsObject::Crtc(c))) => if p.possible_crtcs & (1u32 << c.crtc_index) == 0 {
                r == Err::<SetPlanePlan, Errno>(Errno::Inval)
            } else {
                r matches Ok(plan) && plan.plane_id.0 == plane_id && plan.plane_index == p.plane_index
                    && plan.state == set_plane_state(p.state, crtc_id, fb_id, src, dst) && plan.update == (handle_vt == active_vt)
            },
            _ => r == Err::<SetPlanePlan, Errno>(Errno::NoEnt),
        },
{
    let plane = objects.get_plane(KmsObjectId(plane_id))?;
    let crtc = objects.get_crtc(KmsObjectId(crtc_id))?;
    if plane.possible_crtcs & (1u32 << crtc.crtc_index) == 0 {
        return Err(Errno::Inval);
    }
    let state = KmsPlaneState {
        fb_id: Some(KmsObjectId(fb_id)),
        crtc_id: Some(KmsObjectId(crtc_id)),
        src_rect: src,
        crtc_rect: dst,
        ..plane.state
    };
    Ok(SetPlanePlan { plane_id: KmsObjectId(plane_id), plane_index: plane.plane_index as usize, state, update: handle_vt == active_vt })
}

/// Records the new state of plane `plane_index` for VT `vt`.
pub fn commit_vt_plane(vts: &mut Vec<VtState>, vt: usize, plane_index: usize, state: KmsPlaneState)
    requires
        exists|i: int| 0 <= i < old(vts)@.len() && old(vts)@[i].vt == vt && plane_index < old(vts)@[i].plane_state@.len(),
        vts_unique(old(vts)@),
    ensures
        final(vts)@.len() == old(vts)@.len(),
        vts_unique(final(vts)@),
        forall|i: int| 0 <= i < final(vts)@.len() ==> (#[trigger] final(vts)@[i]).vt == old(vts)@[i].vt
            && final(vts)@[i].crtc_state@ == old(vts)@[i].crtc_state@
            && final(vts)@[i].connector_state@ == old(vts)@[i].connector_state@
            && final(vts)@[i].plane_state@ == (if old(vts)@[i].vt == vt {
                old(vts)@[i].plane_state@.update(plane_index as int, state)
            } else {
                old(vts)@[i].plane_state@
            }),
{
    let i = find_vt(vts, vt).unwrap();
    let ghost before = vts@;
    let mut entry = vts.remove(i);
    entry.plane_state.set(plane_index, state);
    vts.insert(i, entry);
    proof {
        assert forall|k: int| 0 <= k < vts@.len() && k != i implies vts@[k] == before[k] by {}
        assert forall|k: int| 0 <= k < vts@.len() && k != i implies before[k].vt != vt by {
            if k < i {
                assert(before[k].vt != before[i as int].vt);
            } else {
                assert(before[i as int].vt != before[k].vt);
            }
        }
        assert forall|a: int, b: int| 0 <= a < b < vts@.len() implies #[trigger] vts@[a].vt != #[trigger] vts@[b].vt by {
            assert(vts@[a].vt == before[a].vt && vts@[b].vt == before[b].vt);
            assert(before[a].vt != before[b].vt);
        }
    }
}

/// Records the new state of CRTC `crtc_index` for VT `vt`.
pub fn commit_vt_crtc(vts: &mut Vec<VtState>, vt: usize, crtc_index: usize, state: KmsCrtcState)
    requires
        exists|i: int| 0 <= i < old(vts)@.len() && old(vts)@[i].vt == vt && crtc_index < old(vts)@[i].crtc_state@.len(),
        vts_unique(old(vts)@),
    ensures
        final(vts)@.len() == old(vts)@.len(),
        vts_unique(final(vts)@),
        forall|i: int| 0 <= i < final(vts)@.len() ==> (#[trigger] final(vts)@[i]).vt == old(vts)@[i].vt
            && final(vts)@[i].plane_state@ == old(vts)@[i].plane_state@
            && final(vts)@[i].connector_state@ == old(vts)@[i].connector_state@
            && final(vts)@[i].crtc_state@ == (if old(vts)@[i].vt == vt {
                old(vts)@[i].crtc_state@.update(crtc_index as int, state)
            } else {
                old(vts)@[i].crtc_state@
            }),
{
    let i = find_vt(vts, vt).unwrap();
    let ghost before = vts@;
    let mut entry = vts.remove(i);
    entry.crtc_state.set(crtc_index, state);
    vts.insert(i, entry);
    proof {
        assert forall|k: int| 0 <= k < vts@.len() && k != i implies vts@[k] == before[k] by {}
        assert forall|k: int| 0 <= k < vts@.len() && k != i implies before[k].vt != vt by {
            if k < i {
                assert(before[k].vt != before[i as int].vt);
            } else {
                assert(before[i as int].vt != before[k].vt);
            }
        }
        assert forall|a: int, b: int| 0 <= a < b < vts@.len() implies #[trigger] vts@[a].vt != #[trigger] vts@[b].vt by {
            assert(vts@[a].vt == before[a].vt && vts@[b].vt == before[b].vt);
            assert(before[a].vt != before[b].vt);
        }
    }
}

/// A cursor request's change of the cursor plane, to be made on the
/// hardware (with `damage`) when `damage` is given, then committed.
#[derive(Debug, Copy, Clone)]
pub struct CursorPlan {
    pub plane_id: KmsObjectId,
    pub plane_index: usize,
    pub state: KmsPlaneState,
    pub old_fb: Option<KmsObjectId>,
    pub damage: Option<Damage>,
}

/// The cursor plane state a cursor request asks for; `new_fb` is the
/// framebuffer made for the new image, when it sets one.
pub open spec fn cursor_state(
    old: KmsPlaneState,
    crtc_id: u32,
    flags: u32,
    x: i32,
    y: i32,
    width: u32,
    height: u32,
    handle_id: u32,
    hot_x: i32,
    hot_y: i32,
    new_fb: KmsObjectId,
) -> KmsPlaneState {
    let s1 = KmsPlaneState { crtc_id: Some(KmsObjectId(crtc_id)), ..old };
    let s2 = if flags & DRM_MODE_CURSOR_BO != 0 {
        if handle_id == 0 {
            KmsPlaneState { fb_id: None, ..s1 }
        } else {
            KmsPlaneState {
                fb_id: Some(new_fb),
                src_rect: KmsRect { x: 0u32, y: 0u32, width, height },
                crtc_rect: KmsRect { width, height, ..s1.crtc_rect },
                hotspot: if s1.hotspot is Some { Some((hot_x, hot_y)) } else { None },
                ..s1
            }
        }
    } else {
        s1
    };
    if flags & DRM_MODE_CURSOR_MOVE != 0 {
        KmsPlaneState { crtc_rect: KmsRect { x, y, ..s2.crtc_rect }, ..s2 }
    } else {
        s2
    }
}

/// Plans a cursor request on CRTC `crtc_id`: ENOENT when it is not a CRTC
/// (or its cursor plane is gone), ENXIO when it has no cursor plane, EINVAL
/// when a new image names a buffer handle the client does not have. A new
/// image gets a framebuffer of its own, closed from the start so that it
/// goes away with the image; ARGB, `4 * width` bytes per line.
pub fn cursor_plan(
    objects: &mut KmsObjects,
    handle: &DrmHandle,
    active_vt: usize,
    crtc_id: u32,
    flags: u32,
    x: i32,
    y: i32,
    width: u32,
    height: u32,
    handle_id: u32,
    hot_x: i32,
    hot_y: i32,
) -> (r: Result<CursorPlan, Errno>)
    requires
        old(objects).wf(),
        old(objects).next_id < u32::MAX,
        width <= u32::MAX / 4,
    ensures
        final(objects).wf(),
        match old(objects).lookup(crtc_id) {
            Some(KmsObject::Crtc(c)) => match c.cursor_plane {
                None => r == Err::<CursorPlan, Errno>(Errno::NxIo) && *final(objects) == *old(objects),
                Some(pid) => match old(objects).lookup(pid.0) {
                    Some(KmsObject::Plane(p)) => {
                        let wants_fb = flags & DRM_MODE_CURSOR_BO != 0 && handle_id != 0;
                        if wants_fb && buffer_of(handle.buffers@, handle_id) is None {
                            r == Err::<CursorPlan, Errno>(Errno::Inval) && *final(objects) == *old(objects)
                        } else {
                            r matches Ok(plan) && plan.plane_id == pid && plan.plane_index == p.plane_index
                                && plan.old_fb == p.state.fb_id
                                && plan.state == cursor_state(p.state, crtc_id, flags, x, y, width, height, handle_id, hot_x, hot_y, KmsObjectId(old(objects).next_id))
                                && (handle.vt == active_vt ==> plan.damage == Some(if flags & DRM_MODE_CURSOR_BO != 0 {
                                    Damage { x: 0, y: 0, width, height }
                                } else {
                                    no_damage()
                                }))
                                && (handle.vt != active_vt ==> plan.damage is None)
                                && (wants_fb ==> (buffer_of(handle.buffers@, handle_id) matches Some(b) && final(objects).lookup(old(objects).next_id) == Some(
                                    KmsObject::Framebuffer(KmsFramebuffer {
                                        closed: true,
                                        width,
                                        height,
                                        pixel_format: DRM_FORMAT_ARGB8888,
                                        pitch: (width * 4) as u32,
                                        buffer: b,
                                    }),
                                )) && others_unchanged(*old(objects), *final(objects), old(objects).next_id))
                                && (!wants_fb ==> *final(objects) == *old(objects))
                        }
                    },
                    _ => r == Err::<CursorPlan, Errno>(Errno::NoEnt) && *final(objects) == *old(objects),
                },
            },
            _ => r == Err::<CursorPlan, Errno>(Errno::NoEnt) && *final(objects) == *old(objects),
        },
{
    let crtc = objects.get_crtc(KmsObjectId(crtc_id))?;
    let plane_id = match crtc.cursor_plane {
        Some(p) => p,
        None => return Err(Errno::NxIo),
    };
    let plane = objects.get_plane(plane_id)?;
    let mut state = KmsPlaneState { crtc_id: Some(KmsObjectId(crtc_id)), ..plane.state };
    let old_fb = plane.state.fb_id;
    if flags & DRM_MODE_CURSOR_BO != 0 {
        if handle_id == 0 {
            state.fb_id = None;
        } else {
            let buffer = match handle.find_buffer(handle_id) {
                Some(b) => b,
                None => return Err(Errno::Inval),
            };
            let fb_id = objects.add_framebuffer(KmsFramebuffer {
                closed: true,
                width,
                height,
                pixel_format: DRM_FORMAT_ARGB8888,
                pitch: width * 4,
                buffer,
            });
            state.fb_id = Some(fb_id);
            state.src_rect = KmsRect { x: 0u32, y: 0u32, width, height };
            state.crtc_rect.width = width;
            state.crtc_rect.height = height;
            if state.hotspot.is_some() {
                state.hotspot = Some((hot_x, hot_y));
            }
        }
    }
    if flags & DRM_MODE_CURSOR_MOVE != 0 {
        state.crtc_rect.x = x;
        state.crtc_rect.y = y;
    }
    let damage = if handle.vt == active_vt {
        if flags & DRM_MODE_CURSOR_BO != 0 {
            Some(Damage { x: 0, y: 0, width, height })
        } else {
            Some(Damage { x: 0, y: 0, width: 0, height: 0 })
        }
    } else {
        None
    };
    Ok(CursorPlan { plane_id, plane_index: plane.plane_index as usize, state, old_fb, damage })
}

/// Commits a cursor request once the hardware took it: the VT of the
/// handle records the plane's state, and the framebuffer the plane showed
/// before is destroyed when no plane of any VT shows it any more and it
/// was closed.
pub fn cursor_commit(objects: &mut KmsObjects, vts: &mut Vec<VtState>, vt: usize, plan: CursorPlan)
    requires
        old(objects).wf(),
        vts_unique(old(vts)@),
        exists|i: int| 0 <= i < old(vts)@.len() && old(vts)@[i].vt == vt && plan.plane_index < old(vts)@[i].plane_state@.len(),
    ensures
        final(objects).wf(),
        vts_unique(final(vts)@),
        final(vts)@.len() == old(vts)@.len(),
        forall|i: int| 0 <= i < final(vts)@.len() ==> (#[trigger] final(vts)@[i]).vt == old(vts)@[i].vt
            && final(vts)@[i].plane_state@ == (if old(vts)@[i].vt == vt {
                old(vts)@[i].plane_state@.update(plan.plane_index as int, plan.state)
            } else {
                old(vts)@[i].plane_state@
            }),
        match plan.old_fb {
            Some(f) => others_unchanged(*old(objects), *final(objects), f.0) && (if !fb_used(final(vts)@, f) && (old(objects).lookup(f.0) matches Some(KmsObject::Framebuffer(fb)) && fb.closed) {
                final(objects).lookup(f.0) is None
            } else {
                final(objects).lookup(f.0) == old(objects).lookup(f.0)
            }),
            None => *final(objects) == *old(objects),
        },
{
    commit_vt_plane(vts, vt, plan.plane_index, plan.state);
    match plan.old_fb {
        Some(f) => {
            if !fb_has_any_use(vts, f) {
                match objects.get_framebuffer_maybe_closed(f) {
                    Ok(_) => objects.remove_framebuffer_if_closed(f),
                    Err(_) => {},
                }
            }
        },
        None => {},
    }
}

/// The object `x` is a connector.
pub open spec fn is_connector(o: KmsObjects, x: u32) -> bool {
    o.lookup(x) matches Some(KmsObject::Connector(_))
}

/// A set-CRTC request's change: the CRTC's new state and that of its
/// primary plane, with the damage to send, to be made on the hardware when
/// `update` holds, then committed.
#[derive(Debug, Copy, Clone)]
pub struct SetCrtcPlan {
    pub crtc_id: KmsObjectId,
    pub crtc_index: usize,
    pub crtc_state: KmsCrtcState,
    pub plane_id: KmsObjectId,
    pub plane_index: usize,
    pub plane_state: KmsPlaneState,
    pub damage: Damage,
    pub update: bool,
}

/// Plans a set-CRTC request on CRTC `crtc_id` with framebuffer `fb_id` (0
/// for none) and mode `mode`: ENOENT when it is not a CRTC or its primary
/// plane is gone. The damage covers the mode's size from `(x, y)`.
pub fn set_crtc_plan(
    objects: &KmsObjects,
    handle_vt: usize,
    active_vt: usize,
    crtc_id: u32,
    fb_id: u32,
    mode: Option<KmsMode>,
    x: u32,
    y: u32,
) -> (r: Result<SetCrtcPlan, Errno>)
    requires
        objects.wf(),
    ensures
        match objects.lookup(crtc_id) {
            Some(KmsObject::Crtc(c)) => match objects.lookup(c.primary_plane.0) {
                Some(KmsObject::Plane(p)) => r matches Ok(plan) && plan.crtc_id.0 == crtc_id
                    && plan.crtc_index == c.crtc_index && plan.crtc_state == (KmsCrtcState { mode })
                    && plan.plane_id == c.primary_plane && plan.plane_index == p.plane_index
                    && plan.plane_state == (KmsPlaneState {
                        fb_id: if fb_id != 0 { Some(KmsObjectId(fb_id)) } else { None },
                        crtc_id: Some(KmsObjectId(crtc_id)),
                        ..p.state
                    })
                    && plan.damage == (Damage {
                        x,
                        y,
                        width: match mode { Some(m) => m.hdisplay as u32, None => 0 },
                        height: match mode { Some(m) => m.vdisplay as u32, None => 0 },
                    })
                    && plan.update == (handle_vt == active_vt),
                _ => r == Err::<SetCrtcPlan, Errno>(Errno::NoEnt),
            },
            _ => r == Err::<SetCrtcPlan, Errno>(Errno::NoEnt),
        },
{
    let crtc = objects.get_crtc(KmsObjectId(crtc_id))?;
    let plane = objects.get_plane(crtc.primary_plane)?;
    let plane_state = KmsPlaneState {
        fb_id: if fb_id != 0 { Some(KmsObjectId(fb_id)) } else { None },
        crtc_id: Some(KmsObjectId(crtc_id)),
        ..plane.state
    };
    let damage = Damage {
        x,
        y,
        width: match mode { Some(m) => m.hdisplay as u32, None => 0 },
        height: match mode { Some(m) => m.vdisplay as u32, None => 0 },
    };
    Ok(SetCrtcPlan {
        crtc_id: KmsObjectId(crtc_id),
        crtc_index: crtc.crtc_index as usize,
        crtc_state: KmsCrtcState { mode },
        plane_id: crtc.primary_plane,
        plane_index: plane.plane_index as usize,
        plane_state,
        damage,
        update: handle_vt == active_vt,
    })
}

/// Commits a set-CRTC request once the hardware took it: when the handle's
/// VT is active, the connectors `connectors` are put on the CRTC, in order
/// (ENOENT at the first that is not a connector, the ones before it staying
/// moved); then the CRTC, its primary plane and the VT record the new
/// states.
pub fn set_crtc_commit(objects: &mut KmsObjects, vts: &mut Vec<VtState>, vt: usize, plan: SetCrtcPlan, connectors: &Vec<u32>) -> (r: Result<(), Errno>)
    requires
        old(objects).wf(),
        vts_unique(old(vts)@),
        exists|i: int| 0 <= i < old(vts)@.len() && old(vts)@[i].vt == vt && plan.plane_index < old(vts)@[i].plane_state@.len()
            && plan.crtc_index < old(vts)@[i].crtc_state@.len(),
        old(objects).lookup(plan.crtc_id.0) matches Some(KmsObject::Crtc(_)),
        old(objects).lookup(plan.plane_id.0) matches Some(KmsObject::Plane(_)),
    ensures
        final(objects).wf(),
        vts_unique(final(vts)@),
        r is Ok ==> (old(objects).lookup(plan.crtc_id.0) matches Some(KmsObject::Crtc(c)) && final(objects).lookup(plan.crtc_id.0) == Some(
            KmsObject::Crtc(KmsCrtc { state: plan.crtc_state, ..c })))
            && (old(objects).lookup(plan.plane_id.0) matches Some(KmsObject::Plane(p)) && final(objects).lookup(plan.plane_id.0) == Some(
            KmsObject::Plane(KmsPlane { state: plan.plane_state, ..p })))
            && forall|i: int| 0 <= i < final(vts)@.len() ==> (#[trigger] final(vts)@[i]).vt == old(vts)@[i].vt
                && final(vts)@[i].plane_state@ == (if old(vts)@[i].vt == vt {
                    old(vts)@[i].plane_state@.update(plan.plane_index as int, plan.plane_state)
                } else {
                    old(vts)@[i].plane_state@
                })
                && final(vts)@[i].crtc_state@ == (if old(vts)@[i].vt == vt {
                    old(vts)@[i].crtc_state@.update(plan.crtc_index as int, plan.crtc_state)
                } else {
                    old(vts)@[i].crtc_state@
                }),
        r is Err ==> r == Err::<(), Errno>(Errno::NoEnt) && plan.update && final(vts)@ == old(vts)@,
        r is Err <==> plan.update && exists|k: int| 0 <= k < connectors@.len() && !is_connector(*old(objects), #[trigger] connectors@[k]),
        r is Ok && plan.update ==> forall|k: int| 0 <= k < connectors@.len() ==> (final(objects).lookup(#[trigger] connectors@[k]) matches Some(
            KmsObject::Connector(c)) && c.crtc_id == plan.crtc_id),
        forall|x: u32| is_connector(*old(objects), x) && (!plan.update || !connectors@.contains(x))
            ==> #[trigger] connector_crtc(*final(objects), KmsObjectId(x)) == connector_crtc(*old(objects), KmsObjectId(x)),
        forall|x: u32| #[trigger] is_connector(*final(objects), x) == is_connector(*old(objects), x),
{
    if plan.update {
        let mut k: usize = 0;
        while k < connectors.len()
            invariant
                objects.wf(),
                plan.update,
                old(objects).lookup(plan.crtc_id.0) matches Some(KmsObject::Crtc(_)),
                old(objects).lookup(plan.plane_id.0) matches Some(KmsObject::Plane(_)),
                vts@ == old(vts)@,
                vts_unique(vts@),
                k <= connectors@.len(),
                objects.lookup(plan.crtc_id.0) == old(objects).lookup(plan.crtc_id.0),
                objects.lookup(plan.plane_id.0) == old(objects).lookup(plan.plane_id.0),
                forall|x: u32| #[trigger] is_connector(*objects, x) == is_connector(*old(objects), x),
                forall|j: int| 0 <= j < k ==> is_connector(*old(objects), #[trigger] connectors@[j]),
                forall|j: int| 0 <= j < k ==> (objects.lookup(#[trigger] connectors@[j]) matches Some(KmsObject::Connector(c))
                    && c.crtc_id == plan.crtc_id),
                forall|x: u32| is_connector(*old(objects), x) && !connectors@.take(k as int).contains(x)
                    ==> #[trigger] objects.lookup(x) == old(objects).lookup(x),
            decreases connectors.len() - k,
        {
            let ghost before = *objects;
            match objects.set_connector_crtc(KmsObjectId(connectors[k]), plan.crtc_id) {
                Ok(()) => {},
                Err(_) => {
                    proof {
                        assert(!is_connector(before, connectors@[k as int]));
                        assert forall|x: u32| #[trigger] is_connector(*objects, x) == is_connector(*old(objects), x) by {
                            assert(objects.lookup(x) == before.lookup(x));
                            assert(is_connector(before, x) == is_connector(*old(objects), x));
                        }
                    }
                    return Err(Errno::NoEnt);
                },
            }
            proof {
                assert(is_connector(before, connectors@[k as int]));
                assert(is_connector(*old(objects), connectors@[k as int]));
                if connectors@[k as int] != plan.crtc_id.0 {
                    assert(objects.lookup(plan.crtc_id.0) == before.lookup(plan.crtc_id.0));
                }
                if connectors@[k as int] != plan.plane_id.0 {
                    assert(objects.lookup(plan.plane_id.0) == before.lookup(plan.plane_id.0));
                }
                assert forall|x: u32| #[trigger] is_connector(*objects, x) == is_connector(before, x) by {
                    if x != connectors@[k as int] {
                        assert(objects.lookup(x) == before.lookup(x));
                    }
                }
                assert forall|j: int| 0 <= j < k + 1 implies (objects.lookup(#[trigger] connectors@[j]) matches Some(KmsObject::Connector(c))
                    && c.crtc_id == plan.crtc_id) by {
                    if connectors@[j] != connectors@[k as int] {
                        assert(objects.lookup(connectors@[j]) == before.lookup(connectors@[j]));
                    }
                }
                assert forall|x: u32| is_connector(*old(objects), x) && !connectors@.take(k + 1).contains(x)
                    implies #[trigger] objects.lookup(x) == old(objects).lookup(x) by {
                    assert(connectors@.take(k + 1) =~= connectors@.take(k as int).push(connectors@[k as int]));
                    assert(connectors@.take(k + 1)[k as int] == connectors@[k as int]);
                    assert(x != connectors@[k as int]);
                    assert(!connectors@.take(k as int).contains(x)) by {
                        if connectors@.take(k as int).contains(x) {
                            let q = choose|q: int| 0 <= q < k && connectors@.take(k as int)[q] == x;
                            assert(connectors@.take(k + 1)[q] == x);
                        }
                    }
                    assert(objects.lookup(x) == before.lookup(x));
                }
            }
            k += 1;
        }
    }
    let ghost mid = *objects;
    let _ = objects.set_crtc_state(plan.crtc_id, plan.crtc_state);
    proof {
        assert(objects.lookup(plan.plane_id.0) == mid.lookup(plan.plane_id.0));
    }
    let ghost mid2 = *objects;
    let _ = objects.set_plane_state(plan.plane_id, plan.plane_state);
    proof {
        assert forall|x: u32| is_connector(*old(objects), x) && (!plan.update || !connectors@.contains(x))
            implies #[trigger] connector_crtc(*objects, KmsObjectId(x)) == connector_crtc(*old(objects), KmsObjectId(x)) by {
            assert(x != plan.crtc_id.0);
            assert(x != plan.plane_id.0);
            assert(mid2.lookup(x) == mid.lookup(x));
            assert(objects.lookup(x) == mid2.lookup(x));
            if plan.update {
                assert(connectors@.take(connectors@.len() as int) =~= connectors@);
            }
        }
        assert forall|x: u32| #[trigger] is_connector(*objects, x) == is_connector(*old(objects), x) by {
            assert(is_connector(mid, x) == is_connector(*old(objects), x));
            if x == plan.crtc_id.0 {
                assert(mid2.lookup(x) matches Some(KmsObject::Crtc(_)));
                assert(objects.lookup(x) == mid2.lookup(x));
            } else if x == plan.plane_id.0 {
                assert(objects.lookup(x) matches Some(KmsObject::Plane(_)));
            } else {
                assert(mid2.lookup(x) == mid.lookup(x));
                assert(objects.lookup(x) == mid2.lookup(x));
            }
        }
        if plan.update {
            assert forall|j: int| 0 <= j < connectors@.len() implies (objects.lookup(#[trigger] connectors@[j]) matches Some(
                KmsObject::Connector(c)) && c.crtc_id == plan.crtc_id) by {
                assert(is_connector(*old(objects), connectors@[j]));
                assert(connectors@[j] != plan.crtc_id.0);
                assert(connectors@[j] != plan.plane_id.0);
                assert(mid2.lookup(connectors@[j]) == mid.lookup(connectors@[j]));
                assert(objects.lookup(connectors@[j]) == mid2.lookup(connectors@[j]));
            }
        }
    }
    let ghost w = choose|i: int| 0 <= i < old(vts)@.len() && old(vts)@[i].vt == vt && plan.plane_index < old(vts)@[i].plane_state@.len()
        && plan.crtc_index < old(vts)@[i].crtc_state@.len();
    commit_vt_crtc(vts, vt, plan.crtc_index, plan.crtc_state);
    assert(vts@[w].vt == vt && plan.plane_index < vts@[w].plane_state@.len());
    commit_vt_plane(vts, vt, plan.plane_index, plan.plane_state);
    Ok(())
}

/// The answer to a get-connector request.
pub struct ConnectorReply {
    pub encoders: Vec<u32>,
    pub modes: Vec<KmsMode>,
    pub connection: u32,
    pub mm_width: u32,
    pub mm_height: u32,
    pub subpixel: u32,
    pub props: Vec<u32>,
    pub prop_values: Vec<u64>,
}

/// The connector `connector_id`: its encoder, modes, connection, size (the
/// height reported is the width, as the driver has always reported it),
/// subpixel layout and properties; ENOENT when there is no such connector.
pub fn get_connector(objects: &KmsObjects, connector_id: u32) -> (r: Result<ConnectorReply, Errno>)
    requires
        objects.wf(),
    ensures
        match objects.lookup(connector_id) {
            Some(KmsObject::Connector(c)) => r matches Ok(reply) && reply.encoders@ == seq![c.encoder_id.0]
                && reply.modes@ == c.modes@ && reply.mm_width == c.mm_width && reply.mm_height == c.mm_width
                && reply.connection == status_code(c.connection) && reply.subpixel == subpixel_code(c.subpixel)
                && reply.props@.len() == objects.props_of(connector_id).len()
                && reply.prop_values@.len() == objects.props_of(connector_id).len()
                && (forall|k: int| 0 <= k < reply.props@.len() ==> reply.props@[k] == objects.props_of(connector_id)[k].0.0
                    && reply.prop_values@[k] == objects.props_of(connector_id)[k].1),
            _ => r is Err && r == Err::<ConnectorReply, Errno>(Errno::NoEnt),
        },
{
    let c = objects.get_connector(KmsObjectId(connector_id))?;
    let (props, prop_values) = match objects.get_object_properties(KmsObjectId(connector_id)) {
        Ok(pv) => pv,
        Err(_) => (Vec::new(), Vec::new()),
    };
    let encoders = vec![c.encoder_id.0];
    Ok(ConnectorReply {
        encoders,
        modes: crate::kms::copy_modes(&c.modes),
        connection: c.connection.code(),
        mm_width: c.mm_width,
        mm_height: c.mm_width,
        subpixel: c.subpixel.code(),
        props,
        prop_values,
    })
}

/// The display state of a VT that starts from what the objects show now.
pub open spec fn snapshot_ok(objects: KmsObjects) -> bool {
    &&& forall|i: int| 0 <= i < objects.connectors@.len() ==> (objects.lookup(#[trigger] objects.connectors@[i].0) matches Some(KmsObject::Connector(_)))
    &&& forall|i: int| 0 <= i < objects.crtcs@.len() ==> (objects.lookup(#[trigger] objects.crtcs@[i].0) matches Some(KmsObject::Crtc(_)))
    &&& forall|i: int| 0 <= i < objects.planes@.len() ==> (objects.lookup(#[trigger] objects.planes@[i].0) matches Some(KmsObject::Plane(_)))
}

/// The CRTC driving the connector `id`.
pub open spec fn connector_crtc(objects: KmsObjects, id: KmsObjectId) -> KmsObjectId {
    match objects.lookup(id.0) {
        Some(KmsObject::Connector(c)) => c.crtc_id,
        _ => KmsObjectId(0),
    }
}

/// The state of the CRTC `id`.
pub open spec fn crtc_state_of(objects: KmsObjects, id: KmsObjectId) -> KmsCrtcState {
    match objects.lookup(id.0) {
        Some(KmsObject::Crtc(c)) => c.state,
        _ => KmsCrtcState { mode: None },
    }
}

/// The state of the plane `id`.
pub open spec fn plane_state_of(objects: KmsObjects, id: KmsObjectId) -> KmsPlaneState {
    match objects.lookup(id.0) {
        Some(KmsObject::Plane(p)) => p.state,
        _ => arbitrary(),
    }
}

/// Position of the state of VT `vt`, made from the objects' current state
/// when the VT has none yet.
pub fn get_or_create_vt(objects: &KmsObjects, vts: &mut Vec<VtState>, vt: usize) -> (i: usize)
    requires
        objects.wf(),
        snapshot_ok(*objects),
        vts_unique(old(vts)@),
    ensures
        vts_unique(final(vts)@),
        i < final(vts)@.len(),
        final(vts)@[i as int].vt == vt,
        (exists|j: int| 0 <= j < old(vts)@.len() && old(vts)@[j].vt == vt) ==> final(vts)@ == old(vts)@,
        !(exists|j: int| 0 <= j < old(vts)@.len() && old(vts)@[j].vt == vt) ==> final(vts)@.len() == old(vts)@.len() + 1
            && final(vts)@.take(old(vts)@.len() as int) == old(vts)@
            && final(vts)@[i as int].connector_state@ == Seq::new(objects.connectors@.len(), |k: int| connector_crtc(*objects, objects.connectors@[k]))
            && final(vts)@[i as int].crtc_state@ == Seq::new(objects.crtcs@.len(), |k: int| crtc_state_of(*objects, objects.crtcs@[k]))
            && final(vts)@[i as int].plane_state@ == Seq::new(objects.planes@.len(), |k: int| plane_state_of(*objects, objects.planes@[k])),
{
    match find_vt(vts, vt) {
        Some(i) => i,
        None => {
            let mut connector_state: Vec<KmsObjectId> = Vec::new();
            let mut k: usize = 0;
            while k < objects.connectors.len()
                invariant
                    objects.wf(),
                    snapshot_ok(*objects),
                    k <= objects.connectors@.len(),
                    connector_state@ == Seq::new(k as nat, |j: int| connector_crtc(*objects, objects.connectors@[j])),
                decreases objects.connectors.len() - k,
            {
                let c = objects.get_connector(objects.connectors[k]).unwrap();
                connector_state.push(c.crtc_id);
                k += 1;
                assert(connector_state@ =~= Seq::new(k as nat, |j: int| connector_crtc(*objects, objects.connectors@[j])));
            }
            let mut crtc_state: Vec<KmsCrtcState> = Vec::new();
            let mut k: usize = 0;
            while k < objects.crtcs.len()
                invariant
                    objects.wf(),
                    snapshot_ok(*objects),
                    k <= objects.crtcs@.len(),
                    crtc_state@ == Seq::new(k as nat, |j: int| crtc_state_of(*objects, objects.crtcs@[j])),
                decreases objects.crtcs.len() - k,
            {
                let c = objects.get_crtc(objects.crtcs[k]).unwrap();
                crtc_state.push(c.state);
                k += 1;
                assert(crtc_state@ =~= Seq::new(k as nat, |j: int| crtc_state_of(*objects, objects.crtcs@[j])));
            }
            let mut plane_state: Vec<KmsPlaneState> = Vec::new();
            let mut k: usize = 0;
            while k < objects.planes.len()
                invariant
                    objects.wf(),
                    snapshot_ok(*objects),
                    k <= objects.planes@.len(),
                    plane_state@ == Seq::new(k as nat, |j: int| plane_state_of(*objects, objects.planes@[j])),
                decreases objects.planes.len() - k,
            {
                let p = objects.get_plane(objects.planes[k]).unwrap();
                plane_state.push(p.state);
                k += 1;
                assert(plane_state@ =~= Seq::new(k as nat, |j: int| plane_state_of(*objects, objects.planes@[j])));
            }
            let ghost before = vts@;
            vts.push(VtState { vt, connector_state, crtc_state, plane_state });
            proof {
                assert(vts@.take(before.len() as int) =~= before);
                assert forall|a: int, b: int| 0 <= a < b < vts@.len() implies #[trigger] vts@[a].vt != #[trigger] vts@[b].vt by {
                    if b < before.len() {
                        assert(before[a].vt != before[b].vt);
                    }
                }
            }
            vts.len() - 1
        },
    }
}

/// The VT a path `v2/<vt>` of the display scheme names, if it is one.
pub open spec fn spec_v2_vt(path: Seq<u8>) -> Option<usize> {
    if path.len() >= 3 && path[0] == 118u8 && path[1] == 50u8 && path[2] == 47u8 {
        crate::util::spec_parse_usize(path.skip(3))
    } else {
        None
    }
}

/// The path of a handle of the display scheme on VT `vt`: `v2/<vt>`.
pub open spec fn spec_v2_path(vt: usize) -> Seq<u8> {
    seq![118u8, 50u8, 47u8] + crate::util::decimal(vt as nat)
}

/// The path of a handle on VT `vt`, after the scheme's name.
pub fn v2_path(vt: usize) -> (p: Vec<u8>)
    ensures
        p@ == spec_v2_path(vt),
{
    let mut p: Vec<u8> = Vec::new();
    p.push(118u8);
    p.push(50u8);
    p.push(47u8);
    let digits = crate::util::render_decimal(vt);
    let ghost head = p@;
    let mut i: usize = 0;
    while i < digits.len()
        invariant
            i <= digits@.len(),
            head == seq![118u8, 50u8, 47u8],
            p@ == head + digits@.take(i as int),
        decreases digits.len() - i,
    {
        p.push(digits[i]);
        i += 1;
        assert(p@ =~= head + digits@.take(i as int));
    }
    assert(digits@.take(digits@.len() as int) =~= digits@);
    p
}

/// The path of a handle names its VT again: opening the path a handle
/// reports gets a handle on the same VT.
pub proof fn lemma_v2_path_round_trip(vt: usize)
    ensures
        spec_v2_vt(spec_v2_path(vt)) == Some(vt),
{
    crate::util::lemma_parse_usize_decimal(vt);
    assert(spec_v2_path(vt).skip(3) =~= crate::util::decimal(vt as nat));
}

/// The VT named by a path opened on the display scheme, `v2/<vt>`: None
/// when the path is not of that form (the scheme answers ENOENT for another
/// path starting with `v` and EINVAL otherwise; see `open_error`).
pub fn parse_v2_path(path: &[u8]) -> (r: Option<usize>)
    ensures
        r == spec_v2_vt(path@),
{
    if path.len() < 3 || path[0] != 118u8 || path[1] != 50u8 || path[2] != 47u8 {
        return None;
    }
    let rest = vstd::slice::slice_subrange(path, 3, path.len());
    assert(rest@ =~= path@.skip(3));
    crate::util::parse_usize(rest)
}

/// The error of opening `path` on the display scheme when it is not a
/// `v2/<vt>` path: EINVAL for an empty path, a path not starting with `v`
/// or a malformed VT number, ENOENT for another path starting with `v`.
pub fn open_error(path: &[u8]) -> (e: Errno)
    ensures
        path@.len() == 0 ==> e == Errno::Inval,
        path@.len() > 0 && path@[0] != 118u8 ==> e == Errno::Inval,
        path@.len() > 0 && path@[0] == 118u8 && !(path@.len() >= 3 && path@[1] == 50u8 && path@[2] == 47u8) ==> e == Errno::NoEnt,
        path@.len() >= 3 && path@[0] == 118u8 && path@[1] == 50u8 && path@[2] == 47u8 ==> e == Errno::Inval,
{
    if path.len() == 0 || path[0] != 118u8 {
        return Errno::Inval;
    }
    if path.len() >= 3 && path[1] == 50u8 && path[2] == 47u8 {
        Errno::Inval
    } else {
        Errno::NoEnt
    }
}

/// The buffer handle and the offset within its buffer that a map offset
/// stands for.
pub open spec fn spec_decode_map_offset(offset: u64) -> (u32, u64) {
    ((offset / MAP_FAKE_OFFSET_MULTIPLIER) as u32, offset % MAP_FAKE_OFFSET_MULTIPLIER)
}

/// The offset a map-dumb request hands out for a buffer handle decodes
/// back to that handle, at the start of its buffer.
pub proof fn lemma_map_offset_round_trip(h: u32)
    ensures
        spec_decode_map_offset((h * MAP_FAKE_OFFSET_MULTIPLIER) as u64) == (h, 0u64),
{
    let off: int = h * MAP_FAKE_OFFSET_MULTIPLIER;
    assert(0 <= off <= u64::MAX) by (nonlinear_arith)
        requires off == h * MAP_FAKE_OFFSET_MULTIPLIER, h <= u32::MAX, MAP_FAKE_OFFSET_MULTIPLIER == 0x1000_0000u64;
    assert(off / (MAP_FAKE_OFFSET_MULTIPLIER as int) == h && off % (MAP_FAKE_OFFSET_MULTIPLIER as int) == 0) by (nonlinear_arith)
        requires off == h * MAP_FAKE_OFFSET_MULTIPLIER, MAP_FAKE_OFFSET_MULTIPLIER == 0x1000_0000u64;
}

/// The buffer handle and the offset inside it of a mapping offset of the
/// display scheme.
pub fn decode_map_offset(offset: u64) -> (r: (u32, u64))
    ensures
        r == spec_decode_map_offset(offset),
{
    let h = offset / MAP_FAKE_OFFSET_MULTIPLIER;
    let off = offset & (MAP_FAKE_OFFSET_MULTIPLIER - 1);
    assert(offset & 0x0fff_ffffu64 == offset % 0x1000_0000u64) by (bit_vector);
    (h as u32, off)
}

/// The size of the framebuffer a saved plane state shows, as the damage to
/// redraw when the state comes back; nothing for a plane without one.
pub open spec fn restore_damage(objects: KmsObjects, st: KmsPlaneState) -> Damage {
    match st.fb_id {
        Some(fb) => match objects.lookup(fb.0) {
            Some(KmsObject::Framebuffer(f)) => Damage { x: 0, y: 0, width: f.width, height: f.height },
            _ => Damage { x: 0, y: 0, width: 0, height: 0 },
        },
        None => Damage { x: 0, y: 0, width: 0, height: 0 },
    }
}

/// What switching to a VT does, in order: the connectors take their saved
/// CRTCs; each CRTC gets its saved state from the driver and drives the
/// connector at its own position; each plane gets its saved state from the
/// driver, with its whole framebuffer as damage.
pub struct ActivatePlan {
    pub connectors: Vec<(KmsObjectId, KmsObjectId)>,
    pub crtcs: Vec<(KmsObjectId, KmsCrtcState)>,
    pub crtc_connectors: Vec<(KmsObjectId, KmsObjectId)>,
    pub planes: Vec<(KmsObjectId, KmsPlaneState, Damage)>,
}

/// The saved framebuffers of plane states all exist.
pub open spec fn fbs_exist(objects: KmsObjects, states: Seq<KmsPlaneState>) -> bool {
    forall|k: int| 0 <= k < states.len() ==> ((#[trigger] states[k]).fb_id matches Some(fb) ==> (objects.lookup(fb.0) matches Some(KmsObject::Framebuffer(_))))
}

/// Switches to VT `vt`: its saved state (made from the objects' current
/// state when it has none yet) and the steps that bring it back.
pub fn activate_vt(objects: &KmsObjects, vts: &mut Vec<VtState>, vt: usize) -> (r: (usize, ActivatePlan))
    requires
        objects.wf(),
        snapshot_ok(*objects),
        vts_unique(old(vts)@),
        objects.crtcs@.len() <= objects.connectors@.len(),
        forall|i: int| 0 <= i < old(vts)@.len() ==> {
            &&& (#[trigger] old(vts)@[i]).connector_state@.len() <= objects.connectors@.len()
            &&& old(vts)@[i].crtc_state@.len() <= objects.crtcs@.len()
            &&& old(vts)@[i].plane_state@.len() <= objects.planes@.len()
            &&& fbs_exist(*objects, old(vts)@[i].plane_state@)
        },
        fbs_exist(*objects, Seq::new(objects.planes@.len(), |k: int| plane_state_of(*objects, objects.planes@[k]))),
    ensures
        vts_unique(final(vts)@),
        r.0 < final(vts)@.len(),
        final(vts)@[r.0 as int].vt == vt,
        (exists|j: int| 0 <= j < old(vts)@.len() && old(vts)@[j].vt == vt) ==> final(vts)@ == old(vts)@,
        !(exists|j: int| 0 <= j < old(vts)@.len() && old(vts)@[j].vt == vt) ==> final(vts)@.len() == old(vts)@.len() + 1
            && final(vts)@.take(old(vts)@.len() as int) == old(vts)@
            && final(vts)@[r.0 as int].connector_state@ == Seq::new(objects.connectors@.len(), |k: int| connector_crtc(*objects, objects.connectors@[k]))
            && final(vts)@[r.0 as int].crtc_state@ == Seq::new(objects.crtcs@.len(), |k: int| crtc_state_of(*objects, objects.crtcs@[k]))
            && final(vts)@[r.0 as int].plane_state@ == Seq::new(objects.planes@.len(), |k: int| plane_state_of(*objects, objects.planes@[k])),
        ({
            let st = final(vts)@[r.0 as int];
            let plan = r.1;
            &&& plan.connectors@ == Seq::new(st.connector_state@.len(), |k: int| (objects.connectors@[k], st.connector_state@[k]))
            &&& plan.crtcs@ == Seq::new(st.crtc_state@.len(), |k: int| (objects.crtcs@[k], st.crtc_state@[k]))
            &&& plan.crtc_connectors@ == Seq::new(st.crtc_state@.len(), |k: int| (objects.connectors@[k], objects.crtcs@[k]))
            &&& plan.planes@ == Seq::new(st.plane_state@.len(), |k: int| (objects.planes@[k], st.plane_state@[k], restore_damage(*objects, st.plane_state@[k])))
        }),
{
    let i = get_or_create_vt(objects, vts, vt);
    let ghost vs = vts@;
    proof {
        if exists|j: int| 0 <= j < old(vts)@.len() && old(vts)@[j].vt == vt {
            assert(vs[i as int] == old(vts)@[i as int]);
        } else {
            assert(vs[i as int].plane_state@ =~= Seq::new(objects.planes@.len(), |k: int| plane_state_of(*objects, objects.planes@[k])));
        }
    }
    let st = &vts[i];
    let mut connectors: Vec<(KmsObjectId, KmsObjectId)> = Vec::new();
    let mut k: usize = 0;
    while k < st.connector_state.len()
        invariant
            k <= st.connector_state@.len() <= objects.connectors@.len(),
            connectors@ == Seq::new(k as nat, |q: int| (objects.connectors@[q], st.connector_state@[q])),
        decreases st.connector_state.len() - k,
    {
        connectors.push((objects.connectors[k], st.connector_state[k]));
        k += 1;
        assert(connectors@ =~= Seq::new(k as nat, |q: int| (objects.connectors@[q], st.connector_state@[q])));
    }
    let mut crtcs: Vec<(KmsObjectId, KmsCrtcState)> = Vec::new();
    let mut crtc_connectors: Vec<(KmsObjectId, KmsObjectId)> = Vec::new();
    let mut k: usize = 0;
    while k < st.crtc_state.len()
        invariant
            k <= st.crtc_state@.len() <= objects.crtcs@.len() <= objects.connectors@.len(),
            crtcs@ == Seq::new(k as nat, |q: int| (objects.crtcs@[q], st.crtc_state@[q])),
            crtc_connectors@ == Seq::new(k as nat, |q: int| (objects.connectors@[q], objects.crtcs@[q])),
        decreases st.crtc_state.len() - k,
    {
        crtcs.push((objects.crtcs[k], st.crtc_state[k]));
        crtc_connectors.push((objects.connectors[k], objects.crtcs[k]));
        k += 1;
        assert(crtcs@ =~= Seq::new(k as nat, |q: int| (objects.crtcs@[q], st.crtc_state@[q])));
        assert(crtc_connectors@ =~= Seq::new(k as nat, |q: int| (objects.connectors@[q], objects.crtcs@[q])));
    }
    let mut planes: Vec<(KmsObjectId, KmsPlaneState, Damage)> = Vec::new();
    let mut k: usize = 0;
    while k < st.plane_state.len()
        invariant
            objects.wf(),
            k <= st.plane_state@.len() <= objects.planes@.len(),
            fbs_exist(*objects, st.plane_state@),
            planes@ == Seq::new(k as nat, |q: int| (objects.planes@[q], st.plane_state@[q], restore_damage(*objects, st.plane_state@[q]))),
        decreases st.plane_state.len() - k,
    {
        let ps = st.plane_state[k];
        let damage = match ps.fb_id {
            Some(fb) => {
                assert(st.plane_state@[k as int].fb_id == Some(fb));
                match objects.get_framebuffer_maybe_closed(fb) {
                    Ok(f) => Damage { x: 0, y: 0, width: f.width, height: f.height },
                    Err(_) => Damage { x: 0, y: 0, width: 0, height: 0 },
                }
            },
            None => Damage { x: 0, y: 0, width: 0, height: 0 },
        };
        planes.push((objects.planes[k], ps, damage));
        k += 1;
        assert(planes@ =~= Seq::new(k as nat, |q: int| (objects.planes@[q], st.plane_state@[q], restore_damage(*objects, st.plane_state@[q]))));
    }
    (i, ActivatePlan { connectors, crtcs, crtc_connectors, planes })
}

/// The object `x` is a CRTC.
pub open spec fn is_crtc(o: KmsObjects, x: u32) -> bool {
    o.lookup(x) matches Some(KmsObject::Crtc(_))
}

/// The object `x` is a plane.
pub open spec fn is_plane(o: KmsObjects, x: u32) -> bool {
    o.lookup(x) matches Some(KmsObject::Plane(_))
}

/// No object id appears twice in `s`.
pub open spec fn ids_distinct<T>(s: Seq<(KmsObjectId, T)>) -> bool {
    forall|i: int, j: int| 0 <= i < j < s.len() ==> #[trigger] s[i].0 != #[trigger] s[j].0
}

/// No plane appears twice in `s`.
pub open spec fn planes_distinct(s: Seq<(KmsObjectId, KmsPlaneState, Damage)>) -> bool {
    forall|i: int, j: int| 0 <= i < j < s.len() ==> #[trigger] s[i].0 != #[trigger] s[j].0
}

/// The objects keep the kind of every id.
pub open spec fn kinds_kept(a: KmsObjects, b: KmsObjects) -> bool {
    forall|x: u32| #![trigger b.lookup(x)]
        (is_connector(a, x) == is_connector(b, x)) && (is_crtc(a, x) == is_crtc(b, x)) && (is_plane(a, x) == is_plane(b, x))
}

/// Puts the saved state of the VT being activated back on the objects, as
/// the driver does once the hardware took it: each connector gets its
/// saved CRTC; then each CRTC its saved state, the connector at the same
/// position being put on that CRTC; then each plane its saved state.
pub fn commit_activation(objects: &mut KmsObjects, plan: &ActivatePlan)
    requires
        old(objects).wf(),
        plan.crtcs@.len() == plan.crtc_connectors@.len(),
        forall|k: int| 0 <= k < plan.connectors@.len() ==> is_connector(*old(objects), (#[trigger] plan.connectors@[k]).0.0),
        forall|k: int| 0 <= k < plan.crtc_connectors@.len() ==> is_connector(*old(objects), (#[trigger] plan.crtc_connectors@[k]).0.0),
        forall|k: int| 0 <= k < plan.crtcs@.len() ==> is_crtc(*old(objects), (#[trigger] plan.crtcs@[k]).0.0),
        forall|k: int| 0 <= k < plan.planes@.len() ==> is_plane(*old(objects), (#[trigger] plan.planes@[k]).0.0),
        ids_distinct(plan.connectors@),
        ids_distinct(plan.crtc_connectors@),
        ids_distinct(plan.crtcs@),
        planes_distinct(plan.planes@),
    ensures
        final(objects).wf(),
        kinds_kept(*old(objects), *final(objects)),
        forall|k: int| 0 <= k < plan.connectors@.len() && (forall|j: int| 0 <= j < plan.crtc_connectors@.len() ==> plan.crtc_connectors@[j].0 != plan.connectors@[k].0)
            ==> connector_crtc(*final(objects), (#[trigger] plan.connectors@[k]).0) == plan.connectors@[k].1,
        forall|j: int| 0 <= j < plan.crtc_connectors@.len() ==> connector_crtc(*final(objects), (#[trigger] plan.crtc_connectors@[j]).0) == plan.crtc_connectors@[j].1,
        forall|j: int| 0 <= j < plan.crtcs@.len() ==> crtc_state_of(*final(objects), (#[trigger] plan.crtcs@[j]).0) == plan.crtcs@[j].1,
        forall|j: int| 0 <= j < plan.planes@.len() ==> plane_state_of(*final(objects), (#[trigger] plan.planes@[j]).0) == plan.planes@[j].1,
{
    let ghost o0 = *objects;
    let mut k: usize = 0;
    while k < plan.connectors.len()
        invariant
            objects.wf(),
            o0 == *old(objects),
            k <= plan.connectors@.len(),
            kinds_kept(o0, *objects),
            forall|q: int| 0 <= q < plan.connectors@.len() ==> is_connector(o0, (#[trigger] plan.connectors@[q]).0.0),
            ids_distinct(plan.connectors@),
            forall|q: int| 0 <= q < k ==> connector_crtc(*objects, (#[trigger] plan.connectors@[q]).0) == plan.connectors@[q].1,
            forall|x: u32| !is_connector(o0, x) ==> #[trigger] objects.lookup(x) == o0.lookup(x),
        decreases plan.connectors.len() - k,
    {
        let (id, crtc) = plan.connectors[k];
        let ghost before = *objects;
        assert(is_connector(before, id.0));
        let _ = objects.set_connector_crtc(id, crtc);
        proof {
            assert forall|x: u32| #![trigger objects.lookup(x)] (is_connector(o0, x) == is_connector(*objects, x)) && (is_crtc(o0, x) == is_crtc(*objects, x)) && (is_plane(o0, x) == is_plane(*objects, x)) by {
                if x != id.0 {
                    assert(objects.lookup(x) == before.lookup(x));
                    assert(before.lookup(x) matches Some(_) ==> true);
                }
                assert(before.lookup(x) == before.lookup(x));
                assert(is_connector(o0, x) == is_connector(before, x));
            }
            assert forall|q: int| 0 <= q < k + 1 implies connector_crtc(*objects, (#[trigger] plan.connectors@[q]).0) == plan.connectors@[q].1 by {
                if q < k {
                    assert(plan.connectors@[q].0 != plan.connectors@[k as int].0);
                    assert(objects.lookup(plan.connectors@[q].0.0) == before.lookup(plan.connectors@[q].0.0));
                }
            }
            assert forall|x: u32| !is_connector(o0, x) implies #[trigger] objects.lookup(x) == o0.lookup(x) by {
                assert(before.lookup(x) == o0.lookup(x));
                if x == id.0 {
                    assert(is_connector(o0, x));
                }
            }
        }
        k += 1;
    }
    let ghost o1 = *objects;
    let mut k: usize = 0;
    while k < plan.crtcs.len()
        invariant
            objects.wf(),
            o0 == *old(objects),
            plan.crtcs@.len() == plan.crtc_connectors@.len(),
            k <= plan.crtcs@.len(),
            kinds_kept(o0, *objects),
            kinds_kept(o0, o1),
            forall|q: int| 0 <= q < plan.crtc_connectors@.len() ==> is_connector(o0, (#[trigger] plan.crtc_connectors@[q]).0.0),
            forall|q: int| 0 <= q < plan.crtcs@.len() ==> is_crtc(o0, (#[trigger] plan.crtcs@[q]).0.0),
            ids_distinct(plan.crtc_connectors@),
            ids_distinct(plan.crtcs@),
            forall|q: int| 0 <= q < k ==> crtc_state_of(*objects, (#[trigger] plan.crtcs@[q]).0) == plan.crtcs@[q].1,
            forall|q: int| 0 <= q < k ==> connector_crtc(*objects, (#[trigger] plan.crtc_connectors@[q]).0) == plan.crtc_connectors@[q].1,
            forall|x: u32| (forall|q: int| 0 <= q < k ==> plan.crtc_connectors@[q].0.0 != x) && !is_crtc(o0, x)
                ==> #[trigger] objects.lookup(x) == o1.lookup(x),
        decreases plan.crtcs.len() - k,
    {
        let (cid, state) = plan.crtcs[k];
        let (conn, crtc) = plan.crtc_connectors[k];
        let ghost before = *objects;
        assert(is_crtc(before, cid.0));
        let _ = objects.set_crtc_state(cid, state);
        let ghost mid = *objects;
        assert(is_connector(mid, conn.0));
        let _ = objects.set_connector_crtc(conn, crtc);
        proof {
            assert(cid.0 != conn.0);
            assert forall|x: u32| #![trigger objects.lookup(x)] (is_connector(o0, x) == is_connector(*objects, x)) && (is_crtc(o0, x) == is_crtc(*objects, x)) && (is_plane(o0, x) == is_plane(*objects, x)) by {
                assert(is_connector(o0, x) == is_connector(before, x));
                assert(is_crtc(o0, x) == is_crtc(before, x));
                assert(is_plane(o0, x) == is_plane(before, x));
                if x != cid.0 {
                    assert(mid.lookup(x) == before.lookup(x));
                }
                if x != conn.0 {
                    assert(objects.lookup(x) == mid.lookup(x));
                }
            }
            assert forall|q: int| 0 <= q < k + 1 implies crtc_state_of(*objects, (#[trigger] plan.crtcs@[q]).0) == plan.crtcs@[q].1 by {
                let x = plan.crtcs@[q].0.0;
                assert(is_crtc(o0, x));
                assert(x != conn.0) by {
                    assert(is_connector(o0, conn.0));
                }
                assert(objects.lookup(x) == mid.lookup(x));
                if q < k {
                    assert(plan.crtcs@[q].0 != plan.crtcs@[k as int].0);
                    assert(mid.lookup(x) == before.lookup(x));
                }
            }
            assert forall|q: int| 0 <= q < k + 1 implies connector_crtc(*objects, (#[trigger] plan.crtc_connectors@[q]).0) == plan.crtc_connectors@[q].1 by {
                let x = plan.crtc_connectors@[q].0.0;
                assert(is_connector(o0, x));
                if q < k {
                    assert(plan.crtc_connectors@[q].0 != plan.crtc_connectors@[k as int].0);
                    assert(objects.lookup(x) == mid.lookup(x));
                    assert(x != cid.0) by {
                        assert(is_crtc(o0, cid.0));
                    }
                    assert(mid.lookup(x) == before.lookup(x));
                }
            }
            assert forall|x: u32| (forall|q: int| 0 <= q < k + 1 ==> plan.crtc_connectors@[q].0.0 != x) && !is_crtc(o0, x)
                implies #[trigger] objects.lookup(x) == o1.lookup(x) by {
                assert(plan.crtc_connectors@[k as int].0.0 != x);
                assert(objects.lookup(x) == mid.lookup(x));
                if x == cid.0 {
                    assert(is_crtc(o0, x));
                }
                assert(mid.lookup(x) == before.lookup(x));
                assert forall|q: int| 0 <= q < k implies plan.crtc_connectors@[q].0.0 != x by {
                    assert(plan.crtc_connectors@[q].0.0 != x);
                }
            }
        }
        k += 1;
    }
    let ghost o2 = *objects;
    let mut k: usize = 0;
    while k < plan.planes.len()
        invariant
            objects.wf(),
            o0 == *old(objects),
            k <= plan.planes@.len(),
            kinds_kept(o0, *objects),
            kinds_kept(o0, o2),
            forall|q: int| 0 <= q < plan.planes@.len() ==> is_plane(o0, (#[trigger] plan.planes@[q]).0.0),
            planes_distinct(plan.planes@),
            forall|q: int| 0 <= q < k ==> plane_state_of(*objects, (#[trigger] plan.planes@[q]).0) == plan.planes@[q].1,
            forall|x: u32| !is_plane(o0, x) ==> #[trigger] objects.lookup(x) == o2.lookup(x),
        decreases plan.planes.len() - k,
    {
        let (pid, state, _) = plan.planes[k];
        let ghost before = *objects;
        assert(is_plane(before, pid.0));
        let _ = objects.set_plane_state(pid, state);
        proof {
            assert forall|x: u32| #![trigger objects.lookup(x)] (is_connector(o0, x) == is_connector(*objects, x)) && (is_crtc(o0, x) == is_crtc(*objects, x)) && (is_plane(o0, x) == is_plane(*objects, x)) by {
                assert(is_connector(o0, x) == is_connector(before, x));
                assert(is_crtc(o0, x) == is_crtc(before, x));
                assert(is_plane(o0, x) == is_plane(before, x));
                if x != pid.0 {
                    assert(objects.lookup(x) == before.lookup(x));
                }
            }
            assert forall|q: int| 0 <= q < k + 1 implies plane_state_of(*objects, (#[trigger] plan.planes@[q]).0) == plan.planes@[q].1 by {
                let x = plan.planes@[q].0.0;
                if q < k {
                    assert(plan.planes@[q].0 != plan.planes@[k as int].0);
                    assert(objects.lookup(x) == before.lookup(x));
                }
            }
            assert forall|x: u32| !is_plane(o0, x) implies #[trigger] objects.lookup(x) == o2.lookup(x) by {
                if x == pid.0 {
                    assert(is_plane(o0, x));
                }
                assert(objects.lookup(x) == before.lookup(x));
            }
        }
        k += 1;
    }
    proof {
        assert forall|k: int| 0 <= k < plan.connectors@.len() && (forall|j: int| 0 <= j < plan.crtc_connectors@.len() ==> plan.crtc_connectors@[j].0 != plan.connectors@[k].0)
            implies connector_crtc(*objects, (#[trigger] plan.connectors@[k]).0) == plan.connectors@[k].1 by {
            let x = plan.connectors@[k].0.0;
            assert(is_connector(o0, x));
            assert(objects.lookup(x) == o2.lookup(x));
            assert(o2.lookup(x) == o1.lookup(x)) by {
                assert forall|q: int| 0 <= q < plan.crtcs@.len() implies plan.crtc_connectors@[q].0.0 != x by {
                    assert(plan.crtc_connectors@[q].0 != plan.connectors@[k].0);
                }
            }
        }
        assert forall|j: int| 0 <= j < plan.crtc_connectors@.len() implies connector_crtc(*objects, (#[trigger] plan.crtc_connectors@[j]).0) == plan.crtc_connectors@[j].1 by {
            let x = plan.crtc_connectors@[j].0.0;
            assert(is_connector(o0, x));
            assert(objects.lookup(x) == o2.lookup(x));
        }
        assert forall|j: int| 0 <= j < plan.crtcs@.len() implies crtc_state_of(*objects, (#[trigger] plan.crtcs@[j]).0) == plan.crtcs@[j].1 by {
            let x = plan.crtcs@[j].0.0;
            assert(is_crtc(o0, x));
            assert(objects.lookup(x) == o2.lookup(x));
        }
    }
}

} // verus!
