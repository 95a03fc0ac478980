//! The kernel mode-setting object model of the display drivers: CRTCs,
//! planes, connectors, encoders, framebuffers, properties and blobs under
//! numeric ids, the per-VT display state, and the decisions of the DRM
//! requests a client makes on a display handle.

use vstd::prelude::*;
use crate::errno::Errno;

verus! {

/// `DRM_MODE_OBJECT_CRTC`.
pub const DRM_MODE_OBJECT_CRTC: u32 = 0xcccccccc;
/// `DRM_MODE_OBJECT_CONNECTOR`.
pub const DRM_MODE_OBJECT_CONNECTOR: u32 = 0xc0c0c0c0;
/// `DRM_MODE_OBJECT_ENCODER`.
pub const DRM_MODE_OBJECT_ENCODER: u32 = 0xe0e0e0e0;
/// `DRM_MODE_OBJECT_PROPERTY`.
pub const DRM_MODE_OBJECT_PROPERTY: u32 = 0xb0b0b0b0;
/// `DRM_MODE_OBJECT_FB`.
pub const DRM_MODE_OBJECT_FB: u32 = 0xfbfbfbfb;
/// `DRM_MODE_OBJECT_BLOB`.
pub const DRM_MODE_OBJECT_BLOB: u32 = 0xbbbbbbbb;
/// `DRM_MODE_OBJECT_PLANE`.
pub const DRM_MODE_OBJECT_PLANE: u32 = 0xeeeeeeee;

/// The id of a KMS object; 0 names no object.
#[derive(Debug, Copy, Clone, PartialEq, Eq, Structural)]
pub struct KmsObjectId(pub u32);

impl KmsObjectId {
    /// The id that names no object.
    pub fn invalid() -> (id: KmsObjectId)
        ensures
            id.0 == 0,
    {
        KmsObjectId(0)
    }
}

/// The id of an object of the legacy DRM object table; 0 names no object.
#[derive(Debug, Copy, Clone, PartialEq, Eq, Structural)]
pub struct DrmObjectId(pub u32);

impl DrmObjectId {
    /// The id that names no object.
    pub fn invalid() -> (id: DrmObjectId)
        ensures
            id.0 == 0,
    {
        DrmObjectId(0)
    }

    /// The id as the 64-bit number of the ioctl interface.
    pub fn as_u64(&self) -> (n: u64)
        ensures
            n == self.0,
    {
        self.0 as u64
    }
}

/// An object of the legacy DRM object table: it reports its
/// `DRM_MODE_OBJECT_*` type. Drivers implement it for their objects.
pub trait DrmObject {
    fn object_type(&self) -> u32;
}

/// A buffer a graphics driver allocates for its clients; drivers
/// implement it.
pub trait Buffer {
    /// The buffer's size in bytes, as the driver keeps it.
    spec fn byte_size(&self) -> int;

    /// The buffer's size in bytes.
    fn size(&self) -> (n: usize)
        ensures
            n == self.byte_size(),
    ;
}

/// A framebuffer a graphics driver made of a buffer; drivers implement it.
pub trait Framebuffer {}

impl Framebuffer for () {}

/// A driver's own part of a CRTC; drivers implement it.
pub trait KmsCrtcDriver {
    type State;
}

impl KmsCrtcDriver for () {
    type State = ();
}

/// A driver's own part of a plane; drivers implement it.
pub trait KmsPlaneDriver {
    type State;
}

impl KmsPlaneDriver for () {
    type State = ();
}

/// A rectangle of a plane: its source in the framebuffer (`u32` corner) or
/// its place on the CRTC (`i32` corner).
#[derive(Debug, Copy, Clone, PartialEq, Eq, Structural)]
pub struct KmsRect<T> {
    pub x: T,
    pub y: T,
    pub width: u32,
    pub height: u32,
}

/// The role of a plane.
#[derive(Debug, Copy, Clone, PartialEq, Eq, Structural)]
pub enum KmsPlaneType {
    Primary,
    Overlay,
    Cursor,
}

impl KmsPlaneType {
    /// The `DRM_PLANE_TYPE_*` value of the role.
    pub open spec fn spec_code(self) -> u32 {
        match self {
            KmsPlaneType::Overlay => 0,
            KmsPlaneType::Primary => 1,
            KmsPlaneType::Cursor => 2,
        }
    }

    /// The `DRM_PLANE_TYPE_*` value of the role.
    pub fn code(&self) -> (c: u32)
        ensures
            c == self.spec_code(),
    {
        match self {
            KmsPlaneType::Overlay => 0,
            KmsPlaneType::Primary => 1,
            KmsPlaneType::Cursor => 2,
        }
    }
}

/// A display mode (the fields of `drm_mode_modeinfo`).
#[derive(Debug, Copy, Clone)]
pub struct KmsMode {
    pub clock: u32,
    pub hdisplay: u16,
    pub hsync_start: u16,
    pub hsync_end: u16,
    pub htotal: u16,
    pub hskew: u16,
    pub vdisplay: u16,
    pub vsync_start: u16,
    pub vsync_end: u16,
    pub vtotal: u16,
    pub vscan: u16,
    pub vrefresh: u32,
    pub flags: u32,
    pub type_: u32,
    pub name: [u8; 32],
}

/// The state of a CRTC: the mode it scans out, if it is on.
#[derive(Debug, Copy, Clone)]
pub struct KmsCrtcState {
    pub mode: Option<KmsMode>,
}

/// The state of a plane: the framebuffer it shows, the CRTC it is on, which
/// part of the framebuffer it shows and where, and the cursor hotspot when
/// the plane has one.
#[derive(Debug, Copy, Clone)]
pub struct KmsPlaneState {
    pub fb_id: Option<KmsObjectId>,
    pub crtc_id: Option<KmsObjectId>,
    pub src_rect: KmsRect<u32>,
    pub crtc_rect: KmsRect<i32>,
    pub hotspot: Option<(i32, i32)>,
}

/// A CRTC.
#[derive(Debug, Copy, Clone)]
pub struct KmsCrtc {
    pub crtc_index: u32,
    pub gamma_size: u32,
    pub primary_plane: KmsObjectId,
    pub cursor_plane: Option<KmsObjectId>,
    pub state: KmsCrtcState,
}

/// A plane.
#[derive(Debug, Copy, Clone)]
pub struct KmsPlane {
    pub plane_index: u32,
    pub possible_crtcs: u32,
    pub plane_type: KmsPlaneType,
    pub state: KmsPlaneState,
}

/// A framebuffer: a buffer of the client with a size, format and pitch.
///
/// A closed framebuffer (closed by the client, or made implicitly for a
/// cursor) is destroyed as soon as no plane of any VT uses it; until then
/// only the requests that read it back still find it.
#[derive(Debug, Copy, Clone)]
pub struct KmsFramebuffer {
    pub closed: bool,
    pub width: u32,
    pub height: u32,
    pub pixel_format: u32,
    pub pitch: u32,
    /// The buffer it shows.
    pub buffer: DumbBuffer,
}

/// A dumb buffer a handle created or imported: the driver's buffer it names
/// and its size in bytes.
#[derive(Debug, Copy, Clone, PartialEq, Eq, Structural)]
pub struct DumbBuffer {
    pub buffer: u64,
    pub size: usize,
}


/// Whether a display is attached to a connector.
#[derive(Debug, Copy, Clone, PartialEq, Eq, Structural)]
pub enum DrmConnectorStatus {
    Disconnected,
    Connected,
    Unknown,
}

/// The DRM value of a connection status.
pub open spec fn status_code(s: DrmConnectorStatus) -> u32 {
    match s {
        DrmConnectorStatus::Disconnected => 0u32,
        DrmConnectorStatus::Connected => 1u32,
        DrmConnectorStatus::Unknown => 2u32,
    }
}

impl DrmConnectorStatus {
    /// The DRM value of the status.
    pub fn code(&self) -> (c: u32)
        ensures
            c == status_code(*self),
    {
        match self {
            DrmConnectorStatus::Disconnected => 0,
            DrmConnectorStatus::Connected => 1,
            DrmConnectorStatus::Unknown => 2,
        }
    }
}

/// The subpixel layout of a display.
#[derive(Debug, Copy, Clone, PartialEq, Eq, Structural)]
pub enum DrmSubpixelOrder {
    Unknown,
    HorizontalRGB,
    HorizontalBGR,
    VerticalRGB,
    VerticalBGR,
    /// No subpixels (the `None` layout of DRM).
    NoSubpixels,
}

/// The DRM value of a subpixel layout.
pub open spec fn subpixel_code(s: DrmSubpixelOrder) -> u32 {
    match s {
        DrmSubpixelOrder::Unknown => 0u32,
        DrmSubpixelOrder::HorizontalRGB => 1u32,
        DrmSubpixelOrder::HorizontalBGR => 2u32,
        DrmSubpixelOrder::VerticalRGB => 3u32,
        DrmSubpixelOrder::VerticalBGR => 4u32,
        DrmSubpixelOrder::NoSubpixels => 5u32,
    }
}

impl DrmSubpixelOrder {
    /// The DRM value of the layout.
    pub fn code(&self) -> (c: u32)
        ensures
            c == subpixel_code(*self),
    {
        match self {
            DrmSubpixelOrder::Unknown => 0,
            DrmSubpixelOrder::HorizontalRGB => 1,
            DrmSubpixelOrder::HorizontalBGR => 2,
            DrmSubpixelOrder::VerticalRGB => 3,
            DrmSubpixelOrder::VerticalBGR => 4,
            DrmSubpixelOrder::NoSubpixels => 5,
        }
    }
}

/// An encoder: the CRTC it is on and the CRTCs and encoders it can work with.
#[derive(Debug, Copy, Clone, PartialEq, Eq, Structural)]
pub struct DrmEncoder {
    pub crtc_id: KmsObjectId,
    pub possible_crtcs: u32,
    pub possible_clones: u32,
}

/// A connector: where a display plugs in.
#[derive(Debug, Clone)]
pub struct KmsConnector {
    pub encoder_id: KmsObjectId,
    pub modes: Vec<KmsMode>,
    pub connector_type: u32,
    pub connector_type_id: u32,
    pub connection: DrmConnectorStatus,
    pub mm_width: u32,
    pub mm_height: u32,
    pub subpixel: DrmSubpixelOrder,
    /// The CRTC driving it.
    pub crtc_id: KmsObjectId,
}

/// A named value of an enum or bitmask property.
#[derive(Debug, Copy, Clone)]
pub struct PropEnum {
    pub name: [u8; 32],
    pub value: u64,
}

/// The values a property takes.
#[derive(Debug, Clone)]
pub enum KmsPropertyKind {
    Range(u64, u64),
    Enum(Vec<PropEnum>),
    Blob,
    Bitmask(Vec<PropEnum>),
    Object { type_: u32 },
    SignedRange(i64, i64),
}

/// A property that objects carry.
#[derive(Debug, Clone)]
pub struct KmsProperty {
    pub name: [u8; 32],
    pub immutable: bool,
    pub atomic: bool,
    pub kind: KmsPropertyKind,
}

/// A blob of bytes a property can point at.
#[derive(Debug, Clone)]
pub struct KmsBlob {
    pub data: Vec<u8>,
}

/// A KMS object.
#[derive(Debug, Clone)]
pub enum KmsObject {
    Crtc(KmsCrtc),
    Connector(KmsConnector),
    Encoder(DrmEncoder),
    Property(KmsProperty),
    Plane(KmsPlane),
    Framebuffer(KmsFramebuffer),
    Blob(KmsBlob),
}

impl KmsObject {
    /// The `DRM_MODE_OBJECT_*` type of the object.
    pub open spec fn spec_object_type(&self) -> u32 {
        match self {
            KmsObject::Crtc(_) => DRM_MODE_OBJECT_CRTC,
            KmsObject::Connector(_) => DRM_MODE_OBJECT_CONNECTOR,
            KmsObject::Encoder(_) => DRM_MODE_OBJECT_ENCODER,
            KmsObject::Property(_) => DRM_MODE_OBJECT_PROPERTY,
            KmsObject::Plane(_) => DRM_MODE_OBJECT_PLANE,
            KmsObject::Framebuffer(_) => DRM_MODE_OBJECT_FB,
            KmsObject::Blob(_) => DRM_MODE_OBJECT_BLOB,
        }
    }

    /// The `DRM_MODE_OBJECT_*` type of the object.
    pub fn object_type(&self) -> (t: u32)
        ensures
            t == self.spec_object_type(),
    {
        match self {
            KmsObject::Crtc(_) => DRM_MODE_OBJECT_CRTC,
            KmsObject::Connector(_) => DRM_MODE_OBJECT_CONNECTOR,
            KmsObject::Encoder(_) => DRM_MODE_OBJECT_ENCODER,
            KmsObject::Property(_) => DRM_MODE_OBJECT_PROPERTY,
            KmsObject::Plane(_) => DRM_MODE_OBJECT_PLANE,
            KmsObject::Framebuffer(_) => DRM_MODE_OBJECT_FB,
            KmsObject::Blob(_) => DRM_MODE_OBJECT_BLOB,
        }
    }
}

/// An object under its id, with the properties it carries and their values.
#[derive(Debug, Clone)]
pub struct KmsEntry {
    pub id: KmsObjectId,
    pub object: KmsObject,
    pub properties: Vec<(KmsObjectId, u64)>,
}

/// Position of the object `id` among the entries, or -1.
pub open spec fn entry_index(s: Seq<KmsEntry>, id: u32) -> int {
    if exists|i: int| 0 <= i < s.len() && s[i].id.0 == id {
        choose|i: int| 0 <= i < s.len() && s[i].id.0 == id
    } else {
        -1
    }
}

/// The KMS objects of a display driver.
pub struct KmsObjects {
    pub next_id: u32,
    pub connectors: Vec<KmsObjectId>,
    pub encoders: Vec<KmsObjectId>,
    pub crtcs: Vec<KmsObjectId>,
    pub planes: Vec<KmsObjectId>,
    pub framebuffers: Vec<KmsObjectId>,
    pub objects: Vec<KmsEntry>,
}

impl KmsObjects {
    /// Ids are unique, not 0, and below the next id to hand out.
    pub open spec fn wf(&self) -> bool {
        &&& self.next_id >= 1
        &&& forall|i: int| 0 <= i < self.objects@.len() ==> 1 <= #[trigger] self.objects@[i].id.0 < self.next_id
        &&& forall|i: int, j: int|
            0 <= i < j < self.objects@.len() ==> #[trigger] self.objects@[i].id != #[trigger] self.objects@[j].id
    }

    /// The object under `id`, if any.
    pub open spec fn lookup(&self, id: u32) -> Option<KmsObject> {
        let i = entry_index(self.objects@, id);
        if i >= 0 { Some(self.objects@[i].object) } else { None }
    }

    /// No objects; ids start at 1.
    pub fn new() -> (o: KmsObjects)
        ensures
            o.wf(),
            o.next_id == 1,
            o.objects@.len() == 0,
            o.connectors@.len() == 0 && o.encoders@.len() == 0 && o.crtcs@.len() == 0
                && o.planes@.len() == 0 && o.framebuffers@.len() == 0,
    {
        KmsObjects {
            next_id: 1,
            connectors: Vec::new(),
            encoders: Vec::new(),
            crtcs: Vec::new(),
            planes: Vec::new(),
            framebuffers: Vec::new(),
            objects: Vec::new(),
        }
    }

    /// Ids of the CRTCs, in the order they were added.
    pub fn crtc_ids(&self) -> (r: &[KmsObjectId])
        ensures
            r@ == self.crtcs@,
    {
        self.crtcs.as_slice()
    }

    /// Ids of the planes, in the order they were added.
    pub fn plane_ids(&self) -> (r: &[KmsObjectId])
        ensures
            r@ == self.planes@,
    {
        self.planes.as_slice()
    }

    /// Ids of the framebuffers, in the order they were added.
    pub fn fb_ids(&self) -> (r: &[KmsObjectId])
        ensures
            r@ == self.framebuffers@,
    {
        self.framebuffers.as_slice()
    }

    /// Ids of the connectors, in the order they were added.
    pub fn connector_ids(&self) -> (r: &[KmsObjectId])
        ensures
            r@ == self.connectors@,
    {
        self.connectors.as_slice()
    }

    /// Ids of the encoders, in the order they were added.
    pub fn encoder_ids(&self) -> (r: &[KmsObjectId])
        ensures
            r@ == self.encoders@,
    {
        self.encoders.as_slice()
    }

    /// Position of the object `id`, if there is one.
    pub fn find(&self, id: KmsObjectId) -> (r: Option<usize>)
        requires
            self.wf(),
        ensures
            match r {
                Some(i) => i < self.objects@.len() && self.objects@[i as int].id == id
                    && entry_index(self.objects@, id.0) == i,
                None => entry_index(self.objects@, id.0) == -1 && forall|j: int|
                    0 <= j < self.objects@.len() ==> self.objects@[j].id != id,
            },
    {
        let mut i: usize = 0;
        while i < self.objects.len()
            invariant
                self.wf(),
                i <= self.objects@.len(),
                forall|j: int| 0 <= j < i ==> self.objects@[j].id != id,
            decreases self.objects.len() - i,
        {
            if self.objects[i].id.0 == id.0 {
                proof {
                    let k = entry_index(self.objects@, id.0);
                    assert(0 <= k < self.objects@.len() && self.objects@[k].id.0 == id.0);
                    if k != i {
                        if k < i {
                            assert(self.objects@[k].id != self.objects@[i as int].id);
                        } else {
                            assert(self.objects@[i as int].id != self.objects@[k].id);
                        }
                    }
                }
                return Some(i);
            }
            i += 1;
        }
        None
    }

    /// Adds an object under the next id and returns that id.
    pub fn add(&mut self, object: KmsObject) -> (id: KmsObjectId)
        requires
            old(self).wf(),
            old(self).next_id < u32::MAX,
        ensures
            final(self).wf(),
            id.0 == old(self).next_id,
            final(self).next_id == old(self).next_id + 1,
            final(self).objects@ == old(self).objects@.push(
                KmsEntry { id, object, properties: final(self).objects@.last().properties },
            ),
            final(self).objects@.last().properties@.len() == 0,
            final(self).connectors == old(self).connectors,
            final(self).encoders == old(self).encoders,
            final(self).crtcs == old(self).crtcs,
            final(self).planes == old(self).planes,
            final(self).framebuffers == old(self).framebuffers,
    {
        let id = KmsObjectId(self.next_id);
        let ghost before = self.objects@;
        self.objects.push(KmsEntry { id, object, properties: Vec::new() });
        self.next_id = self.next_id + 1;
        proof {
            assert forall|i: int, j: int|
                0 <= i < j < self.objects@.len() implies #[trigger] self.objects@[i].id
                != #[trigger] self.objects@[j].id by {
                if j < before.len() {
                    assert(before[i].id != before[j].id);
                } else {
                    assert(before[i].id.0 < id.0);
                }
            }
        }
        id
    }

    /// The `DRM_MODE_OBJECT_*` type of the object `id`; ENOENT when there
    /// is none.
    pub fn object_type(&self, id: KmsObjectId) -> (r: Result<u32, Errno>)
        requires
            self.wf(),
        ensures
            match self.lookup(id.0) {
                Some(o) => r == Ok::<u32, Errno>(o.spec_object_type()),
                None => r == Err::<u32, Errno>(Errno::NoEnt),
            },
    {
        match self.find(id) {
            Some(i) => Ok(self.objects[i].object.object_type()),
            None => Err(Errno::NoEnt),
        }
    }
}

/// With unique ids, the entry holding `id` is the one `entry_index` finds.
proof fn lemma_entry_index(s: Seq<KmsEntry>, id: u32, i: int)
    requires
        0 <= i < s.len(),
        s[i].id.0 == id,
        forall|a: int, b: int| 0 <= a < b < s.len() ==> #[trigger] s[a].id != #[trigger] s[b].id,
    ensures
        entry_index(s, id) == i,
{
    let k = entry_index(s, id);
    assert(0 <= k < s.len() && s[k].id.0 == id);
    if k < i {
        assert(s[k].id != s[i].id);
    } else if k > i {
        assert(s[i].id != s[k].id);
    }
}

impl KmsObjects {
    /// Replaces the entry at `i` by one with the same id.
    fn set_entry(&mut self, i: usize, e: KmsEntry)
        requires
            old(self).wf(),
            i < old(self).objects@.len(),
            e.id == old(self).objects@[i as int].id,
        ensures
            final(self).wf(),
            final(self).objects@ == old(self).objects@.update(i as int, e),
            final(self).next_id == old(self).next_id,
            final(self).connectors == old(self).connectors,
            final(self).encoders == old(self).encoders,
            final(self).crtcs == old(self).crtcs,
            final(self).planes == old(self).planes,
            final(self).framebuffers == old(self).framebuffers,
    {
        let ghost before = self.objects@;
        let _old = self.objects.remove(i);
        self.objects.insert(i, e);
        assert(self.objects@ =~= before.update(i as int, e));
        proof {
            assert forall|a: int, b: int|
                0 <= a < b < self.objects@.len() implies #[trigger] self.objects@[a].id
                != #[trigger] self.objects@[b].id by {
                assert(self.objects@[a].id == before[a].id);
                assert(self.objects@[b].id == before[b].id);
            }
        }
    }

    /// The lookup of every id after the entry at `i` was replaced by one of
    /// the same id holding `o`.
    proof fn lemma_lookup_update(old_s: Seq<KmsEntry>, i: int, e: KmsEntry, id: u32)
        requires
            0 <= i < old_s.len(),
            e.id == old_s[i].id,
            forall|a: int, b: int| 0 <= a < b < old_s.len() ==> #[trigger] old_s[a].id != #[trigger] old_s[b].id,
        ensures
            entry_index(old_s.update(i, e), id) == entry_index(old_s, id),
    {
        let new_s = old_s.update(i, e);
        assert forall|a: int, b: int| 0 <= a < b < new_s.len() implies #[trigger] new_s[a].id != #[trigger] new_s[b].id by {
            assert(new_s[a].id == old_s[a].id);
            assert(new_s[b].id == old_s[b].id);
        }
        if exists|k: int| 0 <= k < old_s.len() && old_s[k].id.0 == id {
            let k = choose|k: int| 0 <= k < old_s.len() && old_s[k].id.0 == id;
            lemma_entry_index(old_s, id, k);
            assert(new_s[k].id == old_s[k].id);
            lemma_entry_index(new_s, id, k);
        } else {
            assert forall|j: int| 0 <= j < new_s.len() implies new_s[j].id.0 != id by {
                assert(new_s[j].id == old_s[j].id);
            }
        }
    }

    /// The lookup of every old id is unchanged after an entry with a new id
    /// was pushed.
    proof fn lemma_lookup_push(old_s: Seq<KmsEntry>, e: KmsEntry, id: u32)
        requires
            forall|a: int, b: int| 0 <= a < b < old_s.len() ==> #[trigger] old_s[a].id != #[trigger] old_s[b].id,
            forall|a: int| 0 <= a < old_s.len() ==> #[trigger] old_s[a].id != e.id,
        ensures
            id != e.id.0 ==> entry_index(old_s.push(e), id) == entry_index(old_s, id),
            entry_index(old_s.push(e), e.id.0) == old_s.len(),
    {
        let new_s = old_s.push(e);
        assert forall|a: int, b: int| 0 <= a < b < new_s.len() implies #[trigger] new_s[a].id != #[trigger] new_s[b].id by {
            if b < old_s.len() {
                assert(old_s[a].id != old_s[b].id);
            } else {
                assert(old_s[a].id != e.id);
            }
        }
        lemma_entry_index(new_s, e.id.0, old_s.len() as int);
        if id != e.id.0 {
            if exists|k: int| 0 <= k < old_s.len() && old_s[k].id.0 == id {
                let k = choose|k: int| 0 <= k < old_s.len() && old_s[k].id.0 == id;
                lemma_entry_index(old_s, id, k);
                lemma_entry_index(new_s, id, k);
            } else {
                assert forall|j: int| 0 <= j < new_s.len() implies new_s[j].id.0 != id by {}
            }
        }
    }

    /// The CRTC `id`; ENOENT when `id` is not a CRTC.
    pub fn get_crtc(&self, id: KmsObjectId) -> (r: Result<KmsCrtc, Errno>)
        requires
            self.wf(),
        ensures
            match self.lookup(id.0) {
                Some(KmsObject::Crtc(c)) => r matches Ok(c2) && c2 == c,
                _ => r == Err::<KmsCrtc, Errno>(Errno::NoEnt),
            },
    {
        match self.find(id) {
            Some(i) => match &self.objects[i].object {
                KmsObject::Crtc(c) => Ok(*c),
                _ => Err(Errno::NoEnt),
            },
            None => Err(Errno::NoEnt),
        }
    }

    /// The plane `id`; ENOENT when `id` is not a plane.
    pub fn get_plane(&self, id: KmsObjectId) -> (r: Result<KmsPlane, Errno>)
        requires
            self.wf(),
        ensures
            match self.lookup(id.0) {
                Some(KmsObject::Plane(p)) => r matches Ok(p2) && p2 == p,
                _ => r == Err::<KmsPlane, Errno>(Errno::NoEnt),
            },
    {
        match self.find(id) {
            Some(i) => match &self.objects[i].object {
                KmsObject::Plane(p) => Ok(*p),
                _ => Err(Errno::NoEnt),
            },
            None => Err(Errno::NoEnt),
        }
    }

    /// The encoder `id`; ENOENT when `id` is not an encoder.
    pub fn get_encoder(&self, id: KmsObjectId) -> (r: Result<DrmEncoder, Errno>)
        requires
            self.wf(),
        ensures
            match self.lookup(id.0) {
                Some(KmsObject::Encoder(e)) => r == Ok::<DrmEncoder, Errno>(e),
                _ => r == Err::<DrmEncoder, Errno>(Errno::NoEnt),
            },
    {
        match self.find(id) {
            Some(i) => match &self.objects[i].object {
                KmsObject::Encoder(e) => Ok(*e),
                _ => Err(Errno::NoEnt),
            },
            None => Err(Errno::NoEnt),
        }
    }

    /// The connector `id`; ENOENT when `id` is not a connector.
    pub fn get_connector(&self, id: KmsObjectId) -> (r: Result<&KmsConnector, Errno>)
        requires
            self.wf(),
        ensures
            match self.lookup(id.0) {
                Some(KmsObject::Connector(c)) => r matches Ok(c2) && *c2 == c,
                _ => r == Err::<&KmsConnector, Errno>(Errno::NoEnt),
            },
    {
        match self.find(id) {
            Some(i) => match &self.objects[i].object {
                KmsObject::Connector(c) => Ok(c),
                _ => Err(Errno::NoEnt),
            },
            None => Err(Errno::NoEnt),
        }
    }

    /// The property `id`; ENOENT when `id` is not a property.
    pub fn get_property(&self, id: KmsObjectId) -> (r: Result<&KmsProperty, Errno>)
        requires
            self.wf(),
        ensures
            match self.lookup(id.0) {
                Some(KmsObject::Property(p)) => r matches Ok(p2) && *p2 == p,
                _ => r == Err::<&KmsProperty, Errno>(Errno::NoEnt),
            },
    {
        match self.find(id) {
            Some(i) => match &self.objects[i].object {
                KmsObject::Property(p) => Ok(p),
                _ => Err(Errno::NoEnt),
            },
            None => Err(Errno::NoEnt),
        }
    }

    /// The bytes of the blob `id`; ENOENT when `id` is not a blob.
    pub fn get_blob(&self, id: KmsObjectId) -> (r: Result<&Vec<u8>, Errno>)
        requires
            self.wf(),
        ensures
            match self.lookup(id.0) {
                Some(KmsObject::Blob(b)) => r matches Ok(d) && d@ == b.data@,
                _ => r == Err::<&Vec<u8>, Errno>(Errno::NoEnt),
            },
    {
        match self.find(id) {
            Some(i) => match &self.objects[i].object {
                KmsObject::Blob(b) => Ok(&b.data),
                _ => Err(Errno::NoEnt),
            },
            None => Err(Errno::NoEnt),
        }
    }

    /// The framebuffer `id`, closed or not; ENOENT when `id` is not a
    /// framebuffer.
    pub fn get_framebuffer_maybe_closed(&self, id: KmsObjectId) -> (r: Result<KmsFramebuffer, Errno>)
        requires
            self.wf(),
        ensures
            match self.lookup(id.0) {
                Some(KmsObject::Framebuffer(f)) => r matches Ok(f2) && f2 == f,
                _ => r == Err::<KmsFramebuffer, Errno>(Errno::NoEnt),
            },
    {
        match self.find(id) {
            Some(i) => match &self.objects[i].object {
                KmsObject::Framebuffer(f) => Ok(*f),
                _ => Err(Errno::NoEnt),
            },
            None => Err(Errno::NoEnt),
        }
    }

    /// The framebuffer `id`; ENOENT when `id` is not a framebuffer or it
    /// was closed.
    pub fn get_framebuffer(&self, id: KmsObjectId) -> (r: Result<KmsFramebuffer, Errno>)
        requires
            self.wf(),
        ensures
            match self.lookup(id.0) {
                Some(KmsObject::Framebuffer(f)) => if f.closed {
                    r == Err::<KmsFramebuffer, Errno>(Errno::NoEnt)
                } else {
                    r matches Ok(f2) && f2 == f
                },
                _ => r == Err::<KmsFramebuffer, Errno>(Errno::NoEnt),
            },
    {
        let fb = self.get_framebuffer_maybe_closed(id)?;
        if fb.closed {
            return Err(Errno::NoEnt);
        }
        Ok(fb)
    }
}

/// `1 << index` for each CRTC of `ids` (each a CRTC with an index below 32).
pub open spec fn crtc_mask(o: KmsObjects, ids: Seq<KmsObjectId>) -> u32
    decreases ids.len(),
{
    if ids.len() == 0 {
        0
    } else {
        let c = o.lookup(ids.last().0);
        let bit: u32 = match c {
            Some(KmsObject::Crtc(crtc)) => (1u32 << crtc.crtc_index),
            _ => 0,
        };
        crtc_mask(o, ids.drop_last()) | bit
    }
}

/// The lookup of the other ids did not change.
pub open spec fn others_unchanged(a: KmsObjects, b: KmsObjects, id: u32) -> bool {
    forall|x: u32| x != id ==> #[trigger] b.lookup(x) == a.lookup(x)
}

/// A new plane, not on any CRTC and showing nothing.
pub open spec fn fresh_plane_state(has_hotspot: bool) -> KmsPlaneState {
    KmsPlaneState {
        fb_id: None,
        crtc_id: None,
        src_rect: KmsRect { x: 0u32, y: 0u32, width: 0, height: 0 },
        crtc_rect: KmsRect { x: 0i32, y: 0i32, width: 0, height: 0 },
        hotspot: if has_hotspot { Some((0i32, 0i32)) } else { None },
    }
}

/// A copy of a list of modes.
pub fn copy_modes(v: &Vec<KmsMode>) -> (r: Vec<KmsMode>)
    ensures
        r@ == v@,
{
    let mut r: Vec<KmsMode> = Vec::new();
    let mut i: usize = 0;
    while i < v.len()
        invariant
            i <= v@.len(),
            r@ == v@.take(i as int),
        decreases v.len() - i,
    {
        r.push(v[i]);
        i += 1;
        assert(r@ =~= v@.take(i as int));
    }
    assert(v@.take(v@.len() as int) =~= v@);
    r
}

proof fn lemma_lookup_remove(old_s: Seq<KmsEntry>, i: int, id: u32)
    requires
        0 <= i < old_s.len(),
        forall|a: int, b: int| 0 <= a < b < old_s.len() ==> #[trigger] old_s[a].id != #[trigger] old_s[b].id,
    ensures
        id == old_s[i].id.0 ==> entry_index(old_s.remove(i), id) == -1,
        id != old_s[i].id.0 ==> (entry_index(old_s.remove(i), id) == -1) == (entry_index(old_s, id) == -1),
        id != old_s[i].id.0 && entry_index(old_s, id) >= 0 ==> old_s.remove(i)[entry_index(old_s.remove(i), id)] == old_s[entry_index(old_s, id)],
{
    let new_s = old_s.remove(i);
    assert forall|a: int, b: int| 0 <= a < b < new_s.len() implies #[trigger] new_s[a].id != #[trigger] new_s[b].id by {
        let oa = if a < i { a } else { a + 1 };
        let ob = if b < i { b } else { b + 1 };
        assert(new_s[a] == old_s[oa] && new_s[b] == old_s[ob]);
        assert(old_s[oa].id != old_s[ob].id);
    }
    if id == old_s[i].id.0 {
        assert forall|j: int| 0 <= j < new_s.len() implies new_s[j].id.0 != id by {
            let oj = if j < i { j } else { j + 1 };
            assert(new_s[j] == old_s[oj]);
            if oj < i {
                assert(old_s[oj].id != old_s[i].id);
            } else {
                assert(old_s[i].id != old_s[oj].id);
            }
        }
    } else {
        if exists|k: int| 0 <= k < old_s.len() && old_s[k].id.0 == id {
            let k = choose|k: int| 0 <= k < old_s.len() && old_s[k].id.0 == id;
            lemma_entry_index(old_s, id, k);
            let nk = if k < i { k } else { k - 1 };
            assert(new_s[nk] == old_s[k]);
            lemma_entry_index(new_s, id, nk);
        } else {
            assert forall|j: int| 0 <= j < new_s.len() implies new_s[j].id.0 != id by {
                let oj = if j < i { j } else { j + 1 };
                assert(new_s[j] == old_s[oj]);
            }
        }
    }
}

impl KmsObjects {
    /// Replaces the object found at `i` by `o`; every other id keeps its
    /// object.
    pub fn replace_object(&mut self, i: usize, o: KmsObject)
        requires
            old(self).wf(),
            i < old(self).objects@.len(),
        ensures
            final(self).wf(),
            final(self).next_id == old(self).next_id,
            final(self).objects@.len() == old(self).objects@.len(),
            final(self).lookup(old(self).objects@[i as int].id.0) == Some(o),
            others_unchanged(*old(self), *final(self), old(self).objects@[i as int].id.0),
            final(self).connectors == old(self).connectors,
            final(self).encoders == old(self).encoders,
            final(self).crtcs == old(self).crtcs,
            final(self).planes == old(self).planes,
            final(self).framebuffers == old(self).framebuffers,
    {
        let ghost before = self.objects@;
        let id = self.objects[i].id;
        let props = self.objects[i].properties.clone();
        let e = KmsEntry { id, object: o, properties: props };
        self.set_entry(i, e);
        proof {
            lemma_entry_index(self.objects@, id.0, i as int);
            assert forall|x: u32| x != id.0 implies #[trigger] self.lookup(x) == old(self).lookup(x) by {
                Self::lemma_lookup_update(before, i as int, e, x);
            }
        }
    }

    /// Sets the state of the CRTC `id`; ENOENT when `id` is not a CRTC.
    pub fn set_crtc_state(&mut self, id: KmsObjectId, state: KmsCrtcState) -> (r: Result<(), Errno>)
        requires
            old(self).wf(),
        ensures
            final(self).wf(),
            final(self).next_id == old(self).next_id,
            final(self).crtcs == old(self).crtcs && final(self).planes == old(self).planes
                && final(self).connectors == old(self).connectors && final(self).encoders == old(self).encoders
                && final(self).framebuffers == old(self).framebuffers,
            others_unchanged(*old(self), *final(self), id.0),
            match old(self).lookup(id.0) {
                Some(KmsObject::Crtc(c)) => r is Ok && final(self).lookup(id.0) == Some(
                    KmsObject::Crtc(KmsCrtc { state, ..c }),
                ),
                _ => r == Err::<(), Errno>(Errno::NoEnt) && final(self).lookup(id.0) == old(self).lookup(id.0),
            },
    {
        match self.find(id) {
            Some(i) => match &self.objects[i].object {
                KmsObject::Crtc(c) => {
                    let c2 = KmsCrtc { state, ..*c };
                    self.replace_object(i, KmsObject::Crtc(c2));
                    Ok(())
                },
                _ => Err(Errno::NoEnt),
            },
            None => Err(Errno::NoEnt),
        }
    }

    /// Sets the state of the plane `id`; ENOENT when `id` is not a plane.
    pub fn set_plane_state(&mut self, id: KmsObjectId, state: KmsPlaneState) -> (r: Result<(), Errno>)
        requires
            old(self).wf(),
        ensures
            final(self).wf(),
            final(self).next_id == old(self).next_id,
            final(self).crtcs == old(self).crtcs && final(self).planes == old(self).planes
                && final(self).connectors == old(self).connectors && final(self).encoders == old(self).encoders
                && final(self).framebuffers == old(self).framebuffers,
            others_unchanged(*old(self), *final(self), id.0),
            match old(self).lookup(id.0) {
                Some(KmsObject::Plane(p)) => r is Ok && final(self).lookup(id.0) == Some(
                    KmsObject::Plane(KmsPlane { state, ..p }),
                ),
                _ => r == Err::<(), Errno>(Errno::NoEnt) && final(self).lookup(id.0) == old(self).lookup(id.0),
            },
    {
        match self.find(id) {
            Some(i) => match &self.objects[i].object {
                KmsObject::Plane(p) => {
                    let p2 = KmsPlane { state, ..*p };
                    self.replace_object(i, KmsObject::Plane(p2));
                    Ok(())
                },
                _ => Err(Errno::NoEnt),
            },
            None => Err(Errno::NoEnt),
        }
    }

    /// Puts the connector `id` on the CRTC `crtc_id`; ENOENT when `id` is
    /// not a connector.
    pub fn set_connector_crtc(&mut self, id: KmsObjectId, crtc_id: KmsObjectId) -> (r: Result<(), Errno>)
        requires
            old(self).wf(),
        ensures
            final(self).wf(),
            final(self).next_id == old(self).next_id,
            final(self).crtcs == old(self).crtcs && final(self).planes == old(self).planes
                && final(self).connectors == old(self).connectors && final(self).encoders == old(self).encoders
                && final(self).framebuffers == old(self).framebuffers,
            others_unchanged(*old(self), *final(self), id.0),
            match old(self).lookup(id.0) {
                Some(KmsObject::Connector(c)) => r is Ok && (final(self).lookup(id.0) matches Some(
                    KmsObject::Connector(c2)) && c2.crtc_id == crtc_id && c2.encoder_id == c.encoder_id
                    && c2.modes@ == c.modes@ && c2.connection == c.connection),
                _ => r == Err::<(), Errno>(Errno::NoEnt) && final(self).lookup(id.0) == old(self).lookup(id.0),
            },
    {
        match self.find(id) {
            Some(i) => match &self.objects[i].object {
                KmsObject::Connector(c) => {
                    let c2 = KmsConnector { crtc_id, modes: copy_modes(&c.modes), ..*c };
                    self.replace_object(i, KmsObject::Connector(c2));
                    Ok(())
                },
                _ => Err(Errno::NoEnt),
            },
            None => Err(Errno::NoEnt),
        }
    }
}

impl KmsObjects {
    /// Adds an object under a fresh id; every other id keeps its object.
    fn add_object(&mut self, object: KmsObject) -> (id: KmsObjectId)
        requires
            old(self).wf(),
            old(self).next_id < u32::MAX,
        ensures
            final(self).wf(),
            id.0 == old(self).next_id,
            final(self).next_id == old(self).next_id + 1,
            old(self).lookup(id.0) is None,
            final(self).lookup(id.0) == Some(object),
            others_unchanged(*old(self), *final(self), id.0),
            final(self).connectors == old(self).connectors,
            final(self).encoders == old(self).encoders,
            final(self).crtcs == old(self).crtcs,
            final(self).planes == old(self).planes,
            final(self).framebuffers == old(self).framebuffers,
    {
        let ghost before = self.objects@;
        let id = self.add(object);
        proof {
            let e = self.objects@.last();
            assert(self.objects@ == before.push(e));
            assert forall|a: int| 0 <= a < before.len() implies #[trigger] before[a].id != e.id by {}
            Self::lemma_lookup_push(before, e, id.0);
            assert forall|j: int| 0 <= j < before.len() implies before[j].id.0 != id.0 by {}
            assert forall|x: u32| x != id.0 implies #[trigger] self.lookup(x) == old(self).lookup(x) by {
                Self::lemma_lookup_push(before, e, x);
                if entry_index(before, x) >= 0 {
                    assert(self.objects@[entry_index(before, x)] == before[entry_index(before, x)]);
                }
            }
        }
        id
    }

    /// Adds a plane of type `plane_type` usable on the CRTCs `crtcs`, with a
    /// cursor hotspot when `has_hotspot` (only cursor planes have one).
    pub fn add_plane(&mut self, crtcs: &[KmsObjectId], plane_type: KmsPlaneType, has_hotspot: bool) -> (id: KmsObjectId)
        requires
            old(self).wf(),
            old(self).next_id < u32::MAX,
            old(self).planes@.len() <= u32::MAX,
            has_hotspot ==> plane_type == KmsPlaneType::Cursor,
            forall|i: int| 0 <= i < crtcs@.len() ==> (old(self).lookup(#[trigger] crtcs@[i].0) matches Some(KmsObject::Crtc(c)) && c.crtc_index < 32),
        ensures
            final(self).wf(),
            id.0 == old(self).next_id,
            final(self).next_id == old(self).next_id + 1,
            final(self).lookup(id.0) == Some(KmsObject::Plane(KmsPlane {
                plane_index: old(self).planes@.len() as u32,
                possible_crtcs: crtc_mask(*old(self), crtcs@),
                plane_type,
                state: fresh_plane_state(has_hotspot),
            })),
            others_unchanged(*old(self), *final(self), id.0),
            final(self).planes@ == old(self).planes@.push(id),
            final(self).crtcs == old(self).crtcs,
            final(self).connectors == old(self).connectors,
            final(self).encoders == old(self).encoders,
            final(self).framebuffers == old(self).framebuffers,
    {
        let mut possible_crtcs: u32 = 0;
        let mut i: usize = 0;
        while i < crtcs.len()
            invariant
                self.wf(),
                self == old(self),
                i <= crtcs@.len(),
                forall|k: int| 0 <= k < crtcs@.len() ==> (self.lookup(#[trigger] crtcs@[k].0) matches Some(KmsObject::Crtc(c)) && c.crtc_index < 32),
                possible_crtcs == crtc_mask(*self, crtcs@.take(i as int)),
            decreases crtcs.len() - i,
        {
            proof {
                assert(crtcs@.take(i + 1).drop_last() =~= crtcs@.take(i as int));
                assert(crtcs@.take(i + 1).last() == crtcs@[i as int]);
            }
            let c = self.get_crtc(crtcs[i]).unwrap();
            possible_crtcs = possible_crtcs | (1u32 << c.crtc_index);
            i += 1;
        }
        assert(crtcs@.take(crtcs@.len() as int) =~= crtcs@);
        let plane_index = self.planes.len() as u32;
        let state = KmsPlaneState {
            fb_id: None,
            crtc_id: None,
            src_rect: KmsRect { x: 0u32, y: 0u32, width: 0, height: 0 },
            crtc_rect: KmsRect { x: 0i32, y: 0i32, width: 0, height: 0 },
            hotspot: if has_hotspot { Some((0i32, 0i32)) } else { None },
        };
        let id = self.add_object(KmsObject::Plane(KmsPlane { plane_index, possible_crtcs, plane_type, state }));
        let ghost mid = *self;
        self.planes.push(id);
        proof {
            assert forall|x: u32| x != id.0 implies #[trigger] self.lookup(x) == old(self).lookup(x) by {
                assert(mid.lookup(x) == old(self).lookup(x));
            }
        }
        id
    }

    /// Adds a CRTC with its primary plane; the plane can only be used on
    /// this CRTC. Returns the CRTC and the plane.
    pub fn add_crtc(&mut self) -> (r: (KmsObjectId, KmsObjectId))
        requires
            old(self).wf(),
            old(self).next_id < u32::MAX - 1,
            old(self).planes@.len() <= u32::MAX,
            old(self).crtcs@.len() < 32,
        ensures
            final(self).wf(),
            r.1.0 == old(self).next_id,
            r.0.0 == old(self).next_id + 1,
            final(self).next_id == old(self).next_id + 2,
            final(self).lookup(r.0.0) == Some(KmsObject::Crtc(KmsCrtc {
                crtc_index: old(self).crtcs@.len() as u32,
                gamma_size: 0,
                primary_plane: r.1,
                cursor_plane: None,
                state: KmsCrtcState { mode: None },
            })),
            final(self).lookup(r.1.0) == Some(KmsObject::Plane(KmsPlane {
                plane_index: old(self).planes@.len() as u32,
                possible_crtcs: 1u32 << (old(self).crtcs@.len() as u32),
                plane_type: KmsPlaneType::Primary,
                state: fresh_plane_state(false),
            })),
            forall|x: u32| x != r.0.0 && x != r.1.0 ==> #[trigger] final(self).lookup(x) == old(self).lookup(x),
            final(self).crtcs@ == old(self).crtcs@.push(r.0),
            final(self).planes@ == old(self).planes@.push(r.1),
            final(self).connectors == old(self).connectors,
            final(self).encoders == old(self).encoders,
            final(self).framebuffers == old(self).framebuffers,
    {
        let ghost s0 = *self;
        let empty: Vec<KmsObjectId> = Vec::new();
        let primary_plane = self.add_plane(empty.as_slice(), KmsPlaneType::Primary, false);
        let ghost s1 = *self;
        let crtc_index = self.crtcs.len() as u32;
        let id = self.add_object(KmsObject::Crtc(KmsCrtc {
            crtc_index,
            gamma_size: 0,
            primary_plane,
            cursor_plane: None,
            state: KmsCrtcState { mode: None },
        }));
        let ghost s15 = *self;
        self.crtcs.push(id);
        let ghost s2 = *self;
        proof {
            assert(s15.lookup(primary_plane.0) == s1.lookup(primary_plane.0));
            assert(s2.lookup(primary_plane.0) == s15.lookup(primary_plane.0));
        }
        let p = self.get_plane(primary_plane).unwrap();
        let i = self.find(primary_plane).unwrap();
        self.replace_object(i, KmsObject::Plane(KmsPlane { possible_crtcs: 1u32 << crtc_index, ..p }));
        proof {
            assert(crtc_mask(s0, empty@) == 0);
            assert forall|x: u32| x != id.0 && x != primary_plane.0 implies #[trigger] self.lookup(x) == s0.lookup(x) by {
                assert(self.lookup(x) == s2.lookup(x));
                assert(s15.lookup(x) == s1.lookup(x));
                assert(s2.lookup(x) == s15.lookup(x));
                assert(s1.lookup(x) == s0.lookup(x));
            }
            assert(self.lookup(id.0) == s2.lookup(id.0));
            assert(s2.lookup(id.0) == s15.lookup(id.0));
        }
        (id, primary_plane)
    }

    /// Adds a connector with an encoder of its own (an encoder that can be
    /// cloned with itself only), disconnected state unknown, no modes.
    /// Returns the connector.
    pub fn add_connector(&mut self) -> (id: KmsObjectId)
        requires
            old(self).wf(),
            old(self).next_id < u32::MAX - 1,
            old(self).encoders@.len() < 32,
            old(self).connectors@.len() <= u32::MAX,
        ensures
            final(self).wf(),
            id.0 == old(self).next_id + 1,
            final(self).next_id == old(self).next_id + 2,
            final(self).lookup(old(self).next_id) == Some(KmsObject::Encoder(DrmEncoder {
                crtc_id: KmsObjectId(0),
                possible_crtcs: 0,
                possible_clones: 1u32 << (old(self).encoders@.len() as u32),
            })),
            final(self).lookup(id.0) matches Some(KmsObject::Connector(c)) && c.encoder_id.0 == old(self).next_id
                && c.modes@.len() == 0 && c.connector_type_id == old(self).connectors@.len()
                && c.connection == DrmConnectorStatus::Unknown && c.subpixel == DrmSubpixelOrder::Unknown
                && c.crtc_id.0 == 0,
            forall|x: u32| x != id.0 && x != old(self).next_id ==> #[trigger] final(self).lookup(x) == old(self).lookup(x),
            final(self).encoders@ == old(self).encoders@.push(KmsObjectId(old(self).next_id)),
            final(self).connectors@ == old(self).connectors@.push(id),
            final(self).crtcs == old(self).crtcs,
            final(self).planes == old(self).planes,
            final(self).framebuffers == old(self).framebuffers,
    {
        let ghost s0 = *self;
        let clones: u32 = 1u32 << (self.encoders.len() as u32);
        let encoder_id = self.add_object(KmsObject::Encoder(DrmEncoder {
            crtc_id: KmsObjectId(0),
            possible_crtcs: 0,
            possible_clones: clones,
        }));
        let ghost s05 = *self;
        self.encoders.push(encoder_id);
        let ghost s1 = *self;
        let connector_id = self.add_object(KmsObject::Connector(KmsConnector {
            encoder_id,
            modes: Vec::new(),
            connector_type: 0,
            connector_type_id: self.connectors.len() as u32,
            connection: DrmConnectorStatus::Unknown,
            mm_width: 0,
            mm_height: 0,
            subpixel: DrmSubpixelOrder::Unknown,
            crtc_id: KmsObjectId(0),
        }));
        let ghost s15 = *self;
        self.connectors.push(connector_id);
        proof {
            assert forall|x: u32| x != connector_id.0 && x != s0.next_id implies #[trigger] self.lookup(x) == s0.lookup(x) by {
                assert(self.lookup(x) == s15.lookup(x));
                assert(s15.lookup(x) == s1.lookup(x));
                assert(s1.lookup(x) == s05.lookup(x));
                assert(s05.lookup(x) == s0.lookup(x));
            }
            assert(self.lookup(connector_id.0) == s15.lookup(connector_id.0));
            assert(self.lookup(encoder_id.0) == s15.lookup(encoder_id.0));
            assert(s15.lookup(encoder_id.0) == s1.lookup(encoder_id.0));
            assert(s1.lookup(encoder_id.0) == s05.lookup(encoder_id.0));
        }
        connector_id
    }

    /// Adds a framebuffer and lists it among the framebuffers.
    pub fn add_framebuffer(&mut self, fb: KmsFramebuffer) -> (id: KmsObjectId)
        requires
            old(self).wf(),
            old(self).next_id < u32::MAX,
        ensures
            final(self).wf(),
            id.0 == old(self).next_id,
            final(self).next_id == old(self).next_id + 1,
            final(self).lookup(id.0) == Some(KmsObject::Framebuffer(fb)),
            others_unchanged(*old(self), *final(self), id.0),
            final(self).framebuffers@ == old(self).framebuffers@.push(id),
            final(self).crtcs == old(self).crtcs,
            final(self).planes == old(self).planes,
            final(self).connectors == old(self).connectors,
            final(self).encoders == old(self).encoders,
    {
        let id = self.add_object(KmsObject::Framebuffer(fb));
        let ghost mid = *self;
        self.framebuffers.push(id);
        proof {
            assert forall|x: u32| x != id.0 implies #[trigger] self.lookup(x) == old(self).lookup(x) by {
                assert(mid.lookup(x) == old(self).lookup(x));
            }
            assert(self.lookup(id.0) == mid.lookup(id.0));
        }
        id
    }

    /// Removes the framebuffer `id`; ENOENT when `id` is not a framebuffer.
    /// (It stays in the list of framebuffer ids.)
    pub fn remove_framebuffer(&mut self, id: KmsObjectId) -> (r: Result<(), Errno>)
        requires
            old(self).wf(),
        ensures
            final(self).wf(),
            final(self).next_id == old(self).next_id,
            others_unchanged(*old(self), *final(self), id.0),
            final(self).crtcs == old(self).crtcs && final(self).planes == old(self).planes
                && final(self).connectors == old(self).connectors && final(self).encoders == old(self).encoders
                && final(self).framebuffers == old(self).framebuffers,
            match old(self).lookup(id.0) {
                Some(KmsObject::Framebuffer(_)) => r is Ok && final(self).lookup(id.0) is None,
                _ => r == Err::<(), Errno>(Errno::NoEnt) && *final(self) == *old(self),
            },
    {
        match self.find(id) {
            Some(i) => {
                let is_fb = match &self.objects[i].object {
                    KmsObject::Framebuffer(_) => true,
                    _ => false,
                };
                if !is_fb {
                    return Err(Errno::NoEnt);
                }
                let ghost before = self.objects@;
                let _e = self.objects.remove(i);
                proof {
                    assert(self.objects@ == before.remove(i as int));
                    lemma_lookup_remove(before, i as int, id.0);
                    assert forall|a: int, b: int| 0 <= a < b < self.objects@.len() implies #[trigger] self.objects@[a].id != #[trigger] self.objects@[b].id by {
                        let oa = if a < i { a } else { a + 1 };
                        let ob = if b < i { b } else { b + 1 };
                        assert(self.objects@[a] == before[oa] && self.objects@[b] == before[ob]);
                    }
                    assert forall|a: int| 0 <= a < self.objects@.len() implies 1 <= #[trigger] self.objects@[a].id.0 < self.next_id by {
                        let oa = if a < i { a } else { a + 1 };
                        assert(self.objects@[a] == before[oa]);
                    }
                    assert forall|x: u32| x != id.0 implies #[trigger] self.lookup(x) == old(self).lookup(x) by {
                        lemma_lookup_remove(before, i as int, x);
                    }
                }
                Ok(())
            },
            None => Err(Errno::NoEnt),
        }
    }

    /// Removes the framebuffer `id` when it was closed.
    pub fn remove_framebuffer_if_closed(&mut self, id: KmsObjectId)
        requires
            old(self).wf(),
            old(self).lookup(id.0) matches Some(KmsObject::Framebuffer(_)),
        ensures
            final(self).wf(),
            final(self).next_id == old(self).next_id,
            others_unchanged(*old(self), *final(self), id.0),
            final(self).crtcs == old(self).crtcs && final(self).planes == old(self).planes
                && final(self).connectors == old(self).connectors && final(self).encoders == old(self).encoders
                && final(self).framebuffers == old(self).framebuffers,
            old(self).lookup(id.0) matches Some(KmsObject::Framebuffer(f)) && (if f.closed {
                final(self).lookup(id.0) is None
            } else {
                final(self).lookup(id.0) == old(self).lookup(id.0)
            }),
    {
        let fb = self.get_framebuffer_maybe_closed(id).unwrap();
        if fb.closed {
            let _ = self.remove_framebuffer(id);
        }
    }
}

/// The name of a property: its bytes, zero padded to 32.
pub open spec fn padded_name(name: Seq<u8>) -> Seq<u8> {
    Seq::new(32, |i: int| if i < name.len() { name[i] } else { 0u8 })
}

/// The property kind can be added: a range starts below its end.
pub open spec fn kind_valid(kind: KmsPropertyKind) -> bool {
    match kind {
        KmsPropertyKind::Range(start, end) => start < end,
        KmsPropertyKind::SignedRange(start, end) => start < end,
        _ => true,
    }
}

impl KmsObjects {
    /// The properties carried by the object `id` and their values.
    pub open spec fn props_of(&self, id: u32) -> Seq<(KmsObjectId, u64)> {
        let i = entry_index(self.objects@, id);
        if i >= 0 { self.objects@[i].properties@ } else { Seq::empty() }
    }

    /// Adds a property named `name` (at most 32 bytes).
    pub fn add_property(&mut self, name: &[u8], immutable: bool, atomic: bool, kind: KmsPropertyKind) -> (id: KmsObjectId)
        requires
            old(self).wf(),
            old(self).next_id < u32::MAX,
            name@.len() <= 32,
            kind_valid(kind),
        ensures
            final(self).wf(),
            id.0 == old(self).next_id,
            final(self).lookup(id.0) matches Some(KmsObject::Property(p)) && p.name@ == padded_name(name@)
                && p.immutable == immutable && p.atomic == atomic && p.kind == kind,
            others_unchanged(*old(self), *final(self), id.0),
            final(self).crtcs == old(self).crtcs && final(self).planes == old(self).planes
                && final(self).connectors == old(self).connectors && final(self).encoders == old(self).encoders
                && final(self).framebuffers == old(self).framebuffers,
    {
        let mut name_bytes = [0u8; 32];
        let mut i: usize = 0;
        while i < name.len()
            invariant
                name@.len() <= 32,
                i <= name@.len(),
                forall|k: int| 0 <= k < i ==> name_bytes@[k] == name@[k],
                forall|k: int| i <= k < 32 ==> name_bytes@[k] == 0,
            decreases name.len() - i,
        {
            name_bytes[i] = name[i];
            i += 1;
        }
        assert(name_bytes@ =~= padded_name(name@));
        self.add_object(KmsObject::Property(KmsProperty { name: name_bytes, immutable, atomic, kind }))
    }

    /// Adds a blob holding `data`.
    pub fn add_blob(&mut self, data: Vec<u8>) -> (id: KmsObjectId)
        requires
            old(self).wf(),
            old(self).next_id < u32::MAX,
        ensures
            final(self).wf(),
            id.0 == old(self).next_id,
            final(self).lookup(id.0) matches Some(KmsObject::Blob(b)) && b.data@ == data@,
            others_unchanged(*old(self), *final(self), id.0),
            final(self).crtcs == old(self).crtcs && final(self).planes == old(self).planes
                && final(self).connectors == old(self).connectors && final(self).encoders == old(self).encoders
                && final(self).framebuffers == old(self).framebuffers,
    {
        self.add_object(KmsObject::Blob(KmsBlob { data }))
    }

    /// Gives the object `object` the property `property` with `value`.
    pub fn add_object_property(&mut self, object: KmsObjectId, property: KmsObjectId, value: u64)
        requires
            old(self).wf(),
            old(self).lookup(object.0) is Some,
        ensures
            final(self).wf(),
            forall|x: u32| #[trigger] final(self).lookup(x) == old(self).lookup(x),
            final(self).props_of(object.0) == old(self).props_of(object.0).push((property, value)),
            forall|x: u32| x != object.0 ==> #[trigger] final(self).props_of(x) == old(self).props_of(x),
            final(self).next_id == old(self).next_id,
    {
        let i = self.find(object).unwrap();
        let ghost before = self.objects@;
        self.objects[i].properties.push((property, value));
        proof {
            assert forall|j: int| 0 <= j < self.objects@.len() && j != i implies self.objects@[j] == before[j] by {}
            assert(self.objects@[i as int].id == before[i as int].id);
            assert(self.objects@[i as int].object == before[i as int].object);
            assert forall|a: int, b: int| 0 <= a < b < self.objects@.len() implies #[trigger] self.objects@[a].id != #[trigger] self.objects@[b].id by {
                assert(self.objects@[a].id == before[a].id && self.objects@[b].id == before[b].id);
            }
            assert(self.objects@ == before.update(i as int, self.objects@[i as int]));
            lemma_entry_index(self.objects@, object.0, i as int);
            assert forall|x: u32| #[trigger] self.lookup(x) == old(self).lookup(x) by {
                Self::lemma_lookup_update(before, i as int, self.objects@[i as int], x);
            }
            assert forall|x: u32| x != object.0 implies #[trigger] self.props_of(x) == old(self).props_of(x) by {
                Self::lemma_lookup_update(before, i as int, self.objects@[i as int], x);
            }
        }
    }

    /// Sets the value of every property `property` of the object `object`.
    pub fn set_object_property(&mut self, object: KmsObjectId, property: KmsObjectId, value: u64)
        requires
            old(self).wf(),
            old(self).lookup(object.0) is Some,
        ensures
            final(self).wf(),
            forall|x: u32| #[trigger] final(self).lookup(x) == old(self).lookup(x),
            final(self).props_of(object.0) == Seq::new(
                old(self).props_of(object.0).len(),
                |k: int|
                    if old(self).props_of(object.0)[k].0 == property {
                        (property, value)
                    } else {
                        old(self).props_of(object.0)[k]
                    },
            ),
            forall|x: u32| x != object.0 ==> #[trigger] final(self).props_of(x) == old(self).props_of(x),
            final(self).next_id == old(self).next_id,
    {
        let i = self.find(object).unwrap();
        let ghost before = self.objects@;
        let ghost old_props = before[i as int].properties@;
        let n = self.objects[i].properties.len();
        let mut k: usize = 0;
        while k < n
            invariant
                i < self.objects@.len(),
                self.next_id == old(self).next_id,
                self.objects@.len() == before.len(),
                before == old(self).objects@,
                old_props == before[i as int].properties@,
                n == old_props.len(),
                forall|j: int| 0 <= j < before.len() && j != i ==> self.objects@[j] == before[j],
                self.objects@[i as int].id == before[i as int].id,
                self.objects@[i as int].object == before[i as int].object,
                self.objects@[i as int].properties@.len() == n,
                k <= n,
                forall|j: int| 0 <= j < k ==> self.objects@[i as int].properties@[j] == if old_props[j].0 == property { (property, value) } else { old_props[j] },
                forall|j: int| k <= j < n ==> self.objects@[i as int].properties@[j] == old_props[j],
            decreases n - k,
        {
            let pv = self.objects[i].properties[k];
            if pv.0.0 == property.0 {
                self.objects[i].properties.set(k, (property, value));
            }
            k += 1;
        }
        proof {
            assert forall|a: int, b: int| 0 <= a < b < self.objects@.len() implies #[trigger] self.objects@[a].id != #[trigger] self.objects@[b].id by {
                assert(self.objects@[a].id == before[a].id && self.objects@[b].id == before[b].id);
            }
            assert(self.objects@ =~= before.update(i as int, self.objects@[i as int]));
            lemma_entry_index(self.objects@, object.0, i as int);
            lemma_entry_index(before, object.0, i as int);
            assert forall|x: u32| #[trigger] self.lookup(x) == old(self).lookup(x) by {
                Self::lemma_lookup_update(before, i as int, self.objects@[i as int], x);
            }
            assert forall|x: u32| x != object.0 implies #[trigger] self.props_of(x) == old(self).props_of(x) by {
                Self::lemma_lookup_update(before, i as int, self.objects@[i as int], x);
            }
            assert(self.props_of(object.0) =~= Seq::new(
                old_props.len(),
                |k: int| if old_props[k].0 == property { (property, value) } else { old_props[k] },
            ));
        }
    }

    /// The properties of the object `id` and their values, as two lists;
    /// EINVAL when there is no such object.
    pub fn get_object_properties(&self, id: KmsObjectId) -> (r: Result<(Vec<u32>, Vec<u64>), Errno>)
        requires
            self.wf(),
        ensures
            self.lookup(id.0) is None ==> r == Err::<(Vec<u32>, Vec<u64>), Errno>(Errno::Inval),
            self.lookup(id.0) is Some ==> (r matches Ok((ids, vals)) && ids@.len() == self.props_of(id.0).len()
                && vals@.len() == self.props_of(id.0).len() && forall|k: int| 0 <= k < ids@.len() ==> ids@[k] == self.props_of(id.0)[k].0.0 && vals@[k] == self.props_of(id.0)[k].1),
    {
        let i = match self.find(id) {
            Some(i) => i,
            None => return Err(Errno::Inval),
        };
        let ghost ps = self.objects@[i as int].properties@;
        let mut ids: Vec<u32> = Vec::new();
        let mut vals: Vec<u64> = Vec::new();
        let mut k: usize = 0;
        while k < self.objects[i].properties.len()
            invariant
                i < self.objects@.len(),
                ps == self.objects@[i as int].properties@,
                k <= ps.len(),
                ids@.len() == k && vals@.len() == k,
                forall|j: int| 0 <= j < k ==> ids@[j] == ps[j].0.0 && vals@[j] == ps[j].1,
            decreases self.objects@[i as int].properties@.len() - k,
        {
            let pv = self.objects[i].properties[k];
            ids.push(pv.0.0);
            vals.push(pv.1);
            k += 1;
        }
        Ok((ids, vals))
    }
}

/// A copy of a list of named values.
pub fn copy_enums(v: &Vec<PropEnum>) -> (r: Vec<PropEnum>)
    ensures
        r@ == v@,
{
    let mut r: Vec<PropEnum> = Vec::new();
    let mut i: usize = 0;
    while i < v.len()
        invariant
            i <= v@.len(),
            r@ == v@.take(i as int),
        decreases v.len() - i,
    {
        r.push(v[i]);
        i += 1;
        assert(r@ =~= v@.take(i as int));
    }
    assert(v@.take(v@.len() as int) =~= v@);
    r
}

/// A copy of a byte buffer.
pub fn copy_bytes(v: &Vec<u8>) -> (r: Vec<u8>)
    ensures
        r@ == v@,
{
    let mut r: Vec<u8> = Vec::new();
    let mut i: usize = 0;
    while i < v.len()
        invariant
            i <= v@.len(),
            r@ == v@.take(i as int),
        decreases v.len() - i,
    {
        r.push(v[i]);
        i += 1;
        assert(r@ =~= v@.take(i as int));
    }
    assert(v@.take(v@.len() as int) =~= v@);
    r
}

} // verus!
