//! USB HID input: the HID class descriptor, the keyboard usage table, and
//! the decisions that turn HID report events into mouse, keyboard and
//! gamepad input.

use vstd::prelude::*;
use smallvec::SmallVec;

verus! {

/// The type of a HID class descriptor.
#[derive(Debug, Copy, Clone, PartialEq, Eq, Structural)]
pub enum HidClassType {
    HID,
    Report,
    Physical,
}

impl HidClassType {
    /// The descriptor type byte.
    pub open spec fn spec_code(self) -> u8 {
        match self {
            HidClassType::HID => 0x21,
            HidClassType::Report => 0x22,
            HidClassType::Physical => 0x23,
        }
    }

    /// The type named by a descriptor type byte, if any.
    pub fn from_code(b: u8) -> (r: Option<HidClassType>)
        ensures
            match r {
                Some(t) => t.spec_code() == b,
                None => b != 0x21 && b != 0x22 && b != 0x23,
            },
    {
        if b == 0x21 {
            Some(HidClassType::HID)
        } else if b == 0x22 {
            Some(HidClassType::Report)
        } else if b == 0x23 {
            Some(HidClassType::Physical)
        } else {
            None
        }
    }
}

/// One class descriptor listed by a HID descriptor: its type and length.
#[derive(Debug, Copy, Clone, PartialEq, Eq, Structural)]
pub struct HidClassDescriptor {
    pub desc_type: HidClassType,
    pub desc_len: u16,
}

/// Why a HID descriptor was refused.
#[derive(Debug, Copy, Clone, PartialEq, Eq, Structural)]
pub enum HidError {
    /// Shorter than one class descriptor.
    InvalidLength,
    /// Its type is not the HID descriptor type.
    NotHid,
    /// Its length does not match its number of class descriptors.
    LengthMismatch(u8),
    /// A class descriptor has a type byte that names no class type.
    UnknownClassType(u8),
    /// It lists no report descriptor.
    NoReportDescriptor,
}

/// The class descriptors of a HID descriptor, in a `SmallVec` with room
/// for one inline (Verus cannot declare `SmallVec` itself: its bound is an
/// outside trait).
#[verifier::external_body]
pub struct ClassDescs {
    inner: SmallVec<[HidClassDescriptor; 1]>,
}

/// The class descriptors a `SmallVec` holds, in order.
pub uninterp spec fn class_descs(v: ClassDescs) -> Seq<HidClassDescriptor>;

/// `SmallVec::with_capacity`: an empty list.
#[verifier::external_body]
fn descs_with_capacity(n: usize) -> (v: ClassDescs)
    ensures
        class_descs(v) == Seq::<HidClassDescriptor>::empty(),
{
    ClassDescs { inner: SmallVec::with_capacity(n) }
}

/// `SmallVec::push`: appends `d` at the end (the length must stay within
/// `usize`, or it panics).
#[verifier::external_body]
fn descs_push(v: &mut ClassDescs, d: HidClassDescriptor)
    requires
        class_descs(*old(v)).len() < usize::MAX,
    ensures
        class_descs(*final(v)) == class_descs(*old(v)).push(d),
{
    v.inner.push(d)
}

/// `SmallVec::len`: the number of descriptors held.
#[verifier::external_body]
fn descs_len(v: &ClassDescs) -> (n: usize)
    ensures
        n == class_descs(*v).len(),
{
    v.inner.len()
}

/// `SmallVec` indexing: the descriptor at `i`.
#[verifier::external_body]
fn descs_get(v: &ClassDescs, i: usize) -> (d: HidClassDescriptor)
    requires
        i < class_descs(*v).len(),
    ensures
        d == class_descs(*v)[i as int],
{
    v.inner[i]
}

/// A HID descriptor: its fixed part and the class descriptors it lists.
pub struct HidDescriptor {
    pub length: u8,
    pub kind: u8,
    pub hid_spec_release: u16,
    pub country_code: u8,
    pub num_descriptors: u8,
    pub descriptors: ClassDescs,
}

/// The class type named by the type byte at `off`, if any.
pub open spec fn class_type_at(b: Seq<u8>, off: int) -> Option<HidClassType> {
    let t = b[off];
    if t == 0x21u8 {
        Some(HidClassType::HID)
    } else if t == 0x22u8 {
        Some(HidClassType::Report)
    } else if t == 0x23u8 {
        Some(HidClassType::Physical)
    } else {
        None
    }
}

/// The two bytes at `off` read little-endian.
pub open spec fn le16_at(b: Seq<u8>, off: int) -> int {
    b[off] + b[off + 1] * 256
}

/// The two bytes at `off` read big-endian.
pub open spec fn be16_at(b: Seq<u8>, off: int) -> int {
    b[off] * 256 + b[off + 1]
}

/// `v` is the two bytes at `off` in the machine's byte order: one order
/// or the other.
pub open spec fn ne16_at(b: Seq<u8>, off: int, v: u16) -> bool {
    v == le16_at(b, off) || v == be16_at(b, off)
}

/// The two bytes `lo`, `hi` (in that order in memory) as a number in the
/// machine's byte order (the standard library's `u16::from_ne_bytes`):
/// either order, as the machine decides.
#[verifier::external_body]
fn ne_u16(lo: u8, hi: u8) -> (r: u16)
    ensures
        r == lo + hi * 256 || r == lo * 256 + hi,
{
    u16::from_ne_bytes([lo, hi])
}

/// Position of the first class descriptor of `b` (from the one at 0) whose
/// type byte names no class type, or -1.
pub open spec fn first_bad_class(b: Seq<u8>, n: int) -> int
    decreases n,
{
    if n <= 0 {
        -1
    } else {
        let r = first_bad_class(b, n - 1);
        if r >= 0 { r } else if class_type_at(b, 6 + 3 * (n - 1)) is None { n - 1 } else { -1 }
    }
}

/// The class descriptors `ds` are the `n` ones of `b`, read in the
/// machine's byte order.
pub open spec fn descs_of(b: Seq<u8>, n: int, ds: Seq<HidClassDescriptor>) -> bool {
    &&& ds.len() == n
    &&& forall|i: int| 0 <= i < n ==> {
        &&& class_type_at(b, 6 + 3 * i) == Some((#[trigger] ds[i]).desc_type)
        &&& ne16_at(b, 7 + 3 * i, ds[i].desc_len)
    }
}

impl HidDescriptor {
    /// Parses a HID descriptor. Its length must cover the 6-byte fixed part
    /// and at least one 3-byte class descriptor, its type must be 0x21, and
    /// its length must be exactly the fixed part plus its class descriptors.
    pub fn from_bytes(bytes: &[u8]) -> (r: Result<HidDescriptor, HidError>)
        requires
            bytes@.len() >= 2,
            bytes@[0] >= 9 && bytes@[1] == 0x21 ==> bytes@.len() >= 6 && bytes@[5] <= 83,
            bytes@[0] >= 9 && bytes@[1] == 0x21 && bytes@[0] == 6 + 3 * bytes@[5] ==> bytes@.len() >= bytes@[0],
        ensures
            bytes@[0] < 9 ==> r == Err::<HidDescriptor, HidError>(HidError::InvalidLength),
            bytes@[0] >= 9 && bytes@[1] != 0x21 ==> r == Err::<HidDescriptor, HidError>(HidError::NotHid),
            bytes@[0] >= 9 && bytes@[1] == 0x21 && bytes@[0] != 6 + 3 * bytes@[5] ==> r == Err::<HidDescriptor, HidError>(
                HidError::LengthMismatch(bytes@[5]),
            ),
            bytes@[0] >= 9 && bytes@[1] == 0x21 && bytes@[0] == 6 + 3 * bytes@[5] ==> {
                let bad = first_bad_class(bytes@, bytes@[5] as int);
                &&& bad >= 0 ==> r == Err::<HidDescriptor, HidError>(HidError::UnknownClassType(bytes@[6 + 3 * bad]))
                &&& bad < 0 ==> (r matches Ok(d) && d.length == bytes@[0] && d.kind == bytes@[1]
                    && ne16_at(bytes@, 2, d.hid_spec_release)
                    && d.country_code == bytes@[4] && d.num_descriptors == bytes@[5]
                    && descs_of(bytes@, bytes@[5] as int, class_descs(d.descriptors)))
            },
    {
        let length = bytes[0];
        let kind = bytes[1];
        if length < 9 {
            return Err(HidError::InvalidLength);
        }
        if kind != 0x21 {
            return Err(HidError::NotHid);
        }
        let num_descriptors = bytes[5];
        if length != 6 + num_descriptors * 3 {
            return Err(HidError::LengthMismatch(num_descriptors));
        }
        let mut descriptors = descs_with_capacity(num_descriptors as usize);
        let mut i: u8 = 0;
        while i < num_descriptors
            invariant
                bytes@.len() >= 6 + 3 * num_descriptors,
                bytes@[0] >= 9 && bytes@[1] == 0x21 && bytes@[0] == 6 + 3 * bytes@[5],
                num_descriptors == bytes@[5],
                num_descriptors <= 83,
                i <= num_descriptors,
                first_bad_class(bytes@, i as int) < 0,
                descs_of(bytes@, i as int, class_descs(descriptors)),
            decreases num_descriptors - i,
        {
            let off = (6 + i * 3) as usize;
            let t = bytes[off];
            let len = ne_u16(bytes[off + 1], bytes[off + 2]);
            let desc_type = match HidClassType::from_code(t) {
                Some(ty) => ty,
                None => {
                    assert(first_bad_class(bytes@, i + 1) == i);
                    proof {
                        lemma_first_bad_stays(bytes@, (i + 1) as int, num_descriptors as int);
                    }
                    return Err(HidError::UnknownClassType(t));
                },
            };
            let ghost before = class_descs(descriptors);
            descs_push(&mut descriptors, HidClassDescriptor { desc_type, desc_len: len });
            proof {
                let ds = class_descs(descriptors);
                assert forall|k: int| 0 <= k < i + 1 implies {
                    &&& class_type_at(bytes@, 6 + 3 * k) == Some((#[trigger] ds[k]).desc_type)
                    &&& ne16_at(bytes@, 7 + 3 * k, ds[k].desc_len)
                } by {
                    if k < i {
                        assert(ds[k] == before[k]);
                    }
                }
            }
            i += 1;
        }
        let release = ne_u16(bytes[2], bytes[3]);
        Ok(HidDescriptor { length, kind, hid_spec_release: release, country_code: bytes[4], num_descriptors, descriptors })
    }

    /// The first report descriptor listed; an error when there is none.
    pub fn get_report_desc(&self) -> (r: Result<HidClassDescriptor, HidError>)
        ensures
            match r {
                Ok(d) => d.desc_type == HidClassType::Report && exists|i: int|
                    0 <= i < class_descs(self.descriptors).len() && class_descs(self.descriptors)[i] == d
                        && forall|j: int| 0 <= j < i ==> class_descs(self.descriptors)[j].desc_type != HidClassType::Report,
                Err(e) => e == HidError::NoReportDescriptor && forall|j: int|
                    0 <= j < class_descs(self.descriptors).len() ==> class_descs(self.descriptors)[j].desc_type != HidClassType::Report,
            },
    {
        let n = descs_len(&self.descriptors);
        let mut i: usize = 0;
        while i < n
            invariant
                n == class_descs(self.descriptors).len(),
                i <= n,
                forall|j: int| 0 <= j < i ==> class_descs(self.descriptors)[j].desc_type != HidClassType::Report,
            decreases n - i,
        {
            let d = descs_get(&self.descriptors, i);
            if d.desc_type == HidClassType::Report {
                return Ok(d);
            }
            i += 1;
        }
        Err(HidError::NoReportDescriptor)
    }
}

proof fn lemma_first_bad_stays(b: Seq<u8>, k: int, n: int)
    requires
        0 <= k <= n,
        first_bad_class(b, k) >= 0,
    ensures
        first_bad_class(b, n) == first_bad_class(b, k),
    decreases n - k,
{
    if k < n {
        lemma_first_bad_stays(b, k, n - 1);
    }
}

/// The scancode of a keyboard usage (usage page 7), when it has one.
pub open spec fn spec_scancode(usage: u16) -> Option<u8> {
    match usage {
        0x04u16 => Some(0x1Eu8),
        0x05u16 => Some(0x30u8),
        0x06u16 => Some(0x2Eu8),
        0x07u16 => Some(0x20u8),
        0x08u16 => Some(0x12u8),
        0x09u16 => Some(0x21u8),
        0x0Au16 => Some(0x22u8),
        0x0Bu16 => Some(0x23u8),
        0x0Cu16 => Some(0x17u8),
        0x0Du16 => Some(0x24u8),
        0x0Eu16 => Some(0x25u8),
        0x0Fu16 => Some(0x26u8),
        0x10u16 => Some(0x32u8),
        0x11u16 => Some(0x31u8),
        0x12u16 => Some(0x18u8),
        0x13u16 => Some(0x19u8),
        0x14u16 => Some(0x10u8),
        0x15u16 => Some(0x13u8),
        0x16u16 => Some(0x1Fu8),
        0x17u16 => Some(0x14u8),
        0x18u16 => Some(0x16u8),
        0x19u16 => Some(0x2Fu8),
        0x1Au16 => Some(0x11u8),
        0x1Bu16 => Some(0x2Du8),
        0x1Cu16 => Some(0x15u8),
        0x1Du16 => Some(0x2Cu8),
        0x1Eu16 => Some(0x02u8),
        0x1Fu16 => Some(0x03u8),
        0x20u16 => Some(0x04u8),
        0x21u16 => Some(0x05u8),
        0x22u16 => Some(0x06u8),
        0x23u16 => Some(0x07u8),
        0x24u16 => Some(0x08u8),
        0x25u16 => Some(0x09u8),
        0x26u16 => Some(0x0Au8),
        0x27u16 => Some(0x0Bu8),
        0x28u16 => Some(0x1Cu8),
        0x29u16 => Some(0x01u8),
        0x2Au16 => Some(0x0Eu8),
        0x2Bu16 => Some(0x0Fu8),
        0x2Cu16 => Some(0x39u8),
        0x2Du16 => Some(0x0Cu8),
        0x2Eu16 => Some(0x0Du8),
        0x2Fu16 => Some(0x1Au8),
        0x30u16 => Some(0x1Bu8),
        0x31u16 => Some(0x2Bu8),
        0x32u16 => Some(0x56u8),
        0x33u16 => Some(0x27u8),
        0x34u16 => Some(0x28u8),
        0x35u16 => Some(0x29u8),
        0x36u16 => Some(0x33u8),
        0x37u16 => Some(0x34u8),
        0x38u16 => Some(0x35u8),
        0x39u16 => Some(0x3Au8),
        0x3Au16 => Some(0x3Bu8),
        0x3Bu16 => Some(0x3Cu8),
        0x3Cu16 => Some(0x3Du8),
        0x3Du16 => Some(0x3Eu8),
        0x3Eu16 => Some(0x3Fu8),
        0x3Fu16 => Some(0x40u8),
        0x40u16 => Some(0x41u8),
        0x41u16 => Some(0x42u8),
        0x42u16 => Some(0x43u8),
        0x43u16 => Some(0x44u8),
        0x44u16 => Some(0x57u8),
        0x45u16 => Some(0x58u8),
        0x46u16 => Some(0x37u8),
        0x47u16 => Some(0x46u8),
        0x49u16 => Some(0x52u8),
        0x4Au16 => Some(0x47u8),
        0x4Bu16 => Some(0x49u8),
        0x4Cu16 => Some(0x53u8),
        0x4Du16 => Some(0x4Fu8),
        0x4Eu16 => Some(0x51u8),
        0x4Fu16 => Some(0x4Du8),
        0x50u16 => Some(0x4Bu8),
        0x51u16 => Some(0x50u8),
        0x52u16 => Some(0x48u8),
        0x53u16 => Some(0x45u8),
        0x54u16 => Some(0x7Eu8),
        0x55u16 => Some(0x7Du8),
        0x56u16 => Some(0x7Bu8),
        0x57u16 => Some(0x7Cu8),
        0x58u16 => Some(0x7Fu8),
        0x59u16 => Some(0x71u8),
        0x5Au16 => Some(0x72u8),
        0x5Bu16 => Some(0x73u8),
        0x5Cu16 => Some(0x74u8),
        0x5Du16 => Some(0x75u8),
        0x5Eu16 => Some(0x76u8),
        0x5Fu16 => Some(0x77u8),
        0x60u16 => Some(0x78u8),
        0x61u16 => Some(0x79u8),
        0x62u16 => Some(0x70u8),
        0x64u16 => Some(0x5Du8),
        0x66u16 => Some(0x5Eu8),
        0xE0u16 => Some(0x1Du8),
        0xE1u16 => Some(0x2Au8),
        0xE2u16 => Some(0x38u8),
        0xE3u16 => Some(0x5Bu8),
        0xE4u16 => Some(0x64u8),
        0xE5u16 => Some(0x36u8),
        0xE6u16 => Some(0x64u8),
        0xE7u16 => Some(0x5Cu8),
        _ => None,
    }
}

/// The scancode a HID usage is sent as: the keyboard page (7) maps its
/// usages to scancodes; other pages, and unmapped or reserved keyboard
/// usages, send nothing.
pub fn usage_scancode(usage_page: u16, usage: u16) -> (r: Option<u8>)
    ensures
        usage_page != 7 ==> r is None,
        usage_page == 7 ==> r == spec_scancode(usage),
{
    if usage_page != 7 {
        return None;
    }
    match usage {
        0x04 => Some(0x1E), // K_A
        0x05 => Some(0x30), // K_B
        0x06 => Some(0x2E), // K_C
        0x07 => Some(0x20), // K_D
        0x08 => Some(0x12), // K_E
        0x09 => Some(0x21), // K_F
        0x0A => Some(0x22), // K_G
        0x0B => Some(0x23), // K_H
        0x0C => Some(0x17), // K_I
        0x0D => Some(0x24), // K_J
        0x0E => Some(0x25), // K_K
        0x0F => Some(0x26), // K_L
        0x10 => Some(0x32), // K_M
        0x11 => Some(0x31), // K_N
        0x12 => Some(0x18), // K_O
        0x13 => Some(0x19), // K_P
        0x14 => Some(0x10), // K_Q
        0x15 => Some(0x13), // K_R
        0x16 => Some(0x1F), // K_S
        0x17 => Some(0x14), // K_T
        0x18 => Some(0x16), // K_U
        0x19 => Some(0x2F), // K_V
        0x1A => Some(0x11), // K_W
        0x1B => Some(0x2D), // K_X
        0x1C => Some(0x15), // K_Y
        0x1D => Some(0x2C), // K_Z
        0x1E => Some(0x02), // K_1
        0x1F => Some(0x03), // K_2
        0x20 => Some(0x04), // K_3
        0x21 => Some(0x05), // K_4
        0x22 => Some(0x06), // K_5
        0x23 => Some(0x07), // K_6
        0x24 => Some(0x08), // K_7
        0x25 => Some(0x09), // K_8
        0x26 => Some(0x0A), // K_9
        0x27 => Some(0x0B), // K_0
        0x28 => Some(0x1C), // K_ENTER
        0x29 => Some(0x01), // K_ESC
        0x2A => Some(0x0E), // K_BKSP
        0x2B => Some(0x0F), // K_TAB
        0x2C => Some(0x39), // K_SPACE
        0x2D => Some(0x0C), // K_MINUS
        0x2E => Some(0x0D), // K_EQUALS
        0x2F => Some(0x1A), // K_BRACE_OPEN
        0x30 => Some(0x1B), // K_BRACE_CLOSE
        0x31 => Some(0x2B), // K_BACKSLASH
        0x32 => Some(0x56), // 0x56
        0x33 => Some(0x27), // K_SEMICOLON
        0x34 => Some(0x28), // K_QUOTE
        0x35 => Some(0x29), // K_TICK
        0x36 => Some(0x33), // K_COMMA
        0x37 => Some(0x34), // K_PERIOD
        0x38 => Some(0x35), // K_SLASH
        0x39 => Some(0x3A), // K_CAPS
        0x3A => Some(0x3B), // K_F1
        0x3B => Some(0x3C), // K_F2
        0x3C => Some(0x3D), // K_F3
        0x3D => Some(0x3E), // K_F4
        0x3E => Some(0x3F), // K_F5
        0x3F => Some(0x40), // K_F6
        0x40 => Some(0x41), // K_F7
        0x41 => Some(0x42), // K_F8
        0x42 => Some(0x43), // K_F9
        0x43 => Some(0x44), // K_F10
        0x44 => Some(0x57), // K_F11
        0x45 => Some(0x58), // K_F12
        0x46 => Some(0x37), // K_PRTSC
        0x47 => Some(0x46), // K_SCROLL
        0x49 => Some(0x52), // K_INS
        0x4A => Some(0x47), // K_HOME
        0x4B => Some(0x49), // K_PGUP
        0x4C => Some(0x53), // K_DEL
        0x4D => Some(0x4F), // K_END
        0x4E => Some(0x51), // K_PGDN
        0x4F => Some(0x4D), // K_RIGHT
        0x50 => Some(0x4B), // K_LEFT
        0x51 => Some(0x50), // K_DOWN
        0x52 => Some(0x48), // K_UP
        0x53 => Some(0x45), // K_NUM
        0x54 => Some(0x7E), // K_NUM_SLASH
        0x55 => Some(0x7D), // K_NUM_ASTERISK
        0x56 => Some(0x7B), // K_NUM_MINUS
        0x57 => Some(0x7C), // K_NUM_PLUS
        0x58 => Some(0x7F), // K_NUM_ENTER
        0x59 => Some(0x71), // K_NUM_1
        0x5A => Some(0x72), // K_NUM_2
        0x5B => Some(0x73), // K_NUM_3
        0x5C => Some(0x74), // K_NUM_4
        0x5D => Some(0x75), // K_NUM_5
        0x5E => Some(0x76), // K_NUM_6
        0x5F => Some(0x77), // K_NUM_7
        0x60 => Some(0x78), // K_NUM_8
        0x61 => Some(0x79), // K_NUM_9
        0x62 => Some(0x70), // K_NUM_0
        0x64 => Some(0x5D), // K_APP
        0x66 => Some(0x5E), // K_POWER
        0xE0 => Some(0x1D), // K_LEFT_CTRL
        0xE1 => Some(0x2A), // K_LEFT_SHIFT
        0xE2 => Some(0x38), // K_ALT
        0xE3 => Some(0x5B), // K_LEFT_SUPER
        0xE4 => Some(0x64), // K_RIGHT_CTRL
        0xE5 => Some(0x36), // K_RIGHT_SHIFT
        0xE6 => Some(0x64), // K_ALT_GR
        0xE7 => Some(0x5C), // K_RIGHT_SUPER
        _ => None,
    }
}

/// An input the HID driver sends to the display server.
#[derive(Debug, Copy, Clone, PartialEq, Eq, Structural)]
pub enum HidOutput {
    Key { scancode: u8, pressed: bool },
    MouseAbsolute { x: i32, y: i32 },
    MouseRelative { dx: i32, dy: i32 },
    Scroll { y: i32 },
    Buttons { left: bool, right: bool, middle: bool },
}

/// One field of a HID report, as the report parser gives it: its usage,
/// value, whether it is relative, and whether it belongs to a gamepad
/// collection.
#[derive(Debug, Copy, Clone, PartialEq, Eq, Structural)]
pub struct HidEvent {
    pub usage_page: u16,
    pub usage: u16,
    pub value: i64,
    pub relative: bool,
    pub gamepad: bool,
}

/// The last two values of a gamepad control.
#[derive(Debug, Copy, Clone, PartialEq, Eq, Structural)]
pub struct GamepadControl {
    pub usage_page: u16,
    pub usage: u16,
    pub value: i64,
    pub last: i64,
}

/// What the driver remembers between reports.
pub struct HidInputState {
    pub left_shift: bool,
    pub right_shift: bool,
    pub last_mouse_pos: (i32, i32),
    pub last_buttons: [bool; 3],
    pub gamepad: Vec<GamepadControl>,
}

/// What one round of reports accumulates.
#[derive(Debug, Copy, Clone, PartialEq, Eq, Structural)]
pub struct HidFrame {
    pub mouse_x: i32,
    pub mouse_y: i32,
    pub mouse_dx: i32,
    pub mouse_dy: i32,
    pub scroll_y: i32,
    pub left: bool,
    pub right: bool,
    pub middle: bool,
}

/// The generic desktop usage page.
pub const USAGE_PAGE_GENERIC_DESKTOP: u16 = 0x01;
/// The keyboard usage page.
pub const USAGE_PAGE_KEYBOARD: u16 = 0x07;
/// The button usage page.
pub const USAGE_PAGE_BUTTON: u16 = 0x09;

impl HidInputState {
    /// No key held, the mouse at the origin, no button or gamepad control.
    pub fn new() -> (s: HidInputState)
        ensures
            !s.left_shift && !s.right_shift,
            s.last_mouse_pos == (0i32, 0i32),
            s.last_buttons@ == seq![false, false, false],
            s.gamepad@.len() == 0,
    {
        let s = HidInputState { left_shift: false, right_shift: false, last_mouse_pos: (0, 0), last_buttons: [false, false, false], gamepad: Vec::new() };
        assert(s.last_buttons@ =~= seq![false, false, false]);
        s
    }

    /// A round starts from the last mouse position and buttons.
    pub fn start_frame(&self) -> (f: HidFrame)
        ensures
            f == (HidFrame {
                mouse_x: self.last_mouse_pos.0,
                mouse_y: self.last_mouse_pos.1,
                mouse_dx: 0,
                mouse_dy: 0,
                scroll_y: 0,
                left: self.last_buttons@[0],
                right: self.last_buttons@[1],
                middle: self.last_buttons@[2],
            }),
    {
        HidFrame {
            mouse_x: self.last_mouse_pos.0,
            mouse_y: self.last_mouse_pos.1,
            mouse_dx: 0,
            mouse_dy: 0,
            scroll_y: 0,
            left: self.last_buttons[0],
            right: self.last_buttons[1],
            middle: self.last_buttons[2],
        }
    }

    /// Handles one report field: a gamepad control only records its new
    /// value; an X or Y field moves the mouse (by its value when relative,
    /// to it otherwise), a relative wheel scrolls; a keyboard field sends
    /// its key (tracking the shift keys); a button field 1 to 3 sets that
    /// button. Returns the key to send, if any. Sums wrap around.
    pub fn handle_event(&mut self, frame: &mut HidFrame, e: HidEvent) -> (key: Option<HidOutput>)
        ensures
            e.gamepad ==> key is None && *final(frame) == *old(frame),
            !e.gamepad && e.usage_page == USAGE_PAGE_KEYBOARD ==> key == (match spec_scancode(e.usage) {
                Some(sc) => Some(HidOutput::Key { scancode: sc, pressed: e.value != 0 }),
                None => None,
            }) && *final(frame) == *old(frame)
                && final(self).left_shift == (if e.usage == 0xE1 { e.value != 0 } else { old(self).left_shift })
                && final(self).right_shift == (if e.usage == 0xE5 { e.value != 0 } else { old(self).right_shift }),
            !e.gamepad && e.usage_page == USAGE_PAGE_GENERIC_DESKTOP ==> key is None && *final(frame) == (
                if e.usage == 0x30 {
                    if e.relative {
                        HidFrame { mouse_dx: old(frame).mouse_dx.wrapping_add(e.value as i32), ..*old(frame) }
                    } else {
                        HidFrame { mouse_x: e.value as i32, ..*old(frame) }
                    }
                } else if e.usage == 0x31 {
                    if e.relative {
                        HidFrame { mouse_dy: old(frame).mouse_dy.wrapping_add(e.value as i32), ..*old(frame) }
                    } else {
                        HidFrame { mouse_y: e.value as i32, ..*old(frame) }
                    }
                } else if e.usage == 0x38 && e.relative {
                    HidFrame { scroll_y: old(frame).scroll_y.wrapping_add(e.value as i32), ..*old(frame) }
                } else {
                    *old(frame)
                }),
            !e.gamepad && e.usage_page == USAGE_PAGE_BUTTON ==> key is None && *final(frame) == (
                if e.usage == 1 {
                    HidFrame { left: e.value != 0, ..*old(frame) }
                } else if e.usage == 2 {
                    HidFrame { right: e.value != 0, ..*old(frame) }
                } else if e.usage == 3 {
                    HidFrame { middle: e.value != 0, ..*old(frame) }
                } else {
                    *old(frame)
                }),
            !e.gamepad && e.usage_page != USAGE_PAGE_KEYBOARD && e.usage_page != USAGE_PAGE_GENERIC_DESKTOP
                && e.usage_page != USAGE_PAGE_BUTTON ==> key is None && *final(frame) == *old(frame),
            e.gamepad ==> final(self).gamepad@ == record_gamepad(old(self).gamepad@, e.usage_page, e.usage, e.value),
            !e.gamepad ==> final(self).gamepad@ == old(self).gamepad@,
            e.gamepad || e.usage_page != USAGE_PAGE_KEYBOARD ==> final(self).left_shift == old(self).left_shift
                && final(self).right_shift == old(self).right_shift,
            final(self).last_mouse_pos == old(self).last_mouse_pos,
            final(self).last_buttons == old(self).last_buttons,
    {
        if e.gamepad {
            self.record(e.usage_page, e.usage, e.value);
            return None;
        }
        if e.usage_page == USAGE_PAGE_GENERIC_DESKTOP {
            let v = e.value as i32;
            if e.usage == 0x30 {
                if e.relative {
                    frame.mouse_dx = frame.mouse_dx.wrapping_add(v);
                } else {
                    frame.mouse_x = v;
                }
            } else if e.usage == 0x31 {
                if e.relative {
                    frame.mouse_dy = frame.mouse_dy.wrapping_add(v);
                } else {
                    frame.mouse_y = v;
                }
            } else if e.usage == 0x38 && e.relative {
                frame.scroll_y = frame.scroll_y.wrapping_add(v);
            }
            None
        } else if e.usage_page == USAGE_PAGE_KEYBOARD {
            let pressed = e.value != 0;
            if e.usage == 0xE1 {
                self.left_shift = pressed;
            } else if e.usage == 0xE5 {
                self.right_shift = pressed;
            }
            match usage_scancode(e.usage_page, e.usage) {
                Some(sc) => Some(HidOutput::Key { scancode: sc, pressed }),
                None => None,
            }
        } else if e.usage_page == USAGE_PAGE_BUTTON {
            let pressed = e.value != 0;
            if e.usage == 1 {
                frame.left = pressed;
            } else if e.usage == 2 {
                frame.right = pressed;
            } else if e.usage == 3 {
                frame.middle = pressed;
            }
            None
        } else {
            None
        }
    }

    /// Records a gamepad control's new value, keeping its previous one.
    fn record(&mut self, usage_page: u16, usage: u16, value: i64)
        ensures
            final(self).gamepad@ == record_gamepad(old(self).gamepad@, usage_page, usage, value),
            final(self).left_shift == old(self).left_shift,
            final(self).right_shift == old(self).right_shift,
            final(self).last_mouse_pos == old(self).last_mouse_pos,
            final(self).last_buttons == old(self).last_buttons,
    {
        let mut i: usize = 0;
        while i < self.gamepad.len()
            invariant
                i <= self.gamepad@.len(),
                self.gamepad@ == old(self).gamepad@,
                forall|k: int| 0 <= k < i ==> !(self.gamepad@[k].usage_page == usage_page && self.gamepad@[k].usage == usage),
                self.left_shift == old(self).left_shift,
                self.right_shift == old(self).right_shift,
                self.last_mouse_pos == old(self).last_mouse_pos,
                self.last_buttons == old(self).last_buttons,
            decreases self.gamepad.len() - i,
        {
            let c = self.gamepad[i];
            if c.usage_page == usage_page && c.usage == usage {
                self.gamepad.set(i, GamepadControl { value, ..c });
                proof {
                    assert(control_index(old(self).gamepad@, usage_page, usage) == i) by {
                        lemma_control_index(old(self).gamepad@, usage_page, usage, i as int);
                    }
                }
                return;
            }
            i += 1;
        }
        proof {
            lemma_control_absent(old(self).gamepad@, usage_page, usage);
        }
        self.gamepad.push(GamepadControl { usage_page, usage, value, last: 0 });
    }
}

/// Position of the first control with this usage, or -1.
pub open spec fn control_index(cs: Seq<GamepadControl>, usage_page: u16, usage: u16) -> int
    decreases cs.len(),
{
    if cs.len() == 0 {
        -1
    } else {
        let r = control_index(cs.drop_last(), usage_page, usage);
        if r >= 0 {
            r
        } else if cs.last().usage_page == usage_page && cs.last().usage == usage {
            cs.len() - 1
        } else {
            -1
        }
    }
}

proof fn lemma_control_index(cs: Seq<GamepadControl>, usage_page: u16, usage: u16, i: int)
    requires
        0 <= i < cs.len(),
        cs[i].usage_page == usage_page && cs[i].usage == usage,
        forall|k: int| 0 <= k < i ==> !(cs[k].usage_page == usage_page && cs[k].usage == usage),
    ensures
        control_index(cs, usage_page, usage) == i,
    decreases cs.len(),
{
    if i < cs.len() - 1 {
        lemma_control_index(cs.drop_last(), usage_page, usage, i);
    } else {
        lemma_control_absent(cs.drop_last(), usage_page, usage);
    }
}

proof fn lemma_control_absent(cs: Seq<GamepadControl>, usage_page: u16, usage: u16)
    requires
        forall|k: int| 0 <= k < cs.len() ==> !(cs[k].usage_page == usage_page && cs[k].usage == usage),
    ensures
        control_index(cs, usage_page, usage) == -1,
    decreases cs.len(),
{
    if cs.len() > 0 {
        lemma_control_absent(cs.drop_last(), usage_page, usage);
    }
}

/// The gamepad controls after a control reported `value`: a known control
/// takes the value and keeps its last one; a new one starts with last 0.
pub open spec fn record_gamepad(cs: Seq<GamepadControl>, usage_page: u16, usage: u16, value: i64) -> Seq<GamepadControl> {
    let i = control_index(cs, usage_page, usage);
    if i >= 0 {
        cs.update(i, GamepadControl { value, ..cs[i] })
    } else {
        cs.push(GamepadControl { usage_page, usage, value, last: 0 })
    }
}

/// A stick axis with its dead zone (8096 either side of the centre)
/// taken out.
pub open spec fn spec_gamepad_axis(value: i64) -> int {
    if value < -8096 {
        value + 8096
    } else if value > 8096 {
        value - 8096
    } else {
        0
    }
}

/// Integer division rounding toward zero.
pub open spec fn trunc_div(a: int, d: int) -> int {
    if a >= 0 { a / d } else { -((-a) / d) }
}

/// The mouse motion a stick axis gives: its value past the dead zone over
/// 4096, rounded toward zero.
pub fn gamepad_mouse_step(value: i64) -> (step: i32)
    ensures
        step == trunc_div(spec_gamepad_axis(value), 4096) as i32,
{
    let a: i64 = if value < -8096 {
        value + 8096
    } else if value > 8096 {
        value - 8096
    } else {
        0
    };
    let q: i64 = if a >= 0 { a / 4096 } else { -((-a) / 4096) };
    q as i32
}

/// The key changes of a stick axis held as two keys: the negative key is
/// pressed past -10240, the positive one past 10240; a key is sent when its
/// state changed since the last value.
pub open spec fn spec_axis_keys(value: i64, last: i64, k_neg: u8, k_pos: u8) -> Seq<HidOutput> {
    let press_neg = value < -10240;
    let press_pos = value > 10240;
    let a = if press_neg != (last < -10240) { seq![HidOutput::Key { scancode: k_neg, pressed: press_neg }] } else { Seq::empty() };
    let b = if press_pos != (last > 10240) { seq![HidOutput::Key { scancode: k_pos, pressed: press_pos }] } else { Seq::empty() };
    a + b
}

/// The key a trigger (Z or Rz) is held as: pressed past 64.
pub open spec fn spec_trigger_key(value: i64, last: i64, k: u8) -> Seq<HidOutput> {
    if (value > 64) != (last > 64) { seq![HidOutput::Key { scancode: k, pressed: value > 64 }] } else { Seq::empty() }
}

/// The key a button is held as: sent when the value changed, pressed when
/// it is not 0.
pub open spec fn spec_toggle_key(value: i64, last: i64, k: u8) -> Seq<HidOutput> {
    if value != last { seq![HidOutput::Key { scancode: k, pressed: value != 0 }] } else { Seq::empty() }
}

/// The keys a gamepad control sends: the left stick as W/A/S/D, the
/// triggers as Q and E, the d-pad as the arrows, buttons 1 to 8 as
/// ; L O K I P, space and enter.
pub open spec fn spec_gamepad_keys(c: GamepadControl) -> Seq<HidOutput> {
    if c.usage_page == USAGE_PAGE_GENERIC_DESKTOP {
        if c.usage == 0x30 {
            spec_axis_keys(c.value, c.last, 0x1E, 0x20)
        } else if c.usage == 0x31 {
            spec_axis_keys(c.value, c.last, 0x1F, 0x11)
        } else if c.usage == 0x32 {
            spec_trigger_key(c.value, c.last, 0x10)
        } else if c.usage == 0x35 {
            spec_trigger_key(c.value, c.last, 0x12)
        } else if c.usage == 0x93 {
            spec_toggle_key(c.value, c.last, 0x4B)
        } else if c.usage == 0x92 {
            spec_toggle_key(c.value, c.last, 0x4D)
        } else if c.usage == 0x90 {
            spec_toggle_key(c.value, c.last, 0x48)
        } else if c.usage == 0x91 {
            spec_toggle_key(c.value, c.last, 0x50)
        } else {
            Seq::empty()
        }
    } else if c.usage_page == USAGE_PAGE_BUTTON {
        if c.usage == 1 {
            spec_toggle_key(c.value, c.last, 0x27)
        } else if c.usage == 2 {
            spec_toggle_key(c.value, c.last, 0x26)
        } else if c.usage == 3 {
            spec_toggle_key(c.value, c.last, 0x18)
        } else if c.usage == 4 {
            spec_toggle_key(c.value, c.last, 0x25)
        } else if c.usage == 5 {
            spec_toggle_key(c.value, c.last, 0x17)
        } else if c.usage == 6 {
            spec_toggle_key(c.value, c.last, 0x19)
        } else if c.usage == 7 {
            spec_toggle_key(c.value, c.last, 0x39)
        } else if c.usage == 8 {
            spec_toggle_key(c.value, c.last, 0x1C)
        } else {
            Seq::empty()
        }
    } else {
        Seq::empty()
    }
}

fn push_key(out: &mut Vec<HidOutput>, scancode: u8, pressed: bool)
    ensures
        final(out)@ == old(out)@.push(HidOutput::Key { scancode, pressed }),
{
    out.push(HidOutput::Key { scancode, pressed });
}

fn axis_keys(out: &mut Vec<HidOutput>, value: i64, last: i64, k_neg: u8, k_pos: u8)
    ensures
        final(out)@ == old(out)@ + spec_axis_keys(value, last, k_neg, k_pos),
{
    let ghost start = out@;
    let press_neg = value < -10240;
    let press_pos = value > 10240;
    if press_neg != (last < -10240) {
        push_key(out, k_neg, press_neg);
    }
    let ghost mid = out@;
    if press_pos != (last > 10240) {
        push_key(out, k_pos, press_pos);
    }
    assert(out@ =~= start + spec_axis_keys(value, last, k_neg, k_pos));
}

fn trigger_key(out: &mut Vec<HidOutput>, value: i64, last: i64, k: u8)
    ensures
        final(out)@ == old(out)@ + spec_trigger_key(value, last, k),
{
    if (value > 64) != (last > 64) {
        push_key(out, k, value > 64);
    }
    assert(out@ =~= old(out)@ + spec_trigger_key(value, last, k));
}

fn toggle_key(out: &mut Vec<HidOutput>, value: i64, last: i64, k: u8)
    ensures
        final(out)@ == old(out)@ + spec_toggle_key(value, last, k),
{
    if value != last {
        push_key(out, k, value != 0);
    }
    assert(out@ =~= old(out)@ + spec_toggle_key(value, last, k));
}

/// The keys of every gamepad control, in order.
pub open spec fn all_gamepad_keys(cs: Seq<GamepadControl>) -> Seq<HidOutput>
    decreases cs.len(),
{
    if cs.len() == 0 {
        Seq::empty()
    } else {
        all_gamepad_keys(cs.drop_last()) + spec_gamepad_keys(cs.last())
    }
}

/// Controls that did not change since the last round send no keys: a key
/// goes out only when the state of its control changed.
pub proof fn lemma_settled_controls_send_nothing(cs: Seq<GamepadControl>)
    requires
        forall|i: int| 0 <= i < cs.len() ==> (#[trigger] cs[i]).last == cs[i].value,
    ensures
        all_gamepad_keys(cs) == Seq::<HidOutput>::empty(),
    decreases cs.len(),
{
    if cs.len() > 0 {
        lemma_settled_controls_send_nothing(cs.drop_last());
        let c = cs.last();
        assert(c.last == c.value) by {
            assert(cs[cs.len() - 1].last == cs[cs.len() - 1].value);
        }
        assert(spec_gamepad_keys(c) =~= Seq::<HidOutput>::empty());
        assert(all_gamepad_keys(cs) =~= Seq::<HidOutput>::empty());
    }
}

/// The scancode orbclient gives the up arrow key.
pub const K_UP: u8 = 0x48;
/// The scancode orbclient gives the down arrow key.
pub const K_DOWN: u8 = 0x50;
/// The scancode orbclient gives the left arrow key.
pub const K_LEFT: u8 = 0x4B;
/// The scancode orbclient gives the right arrow key.
pub const K_RIGHT: u8 = 0x4D;
/// The scancode orbclient gives the A key.
pub const K_A: u8 = 0x1E;
/// The scancode orbclient gives the D key.
pub const K_D: u8 = 0x20;
/// The scancode orbclient gives the S key.
pub const K_S: u8 = 0x1F;
/// The scancode orbclient gives the W key.
pub const K_W: u8 = 0x11;
/// The scancode orbclient gives the Q key.
pub const K_Q: u8 = 0x10;
/// The scancode orbclient gives the E key.
pub const K_E: u8 = 0x12;
/// The scancode orbclient gives the `;` key.
pub const K_SEMICOLON: u8 = 0x27;
/// The scancode orbclient gives the L key.
pub const K_L: u8 = 0x26;
/// The scancode orbclient gives the O key.
pub const K_O: u8 = 0x18;
/// The scancode orbclient gives the K key.
pub const K_K: u8 = 0x25;
/// The scancode orbclient gives the I key.
pub const K_I: u8 = 0x17;
/// The scancode orbclient gives the P key.
pub const K_P: u8 = 0x19;
/// The scancode orbclient gives the space bar.
pub const K_SPACE: u8 = 0x39;
/// The scancode orbclient gives the enter key.
pub const K_ENTER: u8 = 0x1C;

/// Generic desktop usage: the X axis (left stick, horizontal).
pub const USAGE_X: u16 = 0x30;
/// Generic desktop usage: the Y axis (left stick, vertical).
pub const USAGE_Y: u16 = 0x31;
/// Generic desktop usage: the Z axis (left trigger).
pub const USAGE_Z: u16 = 0x32;
/// Generic desktop usage: the Rz axis (right trigger).
pub const USAGE_RZ: u16 = 0x35;
/// Generic desktop usage: d-pad up.
pub const USAGE_DPAD_UP: u16 = 0x90;
/// Generic desktop usage: d-pad down.
pub const USAGE_DPAD_DOWN: u16 = 0x91;
/// Generic desktop usage: d-pad right.
pub const USAGE_DPAD_RIGHT: u16 = 0x92;
/// Generic desktop usage: d-pad left.
pub const USAGE_DPAD_LEFT: u16 = 0x93;

/// orbclient's scancodes of the letter keys A to Z, in alphabetical order.
pub open spec fn letter_scancodes() -> Seq<u8> {
    seq![0x1Eu8, 0x30u8, 0x2Eu8, 0x20u8, 0x12u8, 0x21u8, 0x22u8, 0x23u8, 0x17u8, 0x24u8, 0x25u8, 0x26u8, 0x32u8, 0x31u8, 0x18u8, 0x19u8, 0x10u8, 0x13u8, 0x1Fu8, 0x14u8, 0x16u8, 0x2Fu8, 0x11u8, 0x2Du8, 0x15u8, 0x2Cu8]
}

/// orbclient's scancodes of the digit keys 1 to 9 and 0, in the order of
/// the keyboard usages.
pub open spec fn digit_scancodes() -> Seq<u8> {
    seq![0x02u8, 0x03u8, 0x04u8, 0x05u8, 0x06u8, 0x07u8, 0x08u8, 0x09u8, 0x0Au8, 0x0Bu8]
}

/// The keyboard usages send orbclient's key of the same meaning: the
/// letters a to z (0x04 to 0x1D) their letter keys, the digits 1 to 9 and
/// 0 (0x1E to 0x27) their digit keys, Enter, Escape, Backspace, Tab and
/// Space (0x28 to 0x2C) theirs, and the arrows right, left, down and up
/// (0x4F to 0x52) theirs.
pub proof fn lemma_keyboard_usages_send_their_keys()
    ensures
        forall|i: int| 0 <= i < 26 ==> #[trigger] spec_scancode((0x04 + i) as u16) == Some(letter_scancodes()[i]),
        forall|i: int| 0 <= i < 10 ==> #[trigger] spec_scancode((0x1E + i) as u16) == Some(digit_scancodes()[i]),
        spec_scancode(0x28) == Some(K_ENTER),
        spec_scancode(0x29) == Some(0x01u8),
        spec_scancode(0x2A) == Some(0x0Eu8),
        spec_scancode(0x2B) == Some(0x0Fu8),
        spec_scancode(0x2C) == Some(K_SPACE),
        spec_scancode(0x4F) == Some(K_RIGHT),
        spec_scancode(0x50) == Some(K_LEFT),
        spec_scancode(0x51) == Some(K_DOWN),
        spec_scancode(0x52) == Some(K_UP),
{
    assert forall|i: int| 0 <= i < 26 implies #[trigger] spec_scancode((0x04 + i) as u16) == Some(letter_scancodes()[i]) by {
            if i == 0 {
                assert(spec_scancode(0x4u16) == Some(letter_scancodes()[0]));
            } else if i == 1 {
                assert(spec_scancode(0x5u16) == Some(letter_scancodes()[1]));
            } else if i == 2 {
                assert(spec_scancode(0x6u16) == Some(letter_scancodes()[2]));
            } else if i == 3 {
                assert(spec_scancode(0x7u16) == Some(letter_scancodes()[3]));
            } else if i == 4 {
                assert(spec_scancode(0x8u16) == Some(letter_scancodes()[4]));
            } else if i == 5 {
                assert(spec_scancode(0x9u16) == Some(letter_scancodes()[5]));
            } else if i == 6 {
                assert(spec_scancode(0xau16) == Some(letter_scancodes()[6]));
            } else if i == 7 {
                assert(spec_scancode(0xbu16) == Some(letter_scancodes()[7]));
            } else if i == 8 {
                assert(spec_scancode(0xcu16) == Some(letter_scancodes()[8]));
            } else if i == 9 {
                assert(spec_scancode(0xdu16) == Some(letter_scancodes()[9]));
            } else if i == 10 {
                assert(spec_scancode(0xeu16) == Some(letter_scancodes()[10]));
            } else if i == 11 {
                assert(spec_scancode(0xfu16) == Some(letter_scancodes()[11]));
            } else if i == 12 {
                assert(spec_scancode(0x10u16) == Some(letter_scancodes()[12]));
            } else if i == 13 {
                assert(spec_scancode(0x11u16) == Some(letter_scancodes()[13]));
            } else if i == 14 {
                assert(spec_scancode(0x12u16) == Some(letter_scancodes()[14]));
            } else if i == 15 {
                assert(spec_scancode(0x13u16) == Some(letter_scancodes()[15]));
            } else if i == 16 {
                assert(spec_scancode(0x14u16) == Some(letter_scancodes()[16]));
            } else if i == 17 {
                assert(spec_scancode(0x15u16) == Some(letter_scancodes()[17]));
            } else if i == 18 {
                assert(spec_scancode(0x16u16) == Some(letter_scancodes()[18]));
            } else if i == 19 {
                assert(spec_scancode(0x17u16) == Some(letter_scancodes()[19]));
            } else if i == 20 {
                assert(spec_scancode(0x18u16) == Some(letter_scancodes()[20]));
            } else if i == 21 {
                assert(spec_scancode(0x19u16) == Some(letter_scancodes()[21]));
            } else if i == 22 {
                assert(spec_scancode(0x1au16) == Some(letter_scancodes()[22]));
            } else if i == 23 {
                assert(spec_scancode(0x1bu16) == Some(letter_scancodes()[23]));
            } else if i == 24 {
                assert(spec_scancode(0x1cu16) == Some(letter_scancodes()[24]));
            } else if i == 25 {
                assert(spec_scancode(0x1du16) == Some(letter_scancodes()[25]));
            }
    }
    assert forall|i: int| 0 <= i < 10 implies #[trigger] spec_scancode((0x1E + i) as u16) == Some(digit_scancodes()[i]) by {
            if i == 0 {
                assert(spec_scancode(0x1eu16) == Some(digit_scancodes()[0]));
            } else if i == 1 {
                assert(spec_scancode(0x1fu16) == Some(digit_scancodes()[1]));
            } else if i == 2 {
                assert(spec_scancode(0x20u16) == Some(digit_scancodes()[2]));
            } else if i == 3 {
                assert(spec_scancode(0x21u16) == Some(digit_scancodes()[3]));
            } else if i == 4 {
                assert(spec_scancode(0x22u16) == Some(digit_scancodes()[4]));
            } else if i == 5 {
                assert(spec_scancode(0x23u16) == Some(digit_scancodes()[5]));
            } else if i == 6 {
                assert(spec_scancode(0x24u16) == Some(digit_scancodes()[6]));
            } else if i == 7 {
                assert(spec_scancode(0x25u16) == Some(digit_scancodes()[7]));
            } else if i == 8 {
                assert(spec_scancode(0x26u16) == Some(digit_scancodes()[8]));
            } else if i == 9 {
                assert(spec_scancode(0x27u16) == Some(digit_scancodes()[9]));
            }
    }
}

/// A gamepad button or d-pad direction held as key `k`: one key event when
/// its value changed since the last round, pressed while the value is not
/// 0; nothing when it did not change.
pub open spec fn held_as(c: GamepadControl, k: u8) -> Seq<HidOutput> {
    if c.value != c.last { seq![HidOutput::Key { scancode: k, pressed: c.value != 0 }] } else { Seq::empty() }
}

/// The d-pad sends the arrow of its direction: up the up arrow, down the
/// down arrow, right the right arrow, left the left arrow.
pub proof fn lemma_dpad_sends_its_arrow(c: GamepadControl)
    requires
        c.usage_page == USAGE_PAGE_GENERIC_DESKTOP,
    ensures
        c.usage == USAGE_DPAD_UP ==> spec_gamepad_keys(c) == held_as(c, K_UP),
        c.usage == USAGE_DPAD_DOWN ==> spec_gamepad_keys(c) == held_as(c, K_DOWN),
        c.usage == USAGE_DPAD_RIGHT ==> spec_gamepad_keys(c) == held_as(c, K_RIGHT),
        c.usage == USAGE_DPAD_LEFT ==> spec_gamepad_keys(c) == held_as(c, K_LEFT),
{
}

/// The buttons A, B, X, Y, LB, RB, Select and Start (1 to 8) are held as
/// `;`, L, O, K, I, P, space and enter.
pub proof fn lemma_buttons_send_their_keys(c: GamepadControl)
    requires
        c.usage_page == USAGE_PAGE_BUTTON,
    ensures
        c.usage == 1 ==> spec_gamepad_keys(c) == held_as(c, K_SEMICOLON),
        c.usage == 2 ==> spec_gamepad_keys(c) == held_as(c, K_L),
        c.usage == 3 ==> spec_gamepad_keys(c) == held_as(c, K_O),
        c.usage == 4 ==> spec_gamepad_keys(c) == held_as(c, K_K),
        c.usage == 5 ==> spec_gamepad_keys(c) == held_as(c, K_I),
        c.usage == 6 ==> spec_gamepad_keys(c) == held_as(c, K_P),
        c.usage == 7 ==> spec_gamepad_keys(c) == held_as(c, K_SPACE),
        c.usage == 8 ==> spec_gamepad_keys(c) == held_as(c, K_ENTER),
        !(1 <= c.usage <= 8) ==> spec_gamepad_keys(c).len() == 0,
{
}

/// The left stick is held as W, A, S, D: pushed left (X below -10240) A,
/// right (X above 10240) D, with Y below -10240 S and above 10240 W; each
/// key's event goes out when the stick crossed its threshold, the negative
/// side's first. The triggers are held as Q (Z) and E (Rz) past 64.
pub proof fn lemma_sticks_and_triggers_send_their_keys(c: GamepadControl)
    requires
        c.usage_page == USAGE_PAGE_GENERIC_DESKTOP,
    ensures
        c.usage == USAGE_X ==> spec_gamepad_keys(c) == (if (c.value < -10240) != (c.last < -10240) {
            seq![HidOutput::Key { scancode: K_A, pressed: c.value < -10240 }]
        } else {
            Seq::empty()
        }) + (if (c.value > 10240) != (c.last > 10240) {
            seq![HidOutput::Key { scancode: K_D, pressed: c.value > 10240 }]
        } else {
            Seq::empty()
        }),
        c.usage == USAGE_Y ==> spec_gamepad_keys(c) == (if (c.value < -10240) != (c.last < -10240) {
            seq![HidOutput::Key { scancode: K_S, pressed: c.value < -10240 }]
        } else {
            Seq::empty()
        }) + (if (c.value > 10240) != (c.last > 10240) {
            seq![HidOutput::Key { scancode: K_W, pressed: c.value > 10240 }]
        } else {
            Seq::empty()
        }),
        c.usage == USAGE_Z ==> spec_gamepad_keys(c) == (if (c.value > 64) != (c.last > 64) {
            seq![HidOutput::Key { scancode: K_Q, pressed: c.value > 64 }]
        } else {
            Seq::empty()
        }),
        c.usage == USAGE_RZ ==> spec_gamepad_keys(c) == (if (c.value > 64) != (c.last > 64) {
            seq![HidOutput::Key { scancode: K_E, pressed: c.value > 64 }]
        } else {
            Seq::empty()
        }),
{
}

/// The first report of a control on a state that knows no control yet:
/// the next round sends what the control sends coming from 0.
pub proof fn lemma_first_report_keys(usage_page: u16, usage: u16, value: i64)
    ensures
        all_gamepad_keys(record_gamepad(Seq::empty(), usage_page, usage, value))
            == spec_gamepad_keys(GamepadControl { usage_page, usage, value, last: 0 }),
{
    let cs = record_gamepad(Seq::empty(), usage_page, usage, value);
    assert(control_index(Seq::<GamepadControl>::empty(), usage_page, usage) == -1);
    assert(cs.drop_last() =~= Seq::<GamepadControl>::empty());
    assert(all_gamepad_keys(Seq::<GamepadControl>::empty()) == Seq::<HidOutput>::empty());
    assert(all_gamepad_keys(cs) == all_gamepad_keys(cs.drop_last()) + spec_gamepad_keys(cs.last()));
    assert(all_gamepad_keys(cs) =~= spec_gamepad_keys(cs.last()));
}

/// Pressing the d-pad up on a fresh gamepad: the next round sends the up
/// arrow pressed; releasing it sends the up arrow released.
pub proof fn lemma_dpad_up_press(value: i64)
    requires
        value != 0,
    ensures
        all_gamepad_keys(record_gamepad(Seq::empty(), USAGE_PAGE_GENERIC_DESKTOP, USAGE_DPAD_UP, value))
            == seq![HidOutput::Key { scancode: K_UP, pressed: true }],
        all_gamepad_keys(seq![GamepadControl { usage_page: USAGE_PAGE_GENERIC_DESKTOP, usage: USAGE_DPAD_UP, value: 0, last: value }])
            == seq![HidOutput::Key { scancode: K_UP, pressed: false }],
{
    lemma_first_report_keys(USAGE_PAGE_GENERIC_DESKTOP, USAGE_DPAD_UP, value);
    let c = GamepadControl { usage_page: USAGE_PAGE_GENERIC_DESKTOP, usage: USAGE_DPAD_UP, value: 0, last: value };
    let cs = seq![c];
    assert(cs.drop_last() =~= Seq::<GamepadControl>::empty());
    assert(cs.last() == c);
    assert(all_gamepad_keys(Seq::<GamepadControl>::empty()) == Seq::<HidOutput>::empty());
    assert(all_gamepad_keys(cs) == all_gamepad_keys(cs.drop_last()) + spec_gamepad_keys(cs.last()));
    assert(all_gamepad_keys(cs) =~= spec_gamepad_keys(c));
}

/// The mouse motion `(dx, dy)` after the right stick's controls in `cs`
/// were applied to `(dx, dy)`: Rx moves right, Ry moves up (sums wrap).
pub open spec fn stick_motion(dx: i32, dy: i32, cs: Seq<GamepadControl>) -> (i32, i32)
    decreases cs.len(),
{
    if cs.len() == 0 {
        (dx, dy)
    } else {
        let m = stick_motion(dx, dy, cs.drop_last());
        let c = cs.last();
        let step = trunc_div(spec_gamepad_axis(c.value), 4096) as i32;
        if c.usage_page == USAGE_PAGE_GENERIC_DESKTOP && c.usage == 0x33 {
            (m.0.wrapping_add(step), m.1)
        } else if c.usage_page == USAGE_PAGE_GENERIC_DESKTOP && c.usage == 0x34 {
            (m.0, m.1.wrapping_sub(step))
        } else {
            m
        }
    }
}

/// The right stick moves the mouse the way it is pushed: Rx (0x33) past
/// the dead zone to the right moves it right and to the left moves it
/// left; Ry (0x34) past the dead zone moves it against the axis (a
/// positive value moves it up, to smaller y); within the dead zone, or for a
/// push under one step, it does not move; other controls do not move it.
/// (Values are those of a 32-bit axis; larger ones overflow the step.)
pub proof fn lemma_right_stick_moves_mouse(c: GamepadControl)
    requires
        c.usage_page == USAGE_PAGE_GENERIC_DESKTOP,
        i32::MIN <= c.value <= i32::MAX,
    ensures
        c.usage == 0x33 && c.value >= 8096 + 4096 ==> stick_motion(0, 0, seq![c]).0 > 0 && stick_motion(0, 0, seq![c]).1 == 0,
        c.usage == 0x33 && c.value <= -8096 - 4096 ==> stick_motion(0, 0, seq![c]).0 < 0 && stick_motion(0, 0, seq![c]).1 == 0,
        c.usage == 0x34 && c.value >= 8096 + 4096 ==> stick_motion(0, 0, seq![c]).1 < 0 && stick_motion(0, 0, seq![c]).0 == 0,
        c.usage == 0x34 && c.value <= -8096 - 4096 ==> stick_motion(0, 0, seq![c]).1 > 0 && stick_motion(0, 0, seq![c]).0 == 0,
        (c.usage == 0x33 || c.usage == 0x34) && -8096 - 4096 < c.value < 8096 + 4096 ==> stick_motion(0, 0, seq![c]) == (0i32, 0i32),
        c.usage != 0x33 && c.usage != 0x34 ==> stick_motion(0, 0, seq![c]) == (0i32, 0i32),
{
    let cs = seq![c];
    assert(cs.drop_last() =~= Seq::<GamepadControl>::empty());
    assert(stick_motion(0, 0, cs.drop_last()) == (0i32, 0i32));
    assert(cs.last() == c);
    let a = spec_gamepad_axis(c.value);
    let step = trunc_div(a, 4096);
    if c.value >= 8096 + 4096 {
        assert(a >= 4096 && a <= 0x7FFF_FFFF);
        assert(step >= 1 && step <= 0x8_0000) by (nonlinear_arith)
            requires step == a / 4096, a >= 4096, a <= 0x7FFF_FFFF;
    } else if c.value <= -8096 - 4096 {
        assert(a <= -4096 && a >= -0x8000_0000);
        assert(step <= -1 && step >= -0x8_0000) by (nonlinear_arith)
            requires step == -((-a) / 4096), a <= -4096, a >= -0x8000_0000;
    } else {
        assert(-4096 < a < 4096);
        assert(step == 0) by (nonlinear_arith)
            requires step == (if a >= 0 { a / 4096 } else { -((-a) / 4096) }), -4096 < a < 4096;
    }
    let st = step as i32;
    assert(st == step);
    assert(0i32.wrapping_add(st) == st);
    assert(0i32.wrapping_sub(st) == -step);
}

/// How far the right stick moves the mouse: the push past the dead zone
/// of 8096, in steps of 4096 (rounded toward zero); Rx (0x33) adds it to
/// x and Ry (0x34) takes it from y. (Values are those of a 32-bit axis.)
pub proof fn lemma_right_stick_step(c: GamepadControl)
    requires
        c.usage_page == USAGE_PAGE_GENERIC_DESKTOP,
        i32::MIN <= c.value <= i32::MAX,
    ensures
        c.usage == 0x33 && c.value > 8096 ==> stick_motion(0, 0, seq![c]) == (((c.value - 8096) / 4096) as i32, 0i32),
        c.usage == 0x33 && c.value < -8096 ==> stick_motion(0, 0, seq![c]) == ((-((-c.value - 8096) / 4096)) as i32, 0i32),
        c.usage == 0x34 && c.value > 8096 ==> stick_motion(0, 0, seq![c]) == (0i32, (-((c.value - 8096) / 4096)) as i32),
        c.usage == 0x34 && c.value < -8096 ==> stick_motion(0, 0, seq![c]) == (0i32, ((-c.value - 8096) / 4096) as i32),
{
    let cs = seq![c];
    assert(cs.drop_last() =~= Seq::<GamepadControl>::empty());
    assert(stick_motion(0, 0, cs.drop_last()) == (0i32, 0i32));
    assert(cs.last() == c);
    let a = spec_gamepad_axis(c.value);
    let step = trunc_div(a, 4096);
    if c.value > 8096 {
        assert(0 < a <= 0x7FFF_FFFF);
        assert(0 <= step <= 0x8_0000) by (nonlinear_arith)
            requires step == a / 4096, 0 < a <= 0x7FFF_FFFF;
    } else if c.value < -8096 {
        assert(-0x8000_0000 <= a < 0);
        assert(-0x8_0000 <= step <= 0) by (nonlinear_arith)
            requires step == -((-a) / 4096), -0x8000_0000 <= a < 0;
    }
    let st = step as i32;
    if c.value > 8096 || c.value < -8096 {
        assert(st == step);
        assert(0i32.wrapping_add(st) == st);
        assert(0i32.wrapping_sub(st) == -step);
    }
}

impl HidInputState {
    /// The gamepad's part of a round: the keys its controls send, and the
    /// right stick moving the mouse; then every control's value becomes its
    /// last one. Mouse sums wrap around.
    pub fn gamepad_round(&mut self, frame: &mut HidFrame) -> (keys: Vec<HidOutput>)
        ensures
            keys@ == all_gamepad_keys(old(self).gamepad@),
            (final(frame).mouse_dx, final(frame).mouse_dy) == stick_motion(old(frame).mouse_dx, old(frame).mouse_dy, old(self).gamepad@),
            final(frame).mouse_x == old(frame).mouse_x && final(frame).mouse_y == old(frame).mouse_y,
            final(frame).scroll_y == old(frame).scroll_y,
            final(frame).left == old(frame).left && final(frame).right == old(frame).right && final(frame).middle == old(frame).middle,
            final(self).gamepad@ == Seq::new(old(self).gamepad@.len(), |i: int| GamepadControl { last: old(self).gamepad@[i].value, ..old(self).gamepad@[i] }),
            final(self).left_shift == old(self).left_shift && final(self).right_shift == old(self).right_shift,
            final(self).last_mouse_pos == old(self).last_mouse_pos && final(self).last_buttons == old(self).last_buttons,
    {
        let mut keys: Vec<HidOutput> = Vec::new();
        let ghost cs = self.gamepad@;
        let mut i: usize = 0;
        while i < self.gamepad.len()
            invariant
                self.gamepad@ == cs,
                cs == old(self).gamepad@,
                i <= cs.len(),
                keys@ == all_gamepad_keys(cs.take(i as int)),
                (frame.mouse_dx, frame.mouse_dy) == stick_motion(old(frame).mouse_dx, old(frame).mouse_dy, cs.take(i as int)),
                frame.mouse_x == old(frame).mouse_x && frame.mouse_y == old(frame).mouse_y,
                frame.scroll_y == old(frame).scroll_y,
                frame.left == old(frame).left && frame.right == old(frame).right && frame.middle == old(frame).middle,
                self.left_shift == old(self).left_shift && self.right_shift == old(self).right_shift,
                self.last_mouse_pos == old(self).last_mouse_pos && self.last_buttons == old(self).last_buttons,
            decreases cs.len() - i,
        {
            let c = self.gamepad[i];
            proof {
                assert(cs.take(i + 1).drop_last() =~= cs.take(i as int));
                assert(cs.take(i + 1).last() == c);
            }
            let ghost before = keys@;
            if c.usage_page == USAGE_PAGE_GENERIC_DESKTOP {
                if c.usage == 0x30 {
                    axis_keys(&mut keys, c.value, c.last, 0x1E, 0x20);
                } else if c.usage == 0x31 {
                    axis_keys(&mut keys, c.value, c.last, 0x1F, 0x11);
                } else if c.usage == 0x32 {
                    trigger_key(&mut keys, c.value, c.last, 0x10);
                } else if c.usage == 0x33 {
                    let step = gamepad_mouse_step(c.value);
                    frame.mouse_dx = frame.mouse_dx.wrapping_add(step);
                } else if c.usage == 0x34 {
                    let step = gamepad_mouse_step(c.value);
                    frame.mouse_dy = frame.mouse_dy.wrapping_sub(step);
                } else if c.usage == 0x35 {
                    trigger_key(&mut keys, c.value, c.last, 0x12);
                } else if c.usage == 0x93 {
                    toggle_key(&mut keys, c.value, c.last, 0x4B);
                } else if c.usage == 0x92 {
                    toggle_key(&mut keys, c.value, c.last, 0x4D);
                } else if c.usage == 0x90 {
                    toggle_key(&mut keys, c.value, c.last, 0x48);
                } else if c.usage == 0x91 {
                    toggle_key(&mut keys, c.value, c.last, 0x50);
                }
            } else if c.usage_page == USAGE_PAGE_BUTTON {
                if c.usage == 1 {
                    toggle_key(&mut keys, c.value, c.last, 0x27);
                } else if c.usage == 2 {
                    toggle_key(&mut keys, c.value, c.last, 0x26);
                } else if c.usage == 3 {
                    toggle_key(&mut keys, c.value, c.last, 0x18);
                } else if c.usage == 4 {
                    toggle_key(&mut keys, c.value, c.last, 0x25);
                } else if c.usage == 5 {
                    toggle_key(&mut keys, c.value, c.last, 0x17);
                } else if c.usage == 6 {
                    toggle_key(&mut keys, c.value, c.last, 0x19);
                } else if c.usage == 7 {
                    toggle_key(&mut keys, c.value, c.last, 0x39);
                } else if c.usage == 8 {
                    toggle_key(&mut keys, c.value, c.last, 0x1C);
                }
            }
            assert(keys@ =~= before + spec_gamepad_keys(c));
            i += 1;
        }
        assert(cs.take(cs.len() as int) =~= cs);
        let mut k: usize = 0;
        while k < self.gamepad.len()
            invariant
                self.gamepad@.len() == cs.len(),
                k <= cs.len(),
                forall|j: int| 0 <= j < k ==> self.gamepad@[j] == (GamepadControl { last: cs[j].value, ..cs[j] }),
                forall|j: int| k <= j < cs.len() ==> self.gamepad@[j] == cs[j],
                self.left_shift == old(self).left_shift && self.right_shift == old(self).right_shift,
                self.last_mouse_pos == old(self).last_mouse_pos && self.last_buttons == old(self).last_buttons,
            decreases cs.len() - k,
        {
            let c = self.gamepad[k];
            self.gamepad.set(k, GamepadControl { last: c.value, ..c });
            k += 1;
        }
        assert(self.gamepad@ =~= Seq::new(cs.len(), |i: int| GamepadControl { last: cs[i].value, ..cs[i] }));
        keys
    }

    /// The end of a round: the mouse position when it changed (doubled, as
    /// the display server expects), the relative motion when there is some
    /// and it is within -126 to 126 across, the scroll when there is some,
    /// and the buttons when they changed; the position and buttons are
    /// remembered.
    pub fn finish_frame(&mut self, frame: &HidFrame) -> (out: Vec<HidOutput>)
        ensures
            out@ == (if (frame.mouse_x, frame.mouse_y) != old(self).last_mouse_pos {
                seq![HidOutput::MouseAbsolute { x: frame.mouse_x.wrapping_mul(2), y: frame.mouse_y.wrapping_mul(2) }]
            } else {
                Seq::empty()
            }) + (if (frame.mouse_dx != 0 || frame.mouse_dy != 0) && -127 < frame.mouse_dx < 127 {
                seq![HidOutput::MouseRelative { dx: frame.mouse_dx, dy: frame.mouse_dy }]
            } else {
                Seq::empty()
            }) + (if frame.scroll_y != 0 {
                seq![HidOutput::Scroll { y: frame.scroll_y }]
            } else {
                Seq::empty()
            }) + (if seq![frame.left, frame.right, frame.middle] != old(self).last_buttons@ {
                seq![HidOutput::Buttons { left: frame.left, right: frame.right, middle: frame.middle }]
            } else {
                Seq::empty()
            }),
            final(self).last_mouse_pos == (frame.mouse_x, frame.mouse_y),
            final(self).last_buttons@ == seq![frame.left, frame.right, frame.middle],
            final(self).gamepad@ == old(self).gamepad@,
            final(self).left_shift == old(self).left_shift && final(self).right_shift == old(self).right_shift,
    {
        let mut out: Vec<HidOutput> = Vec::new();
        if frame.mouse_x != self.last_mouse_pos.0 || frame.mouse_y != self.last_mouse_pos.1 {
            self.last_mouse_pos = (frame.mouse_x, frame.mouse_y);
            out.push(HidOutput::MouseAbsolute { x: frame.mouse_x.wrapping_mul(2), y: frame.mouse_y.wrapping_mul(2) });
        }
        let ghost a = out@;
        if (frame.mouse_dx != 0 || frame.mouse_dy != 0) && frame.mouse_dx > -127 && frame.mouse_dx < 127 {
            out.push(HidOutput::MouseRelative { dx: frame.mouse_dx, dy: frame.mouse_dy });
        }
        let ghost b = out@;
        if frame.scroll_y != 0 {
            out.push(HidOutput::Scroll { y: frame.scroll_y });
        }
        let ghost c = out@;
        let new_buttons = [frame.left, frame.right, frame.middle];
        let changed = frame.left != self.last_buttons[0] || frame.right != self.last_buttons[1] || frame.middle != self.last_buttons[2];
        proof {
            assert(new_buttons@ =~= seq![frame.left, frame.right, frame.middle]);
            if !changed {
                assert(new_buttons@ =~= self.last_buttons@);
            }
        }
        if changed {
            out.push(HidOutput::Buttons { left: frame.left, right: frame.right, middle: frame.middle });
        }
        self.last_buttons = new_buttons;
        self.last_mouse_pos = (frame.mouse_x, frame.mouse_y);
        assert(out@ =~= (if (frame.mouse_x, frame.mouse_y) != old(self).last_mouse_pos {
                seq![HidOutput::MouseAbsolute { x: frame.mouse_x.wrapping_mul(2), y: frame.mouse_y.wrapping_mul(2) }]
            } else {
                Seq::empty()
            }) + (if (frame.mouse_dx != 0 || frame.mouse_dy != 0) && -127 < frame.mouse_dx < 127 {
                seq![HidOutput::MouseRelative { dx: frame.mouse_dx, dy: frame.mouse_dy }]
            } else {
                Seq::empty()
            }) + (if frame.scroll_y != 0 {
                seq![HidOutput::Scroll { y: frame.scroll_y }]
            } else {
                Seq::empty()
            }) + (if seq![frame.left, frame.right, frame.middle] != old(self).last_buttons@ {
                seq![HidOutput::Buttons { left: frame.left, right: frame.right, middle: frame.middle }]
            } else {
                Seq::empty()
            }));
        out
    }
}

} // verus!
