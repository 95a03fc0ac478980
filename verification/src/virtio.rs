//! Probing a VirtIO PCI device: choosing, among the vendor capabilities it
//! exposes, the configuration structures the standard transport needs.

use vstd::prelude::*;

verus! {

/// The PCI vendor number of VirtIO devices.
pub const VIRTIO_VENDOR_ID: u16 = 6900;

/// The kinds of VirtIO configuration structure the transport uses.
#[derive(Debug, Clone, Copy, PartialEq, Eq, Structural)]
pub enum CfgType {
    /// The common configuration.
    Common,
    /// The queue notification area.
    Notify,
    /// The interrupt status register.
    Isr,
    /// The device-specific configuration.
    Device,
}

impl CfgType {
    /// The `cfg_type` number of a capability of this kind.
    pub open spec fn spec_code(self) -> u8 {
        match self {
            CfgType::Common => 1,
            CfgType::Notify => 2,
            CfgType::Isr => 3,
            CfgType::Device => 4,
        }
    }

    /// The kind of a capability by its `cfg_type` number; the others (such
    /// as the PCI configuration access) are not used.
    pub fn from_code(code: u8) -> (r: Option<CfgType>)
        ensures
            match r {
                Some(t) => t.spec_code() == code,
                None => code < 1 || code > 4,
            },
    {
        if code == 1 {
            Some(CfgType::Common)
        } else if code == 2 {
            Some(CfgType::Notify)
        } else if code == 3 {
            Some(CfgType::Isr)
        } else if code == 4 {
            Some(CfgType::Device)
        } else {
            None
        }
    }
}

/// A vendor capability of the device, with the address its structure was
/// mapped at (its BAR's mapping plus its offset), and for a notification
/// capability its queue notify offset multiplier.
#[derive(Debug, Clone, Copy)]
pub struct MappedCapability {
    pub cfg_type: u8,
    pub address: usize,
    pub notify_off_multiplier: u32,
}

/// The last capability of kind `t` in `caps`, if any: a later one
/// replaces an earlier one.
pub open spec fn last_of(caps: Seq<MappedCapability>, t: CfgType) -> Option<MappedCapability>
    decreases caps.len(),
{
    if caps.len() == 0 {
        None
    } else if caps.last().cfg_type == t.spec_code() {
        Some(caps.last())
    } else {
        last_of(caps.drop_last(), t)
    }
}

/// Where the standard transport finds the device's structures.
#[derive(Debug, Clone, Copy)]
pub struct ProbedDevice {
    pub common: usize,
    pub notify: usize,
    pub notify_multiplier: u32,
    pub device: usize,
    /// The interrupt status register, 0 when the device has none.
    pub isr: usize,
}

/// Why a device cannot be driven.
#[derive(Debug, Clone, Copy, PartialEq, Eq, Structural)]
pub enum ProbeError {
    /// The device has no capability of this kind (a legacy-only device has
    /// no common configuration).
    InCapable(CfgType),
}

/// The outcome of probing a device whose capabilities are `caps`: the
/// common, device and notification structures must all be there, checked
/// in that order.
pub open spec fn probe_spec(caps: Seq<MappedCapability>) -> Result<ProbedDevice, ProbeError> {
    match (last_of(caps, CfgType::Common), last_of(caps, CfgType::Device), last_of(caps, CfgType::Notify)) {
        (None, _, _) => Err(ProbeError::InCapable(CfgType::Common)),
        (Some(_), None, _) => Err(ProbeError::InCapable(CfgType::Device)),
        (Some(_), Some(_), None) => Err(ProbeError::InCapable(CfgType::Notify)),
        (Some(c), Some(d), Some(n)) => Ok(ProbedDevice {
            common: c.address,
            notify: n.address,
            notify_multiplier: n.notify_off_multiplier,
            device: d.address,
            isr: match last_of(caps, CfgType::Isr) {
                Some(i) => i.address,
                None => 0,
            },
        }),
    }
}

fn find_last(caps: &Vec<MappedCapability>, t: CfgType) -> (r: Option<MappedCapability>)
    ensures
        r == last_of(caps@, t),
{
    let code: u8 = match t {
        CfgType::Common => 1,
        CfgType::Notify => 2,
        CfgType::Isr => 3,
        CfgType::Device => 4,
    };
    let mut i: usize = caps.len();
    assert(caps@.take(i as int) =~= caps@);
    while i > 0
        invariant
            i <= caps@.len(),
            code == t.spec_code(),
            last_of(caps@, t) == last_of(caps@.take(i as int), t),
        decreases i,
    {
        assert(caps@.take(i as int).drop_last() =~= caps@.take(i - 1));
        if caps[i - 1].cfg_type == code {
            return Some(caps[i - 1]);
        }
        i -= 1;
    }
    assert(caps@.take(0) =~= Seq::<MappedCapability>::empty());
    None
}

/// `DEVICE_STATUS` bit: the driver has noticed the device.
pub const STATUS_ACKNOWLEDGE: u8 = 1;
/// `DEVICE_STATUS` bit: the driver knows how to drive the device.
pub const STATUS_DRIVER: u8 = 2;

/// A write to the device status register: a reset (the status becomes 0)
/// or setting status bits on top of those already set.
#[derive(Debug, Clone, Copy, PartialEq, Eq, Structural)]
pub enum StatusWrite {
    Reset,
    Insert(u8),
}

/// The device status after the writes `ws`, from status `s`.
pub open spec fn status_after(s: u8, ws: Seq<StatusWrite>) -> u8
    decreases ws.len(),
{
    if ws.len() == 0 {
        s
    } else {
        match ws.last() {
            StatusWrite::Reset => 0,
            StatusWrite::Insert(f) => status_after(s, ws.drop_last()) | f,
        }
    }
}

/// The status writes that bring a reset device to where its features can
/// be negotiated: ACKNOWLEDGE, then DRIVER, in two separate writes.
pub open spec fn reinit_writes() -> Seq<StatusWrite> {
    seq![StatusWrite::Insert(STATUS_ACKNOWLEDGE), StatusWrite::Insert(STATUS_DRIVER)]
}

/// The status writes of a (re)initialisation: ACKNOWLEDGE, then DRIVER.
pub fn reinit() -> (ws: Vec<StatusWrite>)
    ensures
        ws@ == reinit_writes(),
{
    vec![StatusWrite::Insert(STATUS_ACKNOWLEDGE), StatusWrite::Insert(STATUS_DRIVER)]
}

/// Whatever the device's status was, a reset followed by the writes of
/// `reinit` leaves exactly ACKNOWLEDGE and DRIVER set.
pub proof fn lemma_probe_status(s: u8)
    ensures
        status_after(s, seq![StatusWrite::Reset] + reinit_writes()) == STATUS_ACKNOWLEDGE | STATUS_DRIVER,
{
    let ws = seq![StatusWrite::Reset] + reinit_writes();
    assert(ws.drop_last().drop_last() =~= seq![StatusWrite::Reset]);
    assert(ws.drop_last().last() == StatusWrite::Insert(STATUS_ACKNOWLEDGE));
    assert(ws.last() == StatusWrite::Insert(STATUS_DRIVER));
    let w1 = ws.drop_last();
    assert(status_after(s, w1.drop_last()) == 0);
    assert(status_after(s, w1) == status_after(s, w1.drop_last()) | 1u8);
    assert(status_after(s, ws) == status_after(s, w1) | 2u8);
    assert((0u8 | 1u8) | 2u8 == 3u8) by (bit_vector);
    assert(1u8 | 2u8 == 3u8) by (bit_vector);
}

/// Probes the VirtIO device with vendor number `vendor_id` from its mapped
/// vendor capabilities `caps` (the common, notification, device and ISR
/// ones are used; the last of each kind counts). A device without common,
/// device or notification structure is refused; one without ISR gets 0.
/// A device taken comes with the status writes to make on it, in order: a
/// reset, then those of `reinit`.
pub fn probe_device(vendor_id: u16, caps: &Vec<MappedCapability>) -> (r: Result<(ProbedDevice, Vec<StatusWrite>), ProbeError>)
    requires
        vendor_id == VIRTIO_VENDOR_ID,
        probe_spec(caps@) matches Ok(d) ==> d.notify_multiplier != 0,
    ensures
        r is Err ==> r == Err::<(ProbedDevice, Vec<StatusWrite>), ProbeError>(probe_spec(caps@)->Err_0),
        r is Err <==> probe_spec(caps@) is Err,
        r matches Ok((d, ws)) ==> probe_spec(caps@) == Ok::<ProbedDevice, ProbeError>(d)
            && ws@ == seq![StatusWrite::Reset] + reinit_writes(),
{
    let common = match find_last(caps, CfgType::Common) {
        Some(c) => c,
        None => return Err(ProbeError::InCapable(CfgType::Common)),
    };
    let device = match find_last(caps, CfgType::Device) {
        Some(d) => d,
        None => return Err(ProbeError::InCapable(CfgType::Device)),
    };
    let notify = match find_last(caps, CfgType::Notify) {
        Some(n) => n,
        None => return Err(ProbeError::InCapable(CfgType::Notify)),
    };
    let isr = match find_last(caps, CfgType::Isr) {
        Some(i) => i.address,
        None => 0,
    };
    let d = ProbedDevice {
        common: common.address,
        notify: notify.address,
        notify_multiplier: notify.notify_off_multiplier,
        device: device.address,
        isr,
    };
    let mut ws = vec![StatusWrite::Reset];
    let mut more = reinit();
    ws.append(&mut more);
    assert(ws@ =~= seq![StatusWrite::Reset] + reinit_writes());
    Ok((d, ws))
}

/// Whether to warn that legacy INTx interrupts were chosen for a device
/// without an interrupt status register to acknowledge them with.
pub fn isr_missing(intx: bool, isr: usize) -> (r: bool)
    ensures
        r == (intx && isr == 0),
{
    intx && isr == 0
}

} // verus!
