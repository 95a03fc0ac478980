//! RNDIS over USB: the control messages of the handshake, the checks of
//! their answers, the framing of Ethernet frames on the bulk endpoints, the
//! receive queue, and the choice of interfaces and endpoints of a
//! USB-Ethernet dongle.

use vstd::prelude::*;
use vstd::bytes::*;
use std::collections::VecDeque;
use crate::errno::Errno;

verus! {

/// `RNDIS_PACKET_MSG`.
pub const RNDIS_PACKET_MSG: u32 = 0x0000_0001;
/// `RNDIS_INITIALIZE_MSG`.
pub const RNDIS_INITIALIZE_MSG: u32 = 0x0000_0002;
/// `RNDIS_INITIALIZE_CMPLT`.
pub const RNDIS_INITIALIZE_CMPLT: u32 = 0x8000_0002;
/// `RNDIS_QUERY_MSG`.
pub const RNDIS_QUERY_MSG: u32 = 0x0000_0004;
/// `RNDIS_QUERY_CMPLT`.
pub const RNDIS_QUERY_CMPLT: u32 = 0x8000_0004;
/// `RNDIS_SET_MSG`.
pub const RNDIS_SET_MSG: u32 = 0x0000_0005;
/// `RNDIS_SET_CMPLT`.
pub const RNDIS_SET_CMPLT: u32 = 0x8000_0005;
/// `OID_802_3_PERMANENT_ADDRESS`.
pub const OID_802_3_PERMANENT_ADDRESS: u32 = 0x0101_0101;
/// `OID_GEN_CURRENT_PACKET_FILTER`.
pub const OID_GEN_CURRENT_PACKET_FILTER: u32 = 0x0001_010E;
/// Directed, multicast, broadcast, all-multicast and promiscuous.
pub const RNDIS_PACKET_FILTER: u32 = 0x0000_002F;
/// The CDC class request that sends a control message.
pub const SEND_ENCAPSULATED_COMMAND: u8 = 0x00;
/// The CDC class request that reads a control answer.
pub const GET_ENCAPSULATED_RESPONSE: u8 = 0x01;
/// Length of the header of a data packet.
pub const RNDIS_HDR_LEN: usize = 44;

/// The little-endian `u32` at the start of `b`.
pub fn le32(b: &[u8]) -> (x: u32)
    requires
        b@.len() >= 4,
    ensures
        x == spec_u32_from_le_bytes(b@.subrange(0, 4)),
{
    let s = vstd::slice::slice_subrange(b, 0, 4);
    u32_from_le_bytes(s)
}

/// Appends `x` in little-endian order.
pub fn push32(v: &mut Vec<u8>, x: u32)
    ensures
        final(v)@ == old(v)@ + spec_u32_to_le_bytes(x),
{
    let b = u32_to_le_bytes(x);
    proof {
        lemma_auto_spec_u32_to_from_le_bytes();
    }
    let mut i: usize = 0;
    let ghost start = v@;
    while i < 4
        invariant
            b@ == spec_u32_to_le_bytes(x),
            b@.len() == 4,
            i <= 4,
            v@ == start + b@.subrange(0, i as int),
        decreases 4 - i,
    {
        v.push(b[i]);
        i += 1;
        assert(v@ =~= start + b@.subrange(0, i as int));
    }
    assert(b@.subrange(0, 4) =~= b@);
}

/// The little-endian encoding of a list of `u32` words.
pub open spec fn words(ws: Seq<u32>) -> Seq<u8>
    decreases ws.len(),
{
    if ws.len() == 0 {
        Seq::empty()
    } else {
        words(ws.drop_last()) + spec_u32_to_le_bytes(ws.last())
    }
}

fn push_words(v: &mut Vec<u8>, ws: &[u32])
    ensures
        final(v)@ == old(v)@ + words(ws@),
{
    let ghost start = v@;
    let mut i: usize = 0;
    while i < ws.len()
        invariant
            i <= ws@.len(),
            v@ == start + words(ws@.take(i as int)),
        decreases ws.len() - i,
    {
        push32(v, ws[i]);
        proof {
            assert(ws@.take(i + 1).drop_last() =~= ws@.take(i as int));
        }
        i += 1;
        assert(v@ =~= start + words(ws@.take(i as int)));
    }
    assert(ws@.take(ws@.len() as int) =~= ws@);
}

/// The INITIALIZE message: version 1.0, request 1, 16 KiB transfers.
pub open spec fn spec_initialize_msg() -> Seq<u8> {
    words(seq![RNDIS_INITIALIZE_MSG, 24u32, 1u32, 1u32, 0u32, 0x4000u32])
}

/// The QUERY message for the permanent MAC address, request 2.
pub open spec fn spec_query_mac_msg() -> Seq<u8> {
    words(seq![RNDIS_QUERY_MSG, 28u32, 2u32, OID_802_3_PERMANENT_ADDRESS, 0u32, 0u32, 0u32])
}

/// The SET message of the packet filter, request 3, its value at byte 28.
pub open spec fn spec_set_filter_msg(filter: u32) -> Seq<u8> {
    words(seq![RNDIS_SET_MSG, 32u32, 3u32, OID_GEN_CURRENT_PACKET_FILTER, 4u32, 20u32, 0u32, filter])
}

/// The INITIALIZE message.
pub fn initialize_msg() -> (m: Vec<u8>)
    ensures
        m@ == spec_initialize_msg(),
{
    let mut m: Vec<u8> = Vec::new();
    let ws: [u32; 6] = [RNDIS_INITIALIZE_MSG, 24, 1, 1, 0, 0x4000];
    assert(ws@ =~= seq![RNDIS_INITIALIZE_MSG, 24u32, 1u32, 1u32, 0u32, 0x4000u32]);
    push_words(&mut m, ws.as_slice());
    assert(m@ =~= spec_initialize_msg());
    m
}

/// The QUERY message for the MAC address.
pub fn query_mac_msg() -> (m: Vec<u8>)
    ensures
        m@ == spec_query_mac_msg(),
{
    let mut m: Vec<u8> = Vec::new();
    let ws: [u32; 7] = [RNDIS_QUERY_MSG, 28, 2, OID_802_3_PERMANENT_ADDRESS, 0, 0, 0];
    assert(ws@ =~= seq![RNDIS_QUERY_MSG, 28u32, 2u32, OID_802_3_PERMANENT_ADDRESS, 0u32, 0u32, 0u32]);
    push_words(&mut m, ws.as_slice());
    assert(m@ =~= spec_query_mac_msg());
    m
}

/// The SET message of the packet filter.
pub fn set_filter_msg(filter: u32) -> (m: Vec<u8>)
    ensures
        m@ == spec_set_filter_msg(filter),
{
    let mut m: Vec<u8> = Vec::new();
    let ws: [u32; 8] = [RNDIS_SET_MSG, 28 + 4, 3, OID_GEN_CURRENT_PACKET_FILTER, 4, 20, 0, filter];
    assert(ws@ =~= seq![RNDIS_SET_MSG, 32u32, 3u32, OID_GEN_CURRENT_PACKET_FILTER, 4u32, 20u32, 0u32, filter]);
    push_words(&mut m, ws.as_slice());
    assert(m@ =~= spec_set_filter_msg(filter));
    m
}

/// Checks that an answer is of the type `expected`: EIO otherwise.
pub fn check_completion(resp: &[u8], expected: u32) -> (r: Result<(), Errno>)
    requires
        resp@.len() >= 4,
    ensures
        r is Ok <==> spec_u32_from_le_bytes(resp@.subrange(0, 4)) == expected,
        r is Err ==> r == Err::<(), Errno>(Errno::Io),
{
    if le32(resp) != expected {
        return Err(Errno::Io);
    }
    Ok(())
}

/// The `u32` at byte `off` of `b`.
pub open spec fn word_at(b: Seq<u8>, off: int) -> u32 {
    spec_u32_from_le_bytes(b.subrange(off, off + 4))
}

fn le32_at(b: &[u8], off: usize) -> (x: u32)
    requires
        off + 4 <= b@.len(),
    ensures
        x == word_at(b@, off as int),
{
    let n = b.len();
    let s = vstd::slice::slice_subrange(b, off, off + 4);
    u32_from_le_bytes(s)
}

/// The MAC address in the answer to the MAC query: a QUERY completion whose
/// information buffer (offset counted from byte 8) holds at least 6 bytes
/// that lie in the answer. EIO otherwise.
pub fn parse_query_mac(resp: &[u8]) -> (r: Result<[u8; 6], Errno>)
    requires
        resp@.len() >= 24,
    ensures
        ({
            let off = word_at(resp@, 20) + 8;
            let len = word_at(resp@, 16);
            let ok = word_at(resp@, 0) == RNDIS_QUERY_CMPLT && len >= 6 && off + 6 <= resp@.len();
            &&& ok ==> (r matches Ok(mac) && mac@ == resp@.subrange(off, off + 6))
            &&& !ok ==> r == Err::<[u8; 6], Errno>(Errno::Io)
        }),
{
    assert(resp@.subrange(0, 4) == resp@.subrange(0int, 0int + 4));
    check_completion(resp, RNDIS_QUERY_CMPLT)?;
    let info_off = le32_at(resp, 20) as u64 + 8;
    let info_len = le32_at(resp, 16);
    if info_len < 6 || info_off + 6 > resp.len() as u64 {
        return Err(Errno::Io);
    }
    let off = info_off as usize;
    let n = resp.len();
    let mut mac = [0u8; 6];
    let mut i: usize = 0;
    while i < 6
        invariant
            n == resp@.len(),
            off + 6 <= resp@.len(),
            i <= 6,
            forall|k: int| 0 <= k < i ==> mac@[k] == resp@[off + k],
        decreases 6 - i,
    {
        mac[i] = resp[off + i];
        i += 1;
    }
    assert(mac@ =~= resp@.subrange(off as int, off + 6));
    Ok(mac)
}

/// The Ethernet frame in a packet read from the bulk-in endpoint: a
/// PACKET message whose data (offset counted from byte 8) is not empty and
/// lies in the buffer; None otherwise.
pub open spec fn spec_unwrap_rx(buf: Seq<u8>) -> Option<Seq<u8>> {
    if buf.len() >= 16 && word_at(buf, 0) == RNDIS_PACKET_MSG {
        let off = word_at(buf, 8) + 8;
        let len = word_at(buf, 12) as int;
        if len > 0 && off + len <= buf.len() {
            Some(buf.subrange(off, off + len))
        } else {
            None
        }
    } else {
        None
    }
}

/// Unwraps the Ethernet frame of a received packet.
pub fn unwrap_rx(buf: &[u8]) -> (r: Option<Vec<u8>>)
    ensures
        match spec_unwrap_rx(buf@) {
            Some(f) => r matches Some(v) && v@ == f,
            None => r is None,
        },
{
    if buf.len() < 16 || le32_at(buf, 0) != RNDIS_PACKET_MSG {
        return None;
    }
    let data_off = le32_at(buf, 8) as u64 + 8;
    let data_len = le32_at(buf, 12) as u64;
    if !(data_len > 0 && data_off + data_len <= buf.len() as u64) {
        return None;
    }
    let off = data_off as usize;
    let len = data_len as usize;
    let mut frame: Vec<u8> = Vec::new();
    let n = buf.len();
    let mut i: usize = 0;
    while i < len
        invariant
            n == buf@.len(),
            off + len <= buf@.len(),
            i <= len,
            frame@ == buf@.subrange(off as int, off + i),
        decreases len - i,
    {
        frame.push(buf[off + i]);
        i += 1;
        assert(frame@ =~= buf@.subrange(off as int, off + i));
    }
    Some(frame)
}

/// A PACKET message carrying `frame`: the 44-byte header (message length
/// truncated to 32 bits, data at byte 44, the frame's length), then the
/// frame.
pub open spec fn spec_wrap_tx(frame: Seq<u8>) -> Seq<u8> {
    words(seq![RNDIS_PACKET_MSG, (44 + frame.len()) as u32, 36u32, frame.len() as u32]) + Seq::new(28, |i: int| 0u8)
        + frame
}

/// Wraps an Ethernet frame for the bulk-out endpoint.
pub fn wrap_tx(frame: &[u8]) -> (m: Vec<u8>)
    requires
        frame@.len() + 44 <= usize::MAX,
    ensures
        m@ == spec_wrap_tx(frame@),
{
    let mut m: Vec<u8> = Vec::new();
    let total = RNDIS_HDR_LEN + frame.len();
    let ws: [u32; 4] = [RNDIS_PACKET_MSG, total as u32, 36, frame.len() as u32];
    assert(ws@ =~= seq![RNDIS_PACKET_MSG, (44 + frame@.len()) as u32, 36u32, frame@.len() as u32]);
    push_words(&mut m, ws.as_slice());
    let ghost head = m@;
    let mut i: usize = 0;
    while i < 28
        invariant
            i <= 28,
            m@ == head + Seq::new(i as nat, |k: int| 0u8),
        decreases 28 - i,
    {
        m.push(0);
        i += 1;
        assert(m@ =~= head + Seq::new(i as nat, |k: int| 0u8));
    }
    let ghost mid = m@;
    let mut k: usize = 0;
    while k < frame.len()
        invariant
            k <= frame@.len(),
            m@ == mid + frame@.take(k as int),
        decreases frame.len() - k,
    {
        m.push(frame[k]);
        k += 1;
        assert(m@ =~= mid + frame@.take(k as int));
    }
    assert(frame@.take(frame@.len() as int) =~= frame@);
    m
}

/// Unwrapping a wrapped frame gives it back, for a frame of 1 to
/// `u32::MAX - 44` bytes.
pub proof fn lemma_unwrap_wrap(frame: Seq<u8>)
    requires
        0 < frame.len(),
        frame.len() + 44 <= u32::MAX,
    ensures
        spec_unwrap_rx(spec_wrap_tx(frame)) == Some(frame),
{
    lemma_auto_spec_u32_to_from_le_bytes();
    let m = spec_wrap_tx(frame);
    let ws = seq![RNDIS_PACKET_MSG, (44 + frame.len()) as u32, 36u32, frame.len() as u32];
    reveal_with_fuel(words, 5);
    assert(ws.drop_last().drop_last().drop_last().drop_last() =~= Seq::<u32>::empty());
    assert(words(ws).len() == 16);
    assert(m.subrange(0, 4) =~= spec_u32_to_le_bytes(RNDIS_PACKET_MSG));
    assert(m.subrange(8, 12) =~= spec_u32_to_le_bytes(36u32));
    assert(m.subrange(12, 16) =~= spec_u32_to_le_bytes(frame.len() as u32));
    assert(m.subrange(44, 44 + frame.len() as int) =~= frame);
}

/// Takes the oldest received frame into `buf`, as much of it as fits;
/// returns how many bytes were copied, or None when no frame waits.
pub fn read_packet(queue: &mut VecDeque<Vec<u8>>, buf: &mut [u8]) -> (r: Option<usize>)
    ensures
        old(queue)@.len() == 0 ==> r is None && final(queue)@ == old(queue)@ && final(buf)@ == old(buf)@,
        old(queue)@.len() > 0 ==> {
            let f = old(queue)@[0]@;
            let n = if f.len() < old(buf)@.len() { f.len() } else { old(buf)@.len() };
            &&& r == Some(n as usize)
            &&& final(queue)@ == old(queue)@.subrange(1, old(queue)@.len() as int)
            &&& final(buf)@ == f.subrange(0, n as int) + old(buf)@.subrange(n as int, old(buf)@.len() as int)
        },
{
    match queue.pop_front() {
        Some(frame) => {
            let n = if frame.len() < buf.len() { frame.len() } else { buf.len() };
            let ghost start = buf@;
            let mut i: usize = 0;
            while i < n
                invariant
                    n <= frame@.len(),
                    n <= buf@.len(),
                    buf@.len() == start.len(),
                    i <= n,
                    forall|k: int| 0 <= k < i ==> buf@[k] == frame@[k],
                    forall|k: int| i <= k < buf@.len() ==> buf@[k] == start[k],
                decreases n - i,
            {
                buf[i] = frame[i];
                i += 1;
            }
            assert(buf@ =~= frame@.subrange(0, n as int) + start.subrange(n as int, start.len() as int));
            Some(n)
        },
        None => None,
    }
}

/// An endpoint of a USB interface: whether it is a bulk endpoint and
/// whether it points in (device to host).
#[derive(Debug, Copy, Clone, PartialEq, Eq, Structural)]
pub struct EndpointDesc {
    pub bulk: bool,
    pub dir_in: bool,
}

/// A USB interface: its number, alternate setting, class and endpoints.
#[derive(Debug, Clone)]
pub struct InterfaceDesc {
    pub number: u8,
    pub alternate_setting: u8,
    pub class: u8,
    pub endpoints: Vec<EndpointDesc>,
}

/// A USB configuration and its interfaces.
#[derive(Debug, Clone)]
pub struct ConfigDesc {
    pub configuration_value: u8,
    pub interfaces: Vec<InterfaceDesc>,
}

/// Where the network traffic goes: the configuration, the CDC-Data
/// interface and its alternate setting, the control interface, and the
/// bulk endpoints, numbered from 1 in the data interface's list.
#[derive(Debug, Copy, Clone, PartialEq, Eq, Structural)]
pub struct NetEndpoints {
    pub config_value: u8,
    pub data_if: u8,
    pub alt: u8,
    pub ctrl_if: u8,
    pub bulk_in: u8,
    pub bulk_out: u8,
}

/// Position of the first interface of class `class`, or -1.
pub open spec fn first_of_class(ifs: Seq<InterfaceDesc>, class: u8) -> int
    decreases ifs.len(),
{
    if ifs.len() == 0 {
        -1
    } else if ifs[0].class == class {
        0
    } else {
        let r = first_of_class(ifs.skip(1), class);
        if r < 0 { -1 } else { r + 1 }
    }
}

/// Position of the first bulk endpoint pointing in (`dir_in`) or out, or -1.
pub open spec fn first_bulk(eps: Seq<EndpointDesc>, dir_in: bool) -> int
    decreases eps.len(),
{
    if eps.len() == 0 {
        -1
    } else if eps[0].bulk && eps[0].dir_in == dir_in {
        0
    } else {
        let r = first_bulk(eps.skip(1), dir_in);
        if r < 0 { -1 } else { r + 1 }
    }
}

/// The endpoints a configuration offers: its first CDC-Data interface
/// (class 0x0A) with a bulk-in and a bulk-out endpoint, and its first
/// Communications interface (class 0x02) as control interface, or the
/// interface before the data one when it has none.
pub open spec fn config_endpoints(c: ConfigDesc) -> Option<NetEndpoints> {
    let ifs = Seq::new(c.interfaces@.len(), |i: int| c.interfaces@[i]);
    let d = first_of_class(ifs, 0x0Au8);
    if d < 0 {
        None
    } else {
        let ifd = ifs[d];
        let bin = first_bulk(ifd.endpoints@, true);
        let bout = first_bulk(ifd.endpoints@, false);
        if bin < 0 || bout < 0 {
            None
        } else {
            let ci = first_of_class(ifs, 0x02u8);
            Some(NetEndpoints {
                config_value: c.configuration_value,
                data_if: ifd.number,
                alt: ifd.alternate_setting,
                ctrl_if: if ci >= 0 { ifs[ci].number } else if ifd.number > 0 { (ifd.number - 1) as u8 } else { 0u8 },
                bulk_in: (bin + 1) as u8,
                bulk_out: (bout + 1) as u8,
            })
        }
    }
}

/// The endpoints of the first configuration that offers them.
pub open spec fn spec_choose_endpoints(cs: Seq<ConfigDesc>) -> Option<NetEndpoints>
    decreases cs.len(),
{
    if cs.len() == 0 {
        None
    } else {
        match config_endpoints(cs[0]) {
            Some(e) => Some(e),
            None => spec_choose_endpoints(cs.skip(1)),
        }
    }
}

fn find_class(ifs: &Vec<InterfaceDesc>, class: u8) -> (r: Option<usize>)
    ensures
        match r {
            Some(i) => i == first_of_class(Seq::new(ifs@.len(), |k: int| ifs@[k]), class) && i < ifs@.len(),
            None => first_of_class(Seq::new(ifs@.len(), |k: int| ifs@[k]), class) == -1,
        },
{
    let ghost all = Seq::new(ifs@.len(), |k: int| ifs@[k]);
    assert(all.skip(0) =~= all);
    let mut i: usize = 0;
    while i < ifs.len()
        invariant
            i <= ifs@.len(),
            all == Seq::new(ifs@.len(), |k: int| ifs@[k]),
            forall|k: int| 0 <= k < i ==> ifs@[k].class != class,
            first_of_class(all, class) == (if first_of_class(all.skip(i as int), class) < 0 { -1 } else { first_of_class(all.skip(i as int), class) + i }),
        decreases ifs.len() - i,
    {
        if ifs[i].class == class {
            assert(all.skip(i as int)[0] == ifs@[i as int]);
            return Some(i);
        }
        assert(all.skip(i as int).skip(1) =~= all.skip(i + 1));
        i += 1;
    }
    None
}

fn find_bulk(eps: &Vec<EndpointDesc>, dir_in: bool) -> (r: Option<usize>)
    ensures
        match r {
            Some(i) => i == first_bulk(eps@, dir_in) && i < eps@.len(),
            None => first_bulk(eps@, dir_in) == -1,
        },
{
    assert(eps@.skip(0) =~= eps@);
    let mut i: usize = 0;
    while i < eps.len()
        invariant
            i <= eps@.len(),
            first_bulk(eps@, dir_in) == (if first_bulk(eps@.skip(i as int), dir_in) < 0 { -1 } else { first_bulk(eps@.skip(i as int), dir_in) + i }),
        decreases eps.len() - i,
    {
        if eps[i].bulk && eps[i].dir_in == dir_in {
            assert(eps@.skip(i as int)[0] == eps@[i as int]);
            return Some(i);
        }
        assert(eps@.skip(i as int).skip(1) =~= eps@.skip(i + 1));
        i += 1;
    }
    None
}

/// Interface `d` of `ifs` is the first CDC-Data interface (class 0x0A).
pub open spec fn is_first_data(ifs: Seq<InterfaceDesc>, d: int) -> bool {
    &&& 0 <= d < ifs.len()
    &&& ifs[d].class == 0x0Au8
    &&& forall|j: int| 0 <= j < d ==> ifs[j].class != 0x0Au8
}

/// Endpoint `a` of `eps` is the first bulk endpoint pointing in
/// (`dir_in`) or out.
pub open spec fn is_first_bulk(eps: Seq<EndpointDesc>, dir_in: bool, a: int) -> bool {
    &&& 0 <= a < eps.len()
    &&& eps[a].bulk && eps[a].dir_in == dir_in
    &&& forall|j: int| 0 <= j < a ==> !(eps[j].bulk && eps[j].dir_in == dir_in)
}

/// The configuration can carry the traffic: its first CDC-Data interface
/// has a bulk endpoint each way.
pub open spec fn carries_traffic(c: ConfigDesc) -> bool {
    exists|d: int| #[trigger] is_first_data(c.interfaces@, d)
        && (exists|a: int| 0 <= a < c.interfaces@[d].endpoints@.len() && c.interfaces@[d].endpoints@[a].bulk && c.interfaces@[d].endpoints@[a].dir_in)
        && (exists|b: int| 0 <= b < c.interfaces@[d].endpoints@.len() && c.interfaces@[d].endpoints@[b].bulk && !c.interfaces@[d].endpoints@[b].dir_in)
}

/// No interface has 255 endpoints or more (endpoint numbers are bytes).
pub open spec fn endpoint_counts_fit(cs: Seq<ConfigDesc>) -> bool {
    forall|k: int, d: int| 0 <= k < cs.len() && 0 <= d < cs[k].interfaces@.len() ==> (#[trigger] cs[k].interfaces@[d]).endpoints@.len() < 255
}

/// What the chosen endpoints are, in terms of the configurations alone.
pub open spec fn endpoints_chosen_from(cs: Seq<ConfigDesc>, k: int, e: NetEndpoints) -> bool {
    let ifs = cs[k].interfaces@;
    &&& 0 <= k < cs.len()
    &&& carries_traffic(cs[k])
    &&& forall|j: int| 0 <= j < k ==> !carries_traffic(#[trigger] cs[j])
    &&& e.config_value == cs[k].configuration_value
    &&& exists|d: int| #[trigger] is_first_data(ifs, d) && {
        let eps = ifs[d].endpoints@;
        &&& e.data_if == ifs[d].number
        &&& e.alt == ifs[d].alternate_setting
        &&& is_first_bulk(eps, true, e.bulk_in - 1)
        &&& is_first_bulk(eps, false, e.bulk_out - 1)
        &&& (forall|i: int| 0 <= i < ifs.len() ==> ifs[i].class != 0x02u8) ==> e.ctrl_if == (if ifs[d].number > 0 { ifs[d].number - 1 } else { 0 })
        &&& (exists|i: int| 0 <= i < ifs.len() && ifs[i].class == 0x02u8) ==> exists|i: int| 0 <= i < ifs.len() && ifs[i].class == 0x02u8
            && (forall|j: int| 0 <= j < i ==> ifs[j].class != 0x02u8) && e.ctrl_if == ifs[i].number
    }
}

proof fn lemma_first_of_class(ifs: Seq<InterfaceDesc>, class: u8)
    ensures
        first_of_class(ifs, class) < 0 ==> forall|j: int| 0 <= j < ifs.len() ==> ifs[j].class != class,
        first_of_class(ifs, class) >= 0 ==> first_of_class(ifs, class) < ifs.len() && ifs[first_of_class(ifs, class)].class == class
            && forall|j: int| 0 <= j < first_of_class(ifs, class) ==> ifs[j].class != class,
        first_of_class(ifs, class) >= -1,
    decreases ifs.len(),
{
    if ifs.len() > 0 {
        lemma_first_of_class(ifs.skip(1), class);
        assert forall|j: int| 1 <= j < ifs.len() implies ifs[j] == ifs.skip(1)[j - 1] by {}
    }
}

proof fn lemma_first_bulk(eps: Seq<EndpointDesc>, dir_in: bool)
    ensures
        first_bulk(eps, dir_in) < 0 ==> forall|j: int| 0 <= j < eps.len() ==> !(eps[j].bulk && eps[j].dir_in == dir_in),
        first_bulk(eps, dir_in) >= 0 ==> is_first_bulk(eps, dir_in, first_bulk(eps, dir_in)),
        first_bulk(eps, dir_in) >= -1,
    decreases eps.len(),
{
    if eps.len() > 0 {
        lemma_first_bulk(eps.skip(1), dir_in);
        assert forall|j: int| 1 <= j < eps.len() implies eps[j] == eps.skip(1)[j - 1] by {}
    }
}

/// One configuration: it offers endpoints exactly when it carries the
/// traffic, and then the ones `endpoints_chosen_from` describes.
proof fn lemma_config_endpoints(cs: Seq<ConfigDesc>, k: int)
    requires
        0 <= k < cs.len(),
        endpoint_counts_fit(cs),
    ensures
        config_endpoints(cs[k]) is Some <==> carries_traffic(cs[k]),
        config_endpoints(cs[k]) matches Some(e) ==> (forall|j: int| 0 <= j < k ==> !carries_traffic(#[trigger] cs[j]))
            ==> endpoints_chosen_from(cs, k, e),
{
    let c = cs[k];
    let ifs = c.interfaces@;
    assert(Seq::new(c.interfaces@.len(), |i: int| c.interfaces@[i]) =~= ifs);
    lemma_first_of_class(ifs, 0x0Au8);
    lemma_first_of_class(ifs, 0x02u8);
    let d = first_of_class(ifs, 0x0Au8);
    if d >= 0 {
        assert(is_first_data(ifs, d));
        let eps = ifs[d].endpoints@;
        lemma_first_bulk(eps, true);
        lemma_first_bulk(eps, false);
        assert(eps.len() < 255) by {
            assert(cs[k].interfaces@[d].endpoints@.len() < 255);
        }
        assert forall|d2: int| #[trigger] is_first_data(ifs, d2) implies d2 == d by {
            if d2 < d {
                assert(ifs[d2].class != 0x0Au8);
            } else if d2 > d {
                assert(ifs[d].class != 0x0Au8);
            }
        }
        let bin = first_bulk(eps, true);
        let bout = first_bulk(eps, false);
        if bin >= 0 && bout >= 0 {
            assert(carries_traffic(c));
            let e = config_endpoints(c).unwrap();
            assert(e.bulk_in - 1 == bin);
            assert(e.bulk_out - 1 == bout);
        } else {
            if carries_traffic(c) {
                let d2 = choose|d2: int| #[trigger] is_first_data(c.interfaces@, d2)
                    && (exists|a: int| 0 <= a < c.interfaces@[d2].endpoints@.len() && c.interfaces@[d2].endpoints@[a].bulk && c.interfaces@[d2].endpoints@[a].dir_in)
                    && (exists|b: int| 0 <= b < c.interfaces@[d2].endpoints@.len() && c.interfaces@[d2].endpoints@[b].bulk && !c.interfaces@[d2].endpoints@[b].dir_in);
                assert(d2 == d);
                assert(false);
            }
        }
    } else {
        if carries_traffic(c) {
            let d2 = choose|d2: int| #[trigger] is_first_data(c.interfaces@, d2)
                && (exists|a: int| 0 <= a < c.interfaces@[d2].endpoints@.len() && c.interfaces@[d2].endpoints@[a].bulk && c.interfaces@[d2].endpoints@[a].dir_in)
                && (exists|b: int| 0 <= b < c.interfaces@[d2].endpoints@.len() && c.interfaces@[d2].endpoints@[b].bulk && !c.interfaces@[d2].endpoints@[b].dir_in);
            assert(ifs[d2].class == 0x0Au8);
            assert(false);
        }
    }
}

/// The endpoints chosen, stated on the configurations alone: none when no
/// configuration's first CDC-Data interface has a bulk endpoint each way;
/// otherwise those of the first configuration whose does: its value, that
/// interface's number and alternate setting, its first bulk-in and
/// bulk-out endpoints (numbered from 1), and as control interface the
/// configuration's first Communications interface (class 0x02), or, when
/// it has none, the interface numbered one below the data interface (0
/// for data interface 0).
pub proof fn lemma_choose_endpoints_law(cs: Seq<ConfigDesc>)
    requires
        endpoint_counts_fit(cs),
    ensures
        spec_choose_endpoints(cs) is None <==> forall|k: int| 0 <= k < cs.len() ==> !carries_traffic(#[trigger] cs[k]),
        spec_choose_endpoints(cs) matches Some(e) ==> exists|k: int| endpoints_chosen_from(cs, k, e),
    decreases cs.len(),
{
    if cs.len() > 0 {
        let rest = cs.skip(1);
        assert(endpoint_counts_fit(rest)) by {
            assert forall|k: int, d: int| 0 <= k < rest.len() && 0 <= d < rest[k].interfaces@.len() implies (#[trigger] rest[k].interfaces@[d]).endpoints@.len() < 255 by {
                assert(rest[k] == cs[k + 1]);
            }
        }
        lemma_choose_endpoints_law(rest);
        lemma_config_endpoints(cs, 0);
        assert forall|k: int| 1 <= k < cs.len() implies cs[k] == rest[k - 1] by {}
        match config_endpoints(cs[0]) {
            Some(e) => {
                assert(endpoints_chosen_from(cs, 0, e));
            },
            None => {
                if spec_choose_endpoints(rest) is None {
                    assert forall|k: int| 0 <= k < cs.len() implies !carries_traffic(#[trigger] cs[k]) by {
                        if k > 0 {
                            assert(!carries_traffic(rest[k - 1]));
                        }
                    }
                } else {
                    let e = spec_choose_endpoints(rest).unwrap();
                    let k = choose|k: int| endpoints_chosen_from(rest, k, e);
                    assert(endpoints_chosen_from(cs, k + 1, e)) by {
                        assert(cs[k + 1] == rest[k]);
                        assert forall|j: int| 0 <= j < k + 1 implies !carries_traffic(#[trigger] cs[j]) by {
                            if j > 0 {
                                assert(cs[j] == rest[j - 1]);
                            }
                        }
                    }
                    assert(!carries_traffic(rest[k]) == false);
                }
            },
        }
    }
}

/// Finds where the network traffic of a USB-Ethernet dongle goes, or None
/// when no configuration has a CDC-Data interface with bulk endpoints both
/// ways.
pub fn choose_endpoints(configs: &Vec<ConfigDesc>) -> (r: Option<NetEndpoints>)
    ensures
        r == spec_choose_endpoints(configs@),
{
    assert(configs@.skip(0) =~= configs@);
    let mut i: usize = 0;
    while i < configs.len()
        invariant
            i <= configs@.len(),
            spec_choose_endpoints(configs@) == spec_choose_endpoints(configs@.skip(i as int)),
        decreases configs.len() - i,
    {
        let c = &configs[i];
        assert(configs@.skip(i as int)[0] == configs@[i as int]);
        let found: Option<NetEndpoints> = match find_class(&c.interfaces, 0x0A) {
            Some(d) => {
                let ifd = &c.interfaces[d];
                let _n = ifd.endpoints.len();
                match (find_bulk(&ifd.endpoints, true), find_bulk(&ifd.endpoints, false)) {
                    (Some(bin), Some(bout)) => {
                        let ctrl_if = match find_class(&c.interfaces, 0x02) {
                            Some(ci) => c.interfaces[ci].number,
                            None => ifd.number.saturating_sub(1),
                        };
                        Some(NetEndpoints {
                            config_value: c.configuration_value,
                            data_if: ifd.number,
                            alt: ifd.alternate_setting,
                            ctrl_if,
                            bulk_in: (bin + 1) as u8,
                            bulk_out: (bout + 1) as u8,
                        })
                    },
                    _ => None,
                }
            },
            None => None,
        };
        assert(found == config_endpoints(configs@[i as int]));
        if found.is_some() {
            return found;
        }
        assert(configs@.skip(i as int).skip(1) =~= configs@.skip(i + 1));
        i += 1;
    }
    None
}

} // verus!
