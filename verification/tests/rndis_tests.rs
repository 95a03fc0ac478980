use std::collections::VecDeque;

use eos_base::errno::Errno;
use eos_base::rndis::{
    check_completion, choose_endpoints, initialize_msg, le32, parse_query_mac, push32,
    query_mac_msg, read_packet, set_filter_msg, unwrap_rx, wrap_tx, ConfigDesc, EndpointDesc,
    InterfaceDesc, NetEndpoints, RNDIS_INITIALIZE_CMPLT, RNDIS_PACKET_FILTER, RNDIS_QUERY_CMPLT,
};
use eos_base::util::parse_decimal_usize;

fn words(ws: &[u32]) -> Vec<u8> {
    ws.iter().flat_map(|w| w.to_le_bytes()).collect()
}

#[test]
fn little_endian_words() {
    assert_eq!(le32(&[0x78, 0x56, 0x34, 0x12, 0xff]), 0x1234_5678);
    let mut v = vec![9u8];
    push32(&mut v, 0xA1B2_C3D4);
    assert_eq!(v, vec![9, 0xD4, 0xC3, 0xB2, 0xA1]);
}

#[test]
fn control_messages() {
    assert_eq!(initialize_msg(), words(&[2, 24, 1, 1, 0, 0x4000]));
    assert_eq!(query_mac_msg(), words(&[4, 28, 2, 0x0101_0101, 0, 0, 0]));
    assert_eq!(set_filter_msg(RNDIS_PACKET_FILTER), words(&[5, 32, 3, 0x0001_010E, 4, 20, 0, 0x2F]));
}

#[test]
fn completions_and_mac() {
    assert_eq!(check_completion(&words(&[RNDIS_INITIALIZE_CMPLT, 0]), RNDIS_INITIALIZE_CMPLT), Ok(()));
    assert_eq!(check_completion(&words(&[7]), RNDIS_INITIALIZE_CMPLT), Err(Errno::Io));
    let mut resp = words(&[RNDIS_QUERY_CMPLT, 32, 2, 0, 6, 18]);
    resp.extend_from_slice(&[0, 0]);
    resp.extend_from_slice(&[0x02, 0x11, 0x22, 0x33, 0x44, 0x55]);
    assert_eq!(parse_query_mac(&resp), Ok([0x02, 0x11, 0x22, 0x33, 0x44, 0x55]));
    let short = words(&[RNDIS_QUERY_CMPLT, 24, 2, 0, 6, 16]);
    assert_eq!(parse_query_mac(&short), Err(Errno::Io));
    let small = words(&[RNDIS_QUERY_CMPLT, 24, 2, 0, 5, 0]);
    assert_eq!(parse_query_mac(&small), Err(Errno::Io));
}

#[test]
fn frames_round_trip() {
    let frame = vec![1u8, 2, 3, 4, 5];
    let msg = wrap_tx(&frame);
    assert_eq!(msg.len(), 44 + 5);
    assert_eq!(&msg[..16], &words(&[1, 49, 36, 5])[..]);
    assert!(msg[16..44].iter().all(|b| *b == 0));
    assert_eq!(unwrap_rx(&msg), Some(frame));
    assert_eq!(unwrap_rx(&msg[..20]), None);
    assert_eq!(unwrap_rx(&words(&[2, 16, 0, 0])), None);
    assert_eq!(unwrap_rx(&words(&[1, 16, 8, 0])), None);
}

#[test]
fn packets_are_read_oldest_first() {
    let mut q: VecDeque<Vec<u8>> = VecDeque::new();
    let mut buf = [0u8; 3];
    assert_eq!(read_packet(&mut q, &mut buf), None);
    q.push_back(vec![1, 2, 3, 4]);
    q.push_back(vec![9]);
    assert_eq!(read_packet(&mut q, &mut buf), Some(3));
    assert_eq!(buf, [1, 2, 3]);
    assert_eq!(read_packet(&mut q, &mut buf), Some(1));
    assert_eq!(buf[0], 9);
    assert!(q.is_empty());
}

fn ep(bulk: bool, dir_in: bool) -> EndpointDesc {
    EndpointDesc { bulk, dir_in }
}

#[test]
fn endpoints_of_the_data_interface() {
    let config = ConfigDesc {
        configuration_value: 1,
        interfaces: vec![
            InterfaceDesc { number: 0, alternate_setting: 0, class: 0x02, endpoints: vec![ep(false, true)] },
            InterfaceDesc { number: 1, alternate_setting: 0, class: 0x0A, endpoints: vec![ep(true, true), ep(true, false)] },
        ],
    };
    assert_eq!(
        choose_endpoints(&vec![config.clone()]),
        Some(NetEndpoints { config_value: 1, data_if: 1, alt: 0, ctrl_if: 0, bulk_in: 1, bulk_out: 2 })
    );
    let no_data = ConfigDesc {
        configuration_value: 2,
        interfaces: vec![InterfaceDesc { number: 0, alternate_setting: 0, class: 0x02, endpoints: vec![] }],
    };
    assert_eq!(choose_endpoints(&vec![no_data.clone()]), None);
    assert_eq!(choose_endpoints(&vec![no_data, config]).unwrap().config_value, 1);
}

#[test]
fn decimal_numbers() {
    assert_eq!(parse_decimal_usize(b"0"), Some(0));
    assert_eq!(parse_decimal_usize(b"1234"), Some(1234));
    assert_eq!(parse_decimal_usize(b""), None);
    assert_eq!(parse_decimal_usize(b"12a"), None);
    assert_eq!(parse_decimal_usize(b"99999999999999999999999"), None);
}

#[test]
fn errno_codes_match_the_system() {
    assert_eq!(Errno::NoEnt.code(), syscall::error::ENOENT);
    assert_eq!(Errno::Io.code(), syscall::error::EIO);
    assert_eq!(Errno::NxIo.code(), syscall::error::ENXIO);
    assert_eq!(Errno::BadF.code(), syscall::error::EBADF);
    assert_eq!(Errno::Again.code(), syscall::error::EAGAIN);
    assert_eq!(Errno::Acces.code(), syscall::error::EACCES);
    assert_eq!(Errno::Exist.code(), syscall::error::EEXIST);
    assert_eq!(Errno::NotDir.code(), syscall::error::ENOTDIR);
    assert_eq!(Errno::Inval.code(), syscall::error::EINVAL);
    assert_eq!(Errno::Pipe.code(), syscall::error::EPIPE);
    assert_eq!(Errno::Range.code(), syscall::error::ERANGE);
    assert_eq!(Errno::OpNotSupp.code(), syscall::error::EOPNOTSUPP);
}
