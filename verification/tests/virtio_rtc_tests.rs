use eos_base::rtc::{boot_time, parse_u64_chars, scheme_for_name, time_offset_ns, NullOrZero};
use eos_base::virtio::{
    isr_missing, probe_device, reinit, CfgType, MappedCapability, ProbeError, StatusWrite,
    STATUS_ACKNOWLEDGE, STATUS_DRIVER, VIRTIO_VENDOR_ID,
};

fn cap(cfg_type: u8, address: usize, mult: u32) -> MappedCapability {
    MappedCapability { cfg_type, address, notify_off_multiplier: mult }
}

fn c(s: &str) -> Vec<char> {
    s.chars().collect()
}

#[test]
fn probe_uses_the_last_capability_of_each_kind() {
    let caps = vec![
        cap(1, 0x100, 0),
        cap(2, 0x200, 4),
        cap(4, 0x400, 0),
        cap(5, 0x500, 0),
        cap(1, 0x180, 0),
    ];
    let (d, writes) = probe_device(VIRTIO_VENDOR_ID, &caps).unwrap();
    assert_eq!(
        writes,
        vec![StatusWrite::Reset, StatusWrite::Insert(STATUS_ACKNOWLEDGE), StatusWrite::Insert(STATUS_DRIVER)]
    );
    assert_eq!(d.common, 0x180);
    assert_eq!(d.notify, 0x200);
    assert_eq!(d.notify_multiplier, 4);
    assert_eq!(d.device, 0x400);
    assert_eq!(d.isr, 0);
    let with_isr = vec![cap(1, 1, 0), cap(2, 2, 1), cap(3, 3, 0), cap(4, 4, 0)];
    assert_eq!(probe_device(VIRTIO_VENDOR_ID, &with_isr).unwrap().0.isr, 3);
}

#[test]
fn probe_refuses_missing_structures_in_order() {
    assert_eq!(
        probe_device(VIRTIO_VENDOR_ID, &vec![cap(2, 2, 1), cap(4, 4, 0)]).unwrap_err(),
        ProbeError::InCapable(CfgType::Common)
    );
    assert_eq!(
        probe_device(VIRTIO_VENDOR_ID, &vec![cap(1, 1, 0), cap(2, 2, 1)]).unwrap_err(),
        ProbeError::InCapable(CfgType::Device)
    );
    assert_eq!(
        probe_device(VIRTIO_VENDOR_ID, &vec![cap(1, 1, 0), cap(4, 4, 0)]).unwrap_err(),
        ProbeError::InCapable(CfgType::Notify)
    );
    assert_eq!(probe_device(VIRTIO_VENDOR_ID, &vec![]).unwrap_err(), ProbeError::InCapable(CfgType::Common));
}

#[test]
fn capability_kinds_and_interrupt_warning() {
    assert_eq!(CfgType::from_code(1), Some(CfgType::Common));
    assert_eq!(CfgType::from_code(3), Some(CfgType::Isr));
    assert_eq!(CfgType::from_code(5), None);
    assert!(isr_missing(true, 0));
    assert!(!isr_missing(true, 0x10));
    assert!(!isr_missing(false, 0));
    assert_eq!(VIRTIO_VENDOR_ID, 0x1AF4);
}

#[test]
fn boot_time_from_the_kernel_environment() {
    assert_eq!(boot_time(&c("A=1\nBOOT_TIME=1700000000\n")), Some(1_700_000_000));
    assert_eq!(boot_time(&c("BOOT_TIME= 42 \r\nBOOT_TIME=7")), Some(42));
    assert_eq!(boot_time(&c("BOOT_TIME=x\nBOOT_TIME=+9")), Some(9));
    assert_eq!(boot_time(&c("BOOT_TIME=18446744073709551616")), None);
    assert_eq!(boot_time(&c("XBOOT_TIME=5")), None);
    assert_eq!(boot_time(&c("")), None);
}

#[test]
fn numbers_parse_like_the_standard_library() {
    for s in ["0", "+12", "18446744073709551615", "", "+", "-1", "1 2", "007"] {
        assert_eq!(parse_u64_chars(&c(s)), s.parse::<u64>().ok(), "{s:?}");
    }
}

#[test]
fn clock_offset_in_nanoseconds() {
    assert_eq!(time_offset_ns(0), 0);
    assert_eq!(time_offset_ns(3), 3_000_000_000);
    assert_eq!(time_offset_ns(u64::MAX), u64::MAX as u128 * 1_000_000_000);
}

#[test]
fn null_or_zero_by_name() {
    assert_eq!(scheme_for_name(&c("nulld")), Some(NullOrZero::Null));
    assert_eq!(scheme_for_name(&c("zerod")), Some(NullOrZero::Zero));
    assert_eq!(scheme_for_name(&c("oned")), None);
}

#[test]
fn reinit_acknowledges_then_claims_the_device() {
    assert_eq!(reinit(), vec![StatusWrite::Insert(1), StatusWrite::Insert(2)]);
}
