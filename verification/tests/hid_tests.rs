use eos_base::hid::{
    gamepad_mouse_step, usage_scancode, HidClassType, HidDescriptor, HidError, HidEvent,
    HidInputState, HidOutput, USAGE_PAGE_BUTTON, USAGE_PAGE_GENERIC_DESKTOP, USAGE_PAGE_KEYBOARD,
};

#[test]
fn hid_descriptor_with_a_report() {
    let d = HidDescriptor::from_bytes(&[9, 0x21, 0x11, 0x01, 0, 1, 0x22, 0x3F, 0x00]).unwrap();
    assert_eq!(d.length, 9);
    assert_eq!(d.hid_spec_release, 0x0111);
    assert_eq!(d.num_descriptors, 1);
    let r = d.get_report_desc().unwrap();
    assert_eq!(r.desc_type, HidClassType::Report);
    assert_eq!(r.desc_len, 63);
}

#[test]
fn hid_descriptor_errors() {
    assert_eq!(HidDescriptor::from_bytes(&[5, 0x21, 0, 0, 0, 0]).err(), Some(HidError::InvalidLength));
    assert_eq!(HidDescriptor::from_bytes(&[9, 0x22, 0, 0, 0, 1, 0x22, 0, 0]).err(), Some(HidError::NotHid));
    assert_eq!(
        HidDescriptor::from_bytes(&[9, 0x21, 0, 0, 0, 2, 0x22, 0, 0]).err(),
        Some(HidError::LengthMismatch(2))
    );
    assert_eq!(
        HidDescriptor::from_bytes(&[9, 0x21, 0, 0, 0, 1, 0x30, 0, 0]).err(),
        Some(HidError::UnknownClassType(0x30))
    );
    let d = HidDescriptor::from_bytes(&[9, 0x21, 0, 0, 0, 1, 0x23, 4, 0]).unwrap();
    assert_eq!(d.get_report_desc().err(), Some(HidError::NoReportDescriptor));
    assert_eq!(HidClassType::from_code(0x21), Some(HidClassType::HID));
    assert_eq!(HidClassType::from_code(0x24), None);
}

#[test]
fn keyboard_usages_map_to_orbital_scancodes() {
    assert_eq!(usage_scancode(7, 0x04), Some(orbclient::K_A));
    assert_eq!(usage_scancode(7, 0x28), Some(orbclient::K_ENTER));
    assert_eq!(usage_scancode(7, 0xE1), Some(orbclient::K_LEFT_SHIFT));
    assert_eq!(usage_scancode(7, 0x01), None);
    assert_eq!(usage_scancode(1, 0x04), None);
}

#[test]
fn stick_motion_has_a_dead_zone() {
    assert_eq!(gamepad_mouse_step(0), 0);
    assert_eq!(gamepad_mouse_step(8096), 0);
    assert_eq!(gamepad_mouse_step(8096 + 4096), 1);
    assert_eq!(gamepad_mouse_step(-8096 - 4095), 0);
    assert_eq!(gamepad_mouse_step(-8096 - 8192), -2);
    assert_eq!(gamepad_mouse_step(32767), 6);
}

#[test]
fn key_and_mouse_events() {
    let mut st = HidInputState::new();
    let mut frame = st.start_frame();
    let key = st.handle_event(
        &mut frame,
        HidEvent { usage_page: USAGE_PAGE_KEYBOARD, usage: 0xE1, value: 1, relative: false, gamepad: false },
    );
    assert_eq!(key, Some(HidOutput::Key { scancode: orbclient::K_LEFT_SHIFT, pressed: true }));
    assert!(st.left_shift);
    let before = frame;
    let none = st.handle_event(
        &mut frame,
        HidEvent { usage_page: USAGE_PAGE_GENERIC_DESKTOP, usage: 0x30, value: 5, relative: true, gamepad: false },
    );
    assert_eq!(none, None);
    assert_eq!(frame.mouse_dx, before.mouse_dx + 5);
    let pad = st.handle_event(
        &mut frame,
        HidEvent { usage_page: USAGE_PAGE_GENERIC_DESKTOP, usage: 0x30, value: 9000, relative: false, gamepad: true },
    );
    assert_eq!(pad, None);
    assert_eq!(st.gamepad.len(), 1);
}

fn pad(usage_page: u16, usage: u16, value: i64) -> HidEvent {
    HidEvent { usage_page, usage, value, relative: false, gamepad: true }
}

#[test]
fn gamepad_round_sends_key_changes_and_moves_the_mouse() {
    let mut st = HidInputState::new();
    let mut frame = st.start_frame();
    st.handle_event(&mut frame, pad(USAGE_PAGE_GENERIC_DESKTOP, 0x30, -20000));
    st.handle_event(&mut frame, pad(USAGE_PAGE_BUTTON, 7, 1));
    st.handle_event(&mut frame, pad(USAGE_PAGE_GENERIC_DESKTOP, 0x33, 8096 + 3 * 4096));
    st.handle_event(&mut frame, pad(USAGE_PAGE_GENERIC_DESKTOP, 0x34, -8096 - 2 * 4096 - 100));
    let keys = st.gamepad_round(&mut frame);
    assert_eq!(
        keys,
        vec![
            HidOutput::Key { scancode: 0x1E, pressed: true },
            HidOutput::Key { scancode: 0x39, pressed: true },
        ]
    );
    assert_eq!((frame.mouse_dx, frame.mouse_dy), (3, 2));
    assert!(st.gamepad.iter().all(|c| c.last == c.value));

    let mut next = st.start_frame();
    assert!(st.gamepad_round(&mut next).is_empty());
    assert_eq!((next.mouse_dx, next.mouse_dy), (3, 2));
    st.handle_event(&mut next, pad(USAGE_PAGE_BUTTON, 7, 0));
    let mut third = st.start_frame();
    assert_eq!(st.gamepad_round(&mut third), vec![HidOutput::Key { scancode: 0x39, pressed: false }]);
}

#[test]
fn finish_frame_reports_what_changed() {
    let mut st = HidInputState::new();
    let mut frame = st.start_frame();
    assert!(st.finish_frame(&frame).is_empty());
    frame.mouse_dx = 3;
    frame.mouse_dy = -2;
    frame.scroll_y = 1;
    frame.left = true;
    assert_eq!(
        st.finish_frame(&frame),
        vec![
            HidOutput::MouseRelative { dx: 3, dy: -2 },
            HidOutput::Scroll { y: 1 },
            HidOutput::Buttons { left: true, right: false, middle: false },
        ]
    );
    let mut frame = st.start_frame();
    assert!(frame.left);
    st.handle_event(
        &mut frame,
        HidEvent { usage_page: USAGE_PAGE_GENERIC_DESKTOP, usage: 0x30, value: 100, relative: false, gamepad: false },
    );
    frame.mouse_dx = 200;
    assert_eq!(st.finish_frame(&frame), vec![HidOutput::MouseAbsolute { x: 200, y: 0 }]);
    assert_eq!(st.last_mouse_pos, (100, 0));
}

#[test]
fn every_keyboard_usage_has_its_orbital_scancode() {
    let table: [(u16, u8); 104] = [
        (0x04, orbclient::K_A),
        (0x05, orbclient::K_B),
        (0x06, orbclient::K_C),
        (0x07, orbclient::K_D),
        (0x08, orbclient::K_E),
        (0x09, orbclient::K_F),
        (0x0A, orbclient::K_G),
        (0x0B, orbclient::K_H),
        (0x0C, orbclient::K_I),
        (0x0D, orbclient::K_J),
        (0x0E, orbclient::K_K),
        (0x0F, orbclient::K_L),
        (0x10, orbclient::K_M),
        (0x11, orbclient::K_N),
        (0x12, orbclient::K_O),
        (0x13, orbclient::K_P),
        (0x14, orbclient::K_Q),
        (0x15, orbclient::K_R),
        (0x16, orbclient::K_S),
        (0x17, orbclient::K_T),
        (0x18, orbclient::K_U),
        (0x19, orbclient::K_V),
        (0x1A, orbclient::K_W),
        (0x1B, orbclient::K_X),
        (0x1C, orbclient::K_Y),
        (0x1D, orbclient::K_Z),
        (0x1E, orbclient::K_1),
        (0x1F, orbclient::K_2),
        (0x20, orbclient::K_3),
        (0x21, orbclient::K_4),
        (0x22, orbclient::K_5),
        (0x23, orbclient::K_6),
        (0x24, orbclient::K_7),
        (0x25, orbclient::K_8),
        (0x26, orbclient::K_9),
        (0x27, orbclient::K_0),
        (0x28, orbclient::K_ENTER),
        (0x29, orbclient::K_ESC),
        (0x2A, orbclient::K_BKSP),
        (0x2B, orbclient::K_TAB),
        (0x2C, orbclient::K_SPACE),
        (0x2D, orbclient::K_MINUS),
        (0x2E, orbclient::K_EQUALS),
        (0x2F, orbclient::K_BRACE_OPEN),
        (0x30, orbclient::K_BRACE_CLOSE),
        (0x31, orbclient::K_BACKSLASH),
        (0x32, 0x56),
        (0x33, orbclient::K_SEMICOLON),
        (0x34, orbclient::K_QUOTE),
        (0x35, orbclient::K_TICK),
        (0x36, orbclient::K_COMMA),
        (0x37, orbclient::K_PERIOD),
        (0x38, orbclient::K_SLASH),
        (0x39, orbclient::K_CAPS),
        (0x3A, orbclient::K_F1),
        (0x3B, orbclient::K_F2),
        (0x3C, orbclient::K_F3),
        (0x3D, orbclient::K_F4),
        (0x3E, orbclient::K_F5),
        (0x3F, orbclient::K_F6),
        (0x40, orbclient::K_F7),
        (0x41, orbclient::K_F8),
        (0x42, orbclient::K_F9),
        (0x43, orbclient::K_F10),
        (0x44, orbclient::K_F11),
        (0x45, orbclient::K_F12),
        (0x46, orbclient::K_PRTSC),
        (0x47, orbclient::K_SCROLL),
        (0x49, orbclient::K_INS),
        (0x4A, orbclient::K_HOME),
        (0x4B, orbclient::K_PGUP),
        (0x4C, orbclient::K_DEL),
        (0x4D, orbclient::K_END),
        (0x4E, orbclient::K_PGDN),
        (0x4F, orbclient::K_RIGHT),
        (0x50, orbclient::K_LEFT),
        (0x51, orbclient::K_DOWN),
        (0x52, orbclient::K_UP),
        (0x53, orbclient::K_NUM),
        (0x54, orbclient::K_NUM_SLASH),
        (0x55, orbclient::K_NUM_ASTERISK),
        (0x56, orbclient::K_NUM_MINUS),
        (0x57, orbclient::K_NUM_PLUS),
        (0x58, orbclient::K_NUM_ENTER),
        (0x59, orbclient::K_NUM_1),
        (0x5A, orbclient::K_NUM_2),
        (0x5B, orbclient::K_NUM_3),
        (0x5C, orbclient::K_NUM_4),
        (0x5D, orbclient::K_NUM_5),
        (0x5E, orbclient::K_NUM_6),
        (0x5F, orbclient::K_NUM_7),
        (0x60, orbclient::K_NUM_8),
        (0x61, orbclient::K_NUM_9),
        (0x62, orbclient::K_NUM_0),
        (0x64, orbclient::K_APP),
        (0x66, orbclient::K_POWER),
        (0xE0, orbclient::K_LEFT_CTRL),
        (0xE1, orbclient::K_LEFT_SHIFT),
        (0xE2, orbclient::K_ALT),
        (0xE3, orbclient::K_LEFT_SUPER),
        (0xE4, orbclient::K_RIGHT_CTRL),
        (0xE5, orbclient::K_RIGHT_SHIFT),
        (0xE6, orbclient::K_ALT_GR),
        (0xE7, orbclient::K_RIGHT_SUPER),
    ];
    for (usage, scancode) in table {
        assert_eq!(usage_scancode(USAGE_PAGE_KEYBOARD, usage), Some(scancode), "usage {usage:#x}");
    }
    for usage in 0u16..=0xFF {
        if !table.iter().any(|(u, _)| *u == usage) {
            assert_eq!(usage_scancode(USAGE_PAGE_KEYBOARD, usage), None, "usage {usage:#x}");
        }
    }
}
