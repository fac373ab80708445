use luna::graphics::{crtc_for_encoder, drm_io, drm_iowr, fill_xrgb, DrmConnector, DrmDevice, DrmMode, DrmProbe, DrmResources, MappedDumbBuffer};
use luna::session::{bit_is_set, card_entry, classify_capabilities, GraphicsDevice, InputDeviceKind, InputEvent, SeatController, UserCredentials};

#[test]
fn decodes_evdev_event() {
    let mut bytes = [0u8; 24];
    bytes[16..18].copy_from_slice(&InputEvent::KEY.to_ne_bytes());
    bytes[18..20].copy_from_slice(&30u16.to_ne_bytes());
    bytes[20..24].copy_from_slice(&1i32.to_ne_bytes());
    let event = InputEvent::decode(&bytes).expect("decode");
    assert_eq!(event.event_type, InputEvent::KEY);
    assert_eq!(event.code, 30);
    assert_eq!(event.value, 1);
}

#[test]
fn evdev_decode_handles_negative_values_and_rejects_short_records() {
    let mut bytes = [0u8; 24];
    bytes[0..8].copy_from_slice(&(-5i64).to_le_bytes());
    bytes[20..24].copy_from_slice(&(-1i32).to_le_bytes());
    let event = InputEvent::decode(&bytes).unwrap();
    assert_eq!(event.sec, -5);
    assert_eq!(event.value, -1);
    assert!(InputEvent::decode(&bytes[..23]).is_none());
}

#[test]
fn default_seat_name_is_stable() {
    let seat = SeatController::with_devices(Vec::new(), Vec::new());
    assert_eq!(seat.resources().name, "seat0");
}

#[test]
fn seat_orders_graphics_devices_by_node() {
    let card = |n: &str| GraphicsDevice { node: n.to_owned(), sysfs_path: None };
    let seat = SeatController::with_devices(Vec::new(), vec![card("/dev/dri/card1"), card("/dev/dri/card0")]);
    let nodes: Vec<&str> = seat.graphics_devices().iter().map(|g| g.node.as_str()).collect();
    assert_eq!(nodes, vec!["/dev/dri/card0", "/dev/dri/card1"]);
    assert!(card_entry("card0"));
    assert!(!card_entry("card0-HDMI-A-1"));
    assert!(!card_entry("renderD128"));
}

#[test]
fn capability_bits_classify_devices() {
    let key_a = [1u64 << 30];
    assert!(bit_is_set(&key_a, 30));
    assert!(!bit_is_set(&key_a, 94));
    assert_eq!(classify_capabilities(&key_a, &[], &[]), InputDeviceKind::Keyboard);
    assert_eq!(classify_capabilities(&key_a, &[0b11], &[]), InputDeviceKind::Pointer);
    assert_eq!(classify_capabilities(&[], &[], &[0, 4]), InputDeviceKind::Pointer);
    assert_eq!(classify_capabilities(&[], &[], &[]), InputDeviceKind::Other);
    let mouse_button = [1u64 << 16, 0, 0, 0, 0];
    assert!(bit_is_set(&mouse_button, 272));
}

#[test]
fn credentials_keep_identity() {
    let c = UserCredentials::new(1000, 100, "alice".into());
    assert_eq!((c.uid, c.gid, c.username.as_str()), (1000, 100, "alice"));
}

#[test]
fn device_node_is_preserved() {
    let device = DrmDevice::new("/dev/dri/card0".to_owned());
    assert_eq!(device.node(), "/dev/dri/card0");
}

fn mode(name: &str, preferred: bool) -> DrmMode {
    DrmMode { name: name.into(), width: 1920, height: 1080, refresh_hz: 60, preferred }
}

fn resources() -> DrmResources {
    DrmResources {
        framebuffer_count: 0, crtc_count: 1, connector_count: 2, encoder_count: 1,
        min_width: 0, max_width: 4096, min_height: 0, max_height: 4096,
        connector_ids: vec![1, 2], crtc_ids: vec![7], encoder_ids: vec![3], framebuffer_ids: vec![],
    }
}

#[test]
fn display_target_takes_first_connected_preferred_mode() {
    let probe = DrmProbe {
        dumb_buffer: true,
        resources: resources(),
        connectors: vec![
            DrmConnector { id: 1, connected: false, encoder_id: 3, encoders: vec![3], modes: vec![mode("a", true)] },
            DrmConnector { id: 2, connected: true, encoder_id: 0, encoders: vec![3], modes: vec![mode("b", false), mode("c", true)] },
        ],
    };
    let target = probe.display_target().expect("target");
    assert_eq!(target.connector_id, 2);
    assert_eq!(target.crtc_id, 0);
    assert_eq!(target.mode.name, "c");
    let no_encoder = DrmProbe {
        dumb_buffer: true,
        resources: resources(),
        connectors: vec![DrmConnector { id: 5, connected: true, encoder_id: 0, encoders: vec![], modes: vec![mode("x", false)] }],
    };
    assert!(no_encoder.display_target().is_none());
}

#[test]
fn crtc_choice_follows_encoder_then_mask() {
    assert_eq!(crtc_for_encoder(9, 0, &[1, 2]), 9);
    assert_eq!(crtc_for_encoder(0, 0b10, &[11, 12, 13]), 12);
    assert_eq!(crtc_for_encoder(0, 0b1000, &[11, 12, 13]), 0);
}

#[test]
fn fill_covers_whole_pixels_of_whole_rows() {
    let mut buffer = vec![0u8; 2 * 10 + 3];
    fill_xrgb(&mut buffer, 10, 0x11223344);
    assert_eq!(&buffer[0..4], &[0x44, 0x33, 0x22, 0x11]);
    assert_eq!(&buffer[4..8], &[0x44, 0x33, 0x22, 0x11]);
    assert_eq!(&buffer[8..10], &[0, 0]);
    assert_eq!(&buffer[10..14], &[0x44, 0x33, 0x22, 0x11]);
    assert_eq!(&buffer[20..23], &[0, 0, 0]);
}

#[test]
fn mapped_buffer_fill_paints_whole_pixels_of_whole_rows() {
    let mut buffer = MappedDumbBuffer::new(vec![9u8; 13], 6);
    buffer.fill_xrgb(0x0011_2233);
    assert_eq!(buffer.pitch(), 6);
    assert_eq!(buffer.bytes(), &[0x33, 0x22, 0x11, 0x00, 9, 9, 0x33, 0x22, 0x11, 0x00, 9, 9, 9]);
}

#[test]
fn drm_request_numbers_follow_the_linux_layout() {
    assert_eq!(drm_iowr(0x0c, 16), 0xc010640c);
    assert_eq!(drm_iowr(0xA0, 64), 0xc04064a0);
    assert_eq!(drm_iowr(0xA6, 20), 0xc01464a6);
    assert_eq!(drm_iowr(0xA7, 80), 0xc05064a7);
    assert_eq!(drm_io(0x1e), 0x641e);
    assert_eq!(drm_io(0x1f), 0x641f);
}
