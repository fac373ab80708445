use luna::device::{
    device_status_report, parse_message, DeviceId, DeviceManager, InputDeviceInfo,
    UdevQuery, UeventError, VolumeId, VolumeInfo, VolumeState,
};
use luna::text::{push_decimal, push_hex, push_signed_decimal};

#[test]
fn volume_identity_and_user_label_are_separate() {
    let volume = VolumeInfo::new(
        VolumeId::new("volume-1".to_owned()),
        Some("fleshka".to_owned()),
        VolumeState::Mounted,
    );
    assert_eq!(volume.id().as_str(), "volume-1");
    assert_eq!(volume.label(), Some("fleshka"));
}

#[test]
fn device_manager_starts_with_empty_registry() {
    let manager = DeviceManager::new();
    assert!(manager.input_devices().is_empty());
}

#[test]
fn input_device_identity_keeps_kernel_node_separate() {
    let id = DeviceId::new("input:event3".to_owned());
    let info = InputDeviceInfo::new(
        id,
        "/dev/input/event3".into(),
        "/sys/class/input/event3".into(),
        Some("keyboard".into()),
    );
    assert_eq!(info.id().as_str(), "input:event3");
    assert_eq!(info.node(), "/dev/input/event3");
    assert_eq!(info.name(), Some("keyboard"));
}

#[test]
fn parses_kernel_uevent() {
    let message = b"add@/devices/virtual/input/event0\0ACTION=add\0SUBSYSTEM=input\0DEVNAME=input/event0\0\0";
    let event = parse_message(message).expect("parse");
    assert_eq!(event.action, "add");
    assert_eq!(event.devpath, "/devices/virtual/input/event0");
    assert_eq!(event.subsystem(), Some("input"));
    assert_eq!(event.devname(), Some("input/event0"));
}

#[test]
fn uevent_errors_are_reported() {
    assert_eq!(parse_message(b"\0\0"), Err(UeventError::HeaderMissing));
    assert_eq!(parse_message(b"no-separator\0A=b"), Err(UeventError::HeaderMalformed));
    assert_eq!(parse_message(b"\xff\xfe@x\0"), Err(UeventError::HeaderNotUtf8));
    assert_eq!(parse_message(b"add@/x\0KEY=\xff"), Err(UeventError::PropertyNotUtf8));
}

#[test]
fn uevent_fields_without_equals_are_skipped_and_first_property_wins() {
    let event = parse_message(b"change@/a\0NOEQ\0K=1\0K=2").expect("parse");
    assert_eq!(event.properties.len(), 2);
    assert_eq!(event.property("K"), Some("1"));
    assert_eq!(event.property("NOEQ"), None);
}

#[test]
fn sysfs_entries_become_input_devices() {
    let info = InputDeviceInfo::from_sysfs_entry("event7", "/sys/class/input/event7".into(), Some("  Mouse \n".into()))
        .expect("event entry");
    assert_eq!(info.id().as_str(), "input:event7");
    assert_eq!(info.node(), "/dev/input/event7");
    assert_eq!(info.name(), Some("Mouse"));
    let blank = InputDeviceInfo::from_sysfs_entry("event1", "/s".into(), Some("   ".into())).unwrap();
    assert_eq!(blank.name(), None);
    assert!(InputDeviceInfo::from_sysfs_entry("mouse0", "/s".into(), None).is_none());
}

#[test]
fn registry_is_ordered_by_node() {
    let mut manager = DeviceManager::new();
    let make = |n: &str| InputDeviceInfo::new(DeviceId::new(format!("input:{n}")), format!("/dev/input/{n}"), String::new(), None);
    manager.set_input_devices(vec![make("event2"), make("event10"), make("event1")]);
    let nodes: Vec<&str> = manager.input_devices().iter().map(|d| d.node()).collect();
    assert_eq!(nodes, vec!["/dev/input/event1", "/dev/input/event10", "/dev/input/event2"]);
}

#[test]
fn status_report_lists_devices_and_kept_udev_properties() {
    let device = InputDeviceInfo::from_sysfs_entry(
        "event3",
        "/sys/class/input/event3".to_string(),
        Some("  AT Keyboard \n".to_string()),
    )
    .unwrap();
    let query = UdevQuery {
        exit_code: Some(0),
        output: "DEVNAME=/dev/input/event3\r\nFOO=1\nID_INPUT_KEYBOARD=1\nXTAGS=no\nTAGS=:seat:\n".to_string(),
    };
    let report = device_status_report(&[device.clone()], Some(&[query]), 12);
    assert_eq!(
        report,
        "input_devices=1\ninput=/dev/input/event3\nname=AT Keyboard\nudev_info_status=0\n\
         DEVNAME=/dev/input/event3\nID_INPUT_KEYBOARD=1\nTAGS=:seat:\n\
         udev_compat_backend=1\nnative_uevent_monitor=1\nudev_db_entries=12\n"
    );
    let native = device_status_report(&[device.clone()], None, 0);
    assert_eq!(
        native,
        "input_devices=1\ninput=/dev/input/event3\nname=AT Keyboard\nudev_info_status=unavailable\n\
         udev_compat_backend=0\nnative_uevent_monitor=1\nudev_db_entries=0\n"
    );
    let signalled = UdevQuery { exit_code: None, output: String::new() };
    let report = device_status_report(&[device], Some(&[signalled]), 1234567890);
    assert!(report.contains("udev_info_status=-1\n"));
    assert!(report.ends_with("udev_db_entries=1234567890\n"));
    assert_eq!(device_status_report(&[], None, 7), "input_devices=0\nudev_compat_backend=0\nnative_uevent_monitor=1\nudev_db_entries=7\n");
}

#[test]
fn decimal_rendering_matches_integers() {
    for value in [0u64, 7, 10, 99, 1234567890, u64::MAX] {
        let mut out = String::from("n=");
        push_decimal(&mut out, value);
        assert_eq!(out, format!("n={value}"));
    }
    for value in [0u64, 9, 10, 0xabc, u64::MAX] {
        let mut out = String::new();
        push_hex(&mut out, value);
        assert_eq!(out, format!("{value:x}"));
    }
    for code in [0i32, -1, 255, i32::MIN, i32::MAX] {
        let mut out = String::new();
        push_signed_decimal(&mut out, code);
        assert_eq!(out, code.to_string());
    }
}
