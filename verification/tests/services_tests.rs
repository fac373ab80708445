use luna::common::{BundleId, Version};
use luna::services::{ApplicationOperation, ApplicationRef, AudioDirection, AudioEndpoint, BluetoothDevice, NetworkDevice, NetworkState, Volume};

#[test]
fn application_operation_keeps_version_identity() {
    let app = ApplicationRef::new(BundleId::from_str("example.app"), Version::new(2, 0, 0));
    let op = ApplicationOperation::Install(app.clone());
    assert_eq!(op, ApplicationOperation::Install(app));
}

#[test]
fn volume_is_clamped_to_one_hundred() {
    assert_eq!(Volume::new(42).get(), 42);
    assert_eq!(Volume::new(100).get(), 100);
    assert_eq!(Volume::new(250).get(), 100);
}

#[test]
fn endpoints_start_at_full_volume_unmuted() {
    let mut e = AudioEndpoint::new("sink0".into(), "Speakers".into(), AudioDirection::Output);
    assert_eq!(e.volume().get(), 100);
    assert!(!e.muted());
    e.set_volume(Volume::new(30));
    e.set_muted(true);
    assert_eq!(e.volume().get(), 30);
    assert!(e.muted());
    assert_eq!(e.id(), "sink0");
}

#[test]
fn network_device_holds_address_only_while_connected() {
    let mut d = NetworkDevice::new("eth0".into());
    assert_eq!(d.state(), NetworkState::Offline);
    assert_eq!(d.address(), None);
    d.connect("10.0.0.2".into());
    assert_eq!(d.state(), NetworkState::Connected);
    assert_eq!(d.address(), Some("10.0.0.2"));
    d.disconnect();
    assert_eq!(d.address(), None);
    assert_eq!(d.name(), "eth0");
}

#[test]
fn bluetooth_devices_start_disconnected() {
    let mut b = BluetoothDevice::new("AA:BB".into(), Some("Headset".into()));
    assert!(!b.connected());
    b.set_connected(true);
    assert!(b.connected());
    assert_eq!(b.name(), Some("Headset"));
}
