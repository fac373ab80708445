use luna::common::{RuntimeKind, RuntimeSpec, UserId};

#[test]
fn runtime_kind_has_stable_wire_names() {
    assert_eq!(RuntimeKind::Luna.as_str(), "luna");
    assert_eq!(RuntimeKind::Glibc.as_str(), "glibc");
    assert_eq!(RuntimeKind::Bundle.as_str(), "bundle");
}

#[test]
fn runtime_kind_round_trips_from_str() {
    for kind in [RuntimeKind::Luna, RuntimeKind::Glibc, RuntimeKind::Bundle] {
        assert_eq!(RuntimeKind::from_str(kind.as_str()).unwrap(), kind);
    }
    assert!(RuntimeKind::from_str("systemd").is_err());
}

#[test]
fn runtime_spec_defaults_to_native_luna() {
    assert_eq!(RuntimeSpec::default().kind(), RuntimeKind::Luna);
    assert!(RuntimeKind::Luna.is_native());
    assert!(!RuntimeKind::Glibc.is_native());
}

#[test]
fn user_id_round_trips_text() {
    let id = UserId::from_str("alice");
    assert_eq!(id.as_str(), "alice");
    assert_eq!(id.to_string(), "alice");
    assert_eq!(id.into_string(), "alice");
}

#[test]
fn runtime_spec_constructors_select_their_kind() {
    assert_eq!(RuntimeSpec::luna().kind(), RuntimeKind::Luna);
    assert_eq!(RuntimeSpec::glibc().kind(), RuntimeKind::Glibc);
    assert_eq!(RuntimeSpec::bundle().kind(), RuntimeKind::Bundle);
    assert_eq!(RuntimeSpec::new(RuntimeKind::Glibc).kind(), RuntimeKind::Glibc);
}
