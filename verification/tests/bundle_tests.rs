use luna::bundle::{validate_manifest, BundleError, BundleKind, BundleManifest, BundleMetadata, BundleResource};
use luna::common::{BundleId, Version};

fn manifest() -> BundleManifest {
    BundleManifest::new(BundleMetadata::new(BundleId::from_str("example.app"), Version::new(1, 0, 0), BundleKind::Application))
}

#[test]
fn manifest_validates_unique_resources() {
    let mut manifest = manifest();
    manifest.add_resource(BundleResource::new("/bin/app".into(), "resources/bin/app".into()));
    assert!(validate_manifest(&manifest).is_ok());
}

#[test]
fn manifest_rejects_duplicate_logical_resources() {
    let mut manifest = manifest();
    manifest.add_resource(BundleResource::new("/bin/app".into(), "one".into()));
    manifest.add_resource(BundleResource::new("/bin/app".into(), "two".into()));
    assert!(matches!(validate_manifest(&manifest), Err(BundleError::DuplicateResource(_))));
}

#[test]
fn manifest_rejects_path_traversal() {
    let mut manifest = manifest();
    manifest.add_resource(BundleResource::new("/bin/../secret".into(), "secret".into()));
    assert!(matches!(validate_manifest(&manifest), Err(BundleError::InvalidLogicalPath(_))));
}

#[test]
fn manifest_reports_each_error_kind() {
    let empty = BundleManifest::new(BundleMetadata::new(BundleId::from_str("  "), Version::new(1, 0, 0), BundleKind::Component));
    assert_eq!(validate_manifest(&empty), Err(BundleError::EmptyIdentifier));
    let mut m = manifest();
    m.add_resource(BundleResource::new(" ".into(), "x".into()));
    assert_eq!(validate_manifest(&m), Err(BundleError::EmptyResourcePath));
    let mut m = manifest();
    m.add_resource(BundleResource::new("/bin/".into(), "x".into()));
    assert_eq!(validate_manifest(&m), Err(BundleError::InvalidLogicalPath("/bin/".into())));
    let mut m = manifest();
    m.add_resource(BundleResource::new("/bin/x".into(), "/abs".into()));
    assert_eq!(validate_manifest(&m), Err(BundleError::InvalidSourcePath("/abs".into())));
}
