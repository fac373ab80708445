use luna::lbp::{assemble_container, decode_container, validate_payload, LbpArchive, LbpError, HEADER_SIZE, SECTION_ENTRY_SIZE};
use luna::manifest::{
    parse_version, validate_dependency_constraint, BundleManifestInfo, Capabilities, Dependency, EntryPoint, LbpManifest,
    MappingDeclaration, Metadata, PlatformInfo,
};

fn manifest_with_mapping(source: &str, logical: &str) -> LbpManifest {
    LbpManifest {
        format: 1,
        bundle: BundleManifestInfo {
            id: "org.example.integration".into(),
            name: "Integration App".into(),
            version: "1.0.0".into(),
            kind: "application".into(),
        },
        platform: PlatformInfo { arch: "x86_64".into(), min_system: None },
        entry: Some(EntryPoint { executable: "bin/app".into(), logical: Some("/usr/bin/app".into()) }),
        dependencies: Vec::new(),
        capabilities: Capabilities::default(),
        mappings: vec![MappingDeclaration {
            logical: logical.into(),
            source: source.into(),
            access: vec!["read".into()],
        }],
        metadata: Metadata::default(),
    }
}

fn sample_manifest() -> LbpManifest {
    LbpManifest {
        format: 1,
        bundle: BundleManifestInfo {
            id: "org.example.app".into(),
            name: "Example App".into(),
            version: "1.2.3".into(),
            kind: "application".into(),
        },
        platform: PlatformInfo { arch: "x86_64".into(), min_system: Some("1.0.0".into()) },
        entry: Some(EntryPoint { executable: "bin/app".into(), logical: Some("/usr/bin/app".into()) }),
        dependencies: vec![],
        capabilities: Capabilities { requested: vec!["network".into()] },
        mappings: vec![],
        metadata: Metadata { author: Some("Luna".into()), license: Some("Apache-2.0".into()), homepage: None },
    }
}

#[test]
fn rejects_manifest_traversal() {
    let mut m = sample_manifest();
    m.entry = Some(EntryPoint { executable: "../app".into(), logical: Some("/usr/bin/app".into()) });
    assert!(m.validate().is_err());
}

#[test]
fn rejects_unknown_format_version() {
    let mut m = sample_manifest();
    m.format = 2;
    assert!(matches!(m.validate(), Err(LbpError::UnsupportedVersion(2))));
}

#[test]
fn rejects_absolute_and_traversal_sources() {
    let absolute = manifest_with_mapping("/etc/passwd", "/usr/bin/passwd");
    assert!(absolute.validate().is_err());

    let traversal = manifest_with_mapping("resources/../secret", "/usr/bin/secret");
    assert!(traversal.validate().is_err());
}

#[test]
fn rejects_duplicate_mapping_logical_paths() {
    let mut manifest = manifest_with_mapping("bin/app", "/usr/bin/app");
    manifest.mappings.push(MappingDeclaration {
        logical: "/usr/bin/app".into(),
        source: "bin/other".into(),
        access: vec!["execute".into()],
    });

    assert!(matches!(
        manifest.validate(),
        Err(LbpError::ManifestFormat(message)) if message.contains("duplicate mapping")
    ));
}

#[test]
fn unsupported_architecture_is_rejected() {
    let mut m = sample_manifest();
    m.platform.arch = "aarch64".into();
    assert!(matches!(
        m.validate(),
        Err(LbpError::ManifestFormat(message)) if message.contains("platform.arch")
    ));
}

#[test]
fn unsupported_dependency_syntax_is_rejected() {
    let mut m = sample_manifest();
    m.dependencies.push(Dependency { id: "org.example.lib".into(), version: "latest".into() });
    assert!(matches!(m.validate(), Err(LbpError::ManifestFormat(_))));
    m.dependencies[0].version = ">=1.2.0".into();
    assert!(m.validate().is_ok());
}

#[test]
fn valid_manifests_pass_and_dependency_constraints_parse() {
    assert!(sample_manifest().validate().is_ok());
    assert!(manifest_with_mapping("@dep:org.example.lib", "/usr/lib/x").validate().is_ok());
    assert!(manifest_with_mapping("@dep:", "/usr/lib/x").validate().is_err());
    assert!(manifest_with_mapping("bin/app", "/usr/lib/x/").validate().is_err());
    assert!(manifest_with_mapping("bin/app", "/usr/../x").validate().is_err());
    assert_eq!(parse_version("1.2.3"), Some((1, 2, 3)));
    assert_eq!(parse_version("+1.02.3"), Some((1, 2, 3)));
    assert_eq!(parse_version("1.2"), None);
    assert_eq!(parse_version("1.2.3.4"), None);
    assert_eq!(parse_version("4294967296.0.0"), None);
    assert!(validate_dependency_constraint(" ^1.0.0 ").is_ok());
    assert!(validate_dependency_constraint("~2.3.4").is_ok());
    assert!(validate_dependency_constraint("<=0.0.1").is_ok());
    assert!(validate_dependency_constraint("1.x").is_err());
    let mut component = sample_manifest();
    component.bundle.kind = "component".into();
    component.entry = None;
    assert!(component.validate().is_ok());
    let mut app = sample_manifest();
    app.entry = None;
    assert!(app.validate().is_err());
    let mut blank = sample_manifest();
    blank.capabilities.requested.push("  ".into());
    assert!(blank.validate().is_err());
}

fn payload(entries: &[(&str, &[u8])]) -> Vec<u8> {
    let mut builder = tar::Builder::new(Vec::new());
    for (path, data) in entries {
        let mut header = tar::Header::new_gnu();
        let raw = path.as_bytes();
        header.as_old_mut().name[..raw.len()].copy_from_slice(raw);
        header.set_size(data.len() as u64);
        header.set_mode(0o644);
        header.set_cksum();
        builder.append(&header, *data).unwrap();
    }
    builder.into_inner().unwrap()
}

#[test]
fn roundtrip_preserves_manifest_and_payload() {
    let manifest_text = b"format = 1\n".to_vec();
    let tar = payload(&[("bin/app", b"application")]);
    let image = assemble_container(&manifest_text, &tar).expect("assemble");
    assert_eq!(&image[0..4], b"LBP1");
    assert_eq!(u16::from_le_bytes([image[4], image[5]]), 1);
    let decoded = decode_container(&image).expect("decode");
    assert_eq!(decoded.manifest, manifest_text);
    assert_eq!(decoded.payload, tar);
    let archive = LbpArchive::from_bytes(image.clone(), sample_manifest()).expect("archive");
    assert_eq!(archive.payload_bytes().unwrap(), tar);
    assert_eq!(archive.manifest_bytes().unwrap(), manifest_text);
    assert_eq!(archive.signature_bytes().unwrap(), None);
    let identity = archive.content_identity("format = 1\n").unwrap();
    let mut joined = manifest_text.clone();
    joined.extend_from_slice(&tar);
    assert_eq!(identity, *blake3::hash(&joined).as_bytes());
}

#[test]
fn header_is_exactly_64_bytes_and_uses_little_endian_fields() {
    let image = assemble_container(b"m", &payload(&[("bin/app", b"x")])).unwrap();
    assert_eq!(HEADER_SIZE, 64);
    assert_eq!(u32::from_le_bytes(image[8..12].try_into().unwrap()), 2);
    assert_eq!(u64::from_le_bytes(image[12..20].try_into().unwrap()), 64);
    assert_eq!(u64::from_le_bytes(image[20..28].try_into().unwrap()), 128);
    assert_eq!(u32::from_le_bytes(image[28..32].try_into().unwrap()), 64);
    let mut normalized = [0u8; 64];
    normalized.copy_from_slice(&image[..64]);
    normalized[32..64].fill(0);
    assert_eq!(&image[32..64], blake3::hash(&normalized).as_bytes());
}

#[test]
fn corrupt_header_hash_is_rejected() {
    let mut image = assemble_container(b"m", &payload(&[("bin/app", b"x")])).unwrap();
    image[40] ^= 1;
    assert!(matches!(decode_container(&image), Err(LbpError::HashMismatch)));
    image[0] = b'X';
    assert!(matches!(decode_container(&image), Err(LbpError::InvalidHeader)));
}

#[test]
fn rejects_overlapping_sections() {
    let mut bytes = assemble_container(b"manifest", &payload(&[("bin/app", b"x")])).unwrap();
    let first = HEADER_SIZE;
    let second = HEADER_SIZE + SECTION_ENTRY_SIZE;
    let first_offset = u64::from_le_bytes(bytes[first + 8..first + 16].try_into().unwrap());
    bytes[second + 8..second + 16].copy_from_slice(&first_offset.to_le_bytes());
    let mut normalized = [0u8; HEADER_SIZE];
    normalized.copy_from_slice(&bytes[..HEADER_SIZE]);
    normalized[32..64].fill(0);
    let digest = blake3::hash(&normalized);
    bytes[32..64].copy_from_slice(digest.as_bytes());
    assert!(matches!(decode_container(&bytes), Err(LbpError::InvalidSectionTable)));
}

#[test]
fn corrupting_payload_is_rejected() {
    let mut image = assemble_container(b"manifest", &payload(&[("bin/app", b"x")])).unwrap();
    let last = image.len() - 1;
    image[last] ^= 0xff;
    assert!(matches!(decode_container(&image), Err(LbpError::HashMismatch)));
}

#[test]
fn payload_paths_are_checked() {
    assert!(validate_payload(&payload(&[("bin/app", b"x"), ("lib/x", b"y")])).is_ok());
    assert!(matches!(validate_payload(&payload(&[("bin/app", b"x"), ("bin//app", b"y")])), Err(LbpError::DuplicatePayloadPath(_))));
    assert!(matches!(validate_payload(&payload(&[("a/../b", b"x")])), Err(LbpError::PayloadPath(_))));
    assert!(matches!(validate_payload(b"not a tar archive at all, definitely not"), Err(LbpError::PayloadFormat(_))));
}

#[test]
fn archive_requires_entry_executable_in_payload() {
    let image = assemble_container(b"m", &payload(&[("bin/other", b"x")])).unwrap();
    assert!(matches!(LbpArchive::from_bytes(image, sample_manifest()), Err(LbpError::MissingPayloadFile(_))));
    let image = assemble_container(b"m", &payload(&[("bin/app", b"x"), ("res/gtk/a.ini", b"t")])).unwrap();
    let mut m = sample_manifest();
    m.mappings.push(MappingDeclaration { logical: "/usr/lib/gtk".into(), source: "res/gtk".into(), access: vec![] });
    assert!(LbpArchive::from_bytes(image.clone(), m.clone()).is_ok());
    m.mappings.push(MappingDeclaration { logical: "/usr/lib/qt".into(), source: "res/qt".into(), access: vec![] });
    assert!(matches!(LbpArchive::from_bytes(image, m), Err(LbpError::MissingPayloadFile(_))));
}

fn payload_files() -> Vec<luna::payload::PayloadFile> {
    vec![
        luna::payload::PayloadFile {
            path: "bin/app".into(),
            data: b"#!/bin/sh\necho luna\n".to_vec(),
            executable: true,
        },
        luna::payload::PayloadFile {
            path: "resources/gtk/themes/default.ini".into(),
            data: b"theme".to_vec(),
            executable: false,
        },
    ]
}

#[test]
fn container_build_is_deterministic() {
    let m = sample_manifest();
    let text = b"format = 1\n".to_vec();
    let first = luna::payload::build_container(&m, &text, &payload_files()).expect("build first archive");
    let second = luna::payload::build_container(&m, &text, &payload_files()).expect("build second archive");
    assert_eq!(first, second);
}

#[test]
fn built_payload_lists_files_with_fixed_owner_time_and_modes() {
    let tar = luna::payload::build_payload_tar(&payload_files()).unwrap();
    let (entries, error) = luna::tarball::list_tar(&tar);
    assert!(error.is_none());
    let paths: Vec<Vec<u8>> = entries.iter().map(|e| e.path.clone()).collect();
    assert_eq!(paths, vec![b"bin/app".to_vec(), b"resources/gtk/themes/default.ini".to_vec()]);
    let mut archive = tar::Archive::new(std::io::Cursor::new(tar.clone()));
    let modes: Vec<(u32, u64, u64, u64)> = archive
        .entries()
        .unwrap()
        .map(|e| {
            let e = e.unwrap();
            let h = e.header();
            (h.mode().unwrap(), h.uid().unwrap(), h.gid().unwrap(), h.mtime().unwrap())
        })
        .collect();
    assert_eq!(modes, vec![(0o755, 0, 0, 0), (0o644, 0, 0, 0)]);
}

#[test]
fn built_container_round_trips_its_payload() {
    let m = sample_manifest();
    let text = b"format = 1\n".to_vec();
    let image = luna::payload::build_container(&m, &text, &payload_files()).expect("build archive");
    let decoded = decode_container(&image).expect("decode");
    assert_eq!(decoded.manifest, text);
    assert_eq!(decoded.payload, luna::payload::build_payload_tar(&payload_files()).unwrap());
    let archive = LbpArchive::from_bytes(image, sample_manifest()).expect("parse archive");
    let payload = archive.payload_bytes().unwrap();
    let mut tar = tar::Archive::new(std::io::Cursor::new(payload));
    let mut first = tar.entries().unwrap().next().unwrap().unwrap();
    let mut body = Vec::new();
    std::io::Read::read_to_end(&mut first, &mut body).unwrap();
    assert_eq!(body, b"#!/bin/sh\necho luna\n".to_vec());
}

#[test]
fn payload_rejects_unsafe_and_overlong_paths() {
    let bad = vec![luna::payload::PayloadFile { path: "../etc/passwd".into(), data: vec![], executable: false }];
    assert!(matches!(luna::payload::build_payload_tar(&bad), Err(LbpError::ManifestFormat(_))));
    let doubled = vec![luna::payload::PayloadFile { path: "bin//app".into(), data: vec![], executable: false }];
    assert!(matches!(luna::payload::build_payload_tar(&doubled), Err(LbpError::PayloadFormat(_))));
    let long = vec![luna::payload::PayloadFile { path: "a".repeat(101), data: vec![], executable: false }];
    assert!(matches!(luna::payload::build_payload_tar(&long), Err(LbpError::PayloadFormat(_))));
    let fits = vec![luna::payload::PayloadFile { path: "a".repeat(100), data: vec![], executable: false }];
    assert!(luna::payload::build_payload_tar(&fits).is_ok());
}

#[test]
fn payload_roots_and_order() {
    let mut m = sample_manifest();
    m.mappings = vec![
        MappingDeclaration { logical: "/usr/lib/gtk".into(), source: "resources/gtk".into(), access: vec![] },
        MappingDeclaration { logical: "/usr/lib/dep".into(), source: "@dep:org.example.dep".into(), access: vec![] },
    ];
    assert_eq!(luna::payload::payload_roots(&m), vec!["bin/app".to_string(), "resources/gtk".to_string()]);
    let found = vec!["z/b".to_string(), "a".to_string(), "z/b".to_string(), "a/c".to_string(), "a.txt".to_string()];
    assert_eq!(
        luna::payload::payload_order(&found),
        vec!["a".to_string(), "a/c".to_string(), "a.txt".to_string(), "z/b".to_string()]
    );
}

#[test]
fn manifest_errors_name_the_first_broken_rule() {
    let mut m = sample_manifest();
    m.platform.arch = "aarch64".into();
    m.bundle.kind = "plugin".into();
    assert_eq!(m.validate(), Err(LbpError::ManifestFormat("unsupported bundle.type".to_string())));
    m.bundle.kind = "application".into();
    assert_eq!(m.validate(), Err(LbpError::ManifestFormat("unsupported platform.arch for LBP1".to_string())));
    let mut dup = manifest_with_mapping("bin/app", "/usr/bin/app");
    dup.mappings.push(MappingDeclaration { logical: "/usr/bin/app".into(), source: "bin/other".into(), access: vec![] });
    assert_eq!(dup.validate(), Err(LbpError::ManifestFormat("duplicate mapping: /usr/bin/app".to_string())));
    let absolute = manifest_with_mapping("/etc/passwd", "/usr/bin/passwd");
    assert_eq!(
        absolute.validate(),
        Err(LbpError::ManifestFormat("invalid bundle-relative path: /etc/passwd".to_string()))
    );
    let traversal = manifest_with_mapping("resources/../secret", "/usr/bin/secret");
    assert_eq!(
        traversal.validate(),
        Err(LbpError::ManifestFormat("unsafe bundle-relative path: resources/../secret".to_string()))
    );
}
