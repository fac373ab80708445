use luna::elf::{ElfClass, ElfEndian, ElfError, ElfMachine, ElfMetadata, TrustedElfSource};
use luna::elf_search::{FilesystemElfResolver, NeededLookup};

fn source(logical: &str, physical: &str) -> TrustedElfSource {
    TrustedElfSource::new(logical.to_string(), physical.to_string()).unwrap()
}

fn metadata(rpath: &[&str], runpath: &[&str]) -> ElfMetadata {
    ElfMetadata::new(
        ElfClass::Class64,
        ElfEndian::Little,
        ElfMachine::X86_64,
        None,
        vec![],
        rpath.iter().map(|s| s.to_string()).collect(),
        runpath.iter().map(|s| s.to_string()).collect(),
    )
}

#[test]
fn longest_logical_prefix_is_tried_first() {
    let r = FilesystemElfResolver::new()
        .with_source(source("/usr", "/phys/usr"))
        .with_source(source("/usr/lib", "/phys/lib"));
    let (index, rest) = r.source_for("/usr/lib/libc.so.6").unwrap();
    assert_eq!(index, 0);
    assert_eq!(rest.len(), 1);
    let (index, _) = r.source_for("/usr/bin/app").unwrap();
    assert_eq!(index, 1);
    assert!(r.source_for("/opt/x").is_none());
    assert!(r.source_for("/usr/libexec/x").map(|(i, _)| i) == Some(1));
}

#[test]
fn default_search_paths_must_be_absolute_and_normalized() {
    assert!(FilesystemElfResolver::new().with_default_search_path("/lib".to_string()).is_ok());
    assert!(matches!(
        FilesystemElfResolver::new().with_default_search_path("lib".to_string()),
        Err(ElfError::UnsupportedDependencyPath(_))
    ));
    assert!(FilesystemElfResolver::new().with_default_search_path("/lib/../etc".to_string()).is_err());
}

#[test]
fn needed_names_are_searched_runpath_first() {
    let r = FilesystemElfResolver::new().with_default_search_path("/lib".to_string()).ok().unwrap();
    match r.needed_lookup("/app/bin/tool", &metadata(&["/old"], &["$ORIGIN/../lib"]), "libz.so").ok().unwrap() {
        NeededLookup::Search { candidates, failure } => {
            assert_eq!(candidates, vec!["/app/lib/libz.so".to_string(), "/lib/libz.so".to_string()]);
            assert!(matches!(failure, ElfError::DependencyNotFound(_)));
        }
        NeededLookup::Absolute(_) => panic!("expected a search"),
    }
    match r.needed_lookup("/app/bin/tool", &metadata(&["/old", "relative"], &[]), "libz.so").ok().unwrap() {
        NeededLookup::Search { candidates, failure } => {
            assert_eq!(candidates, vec!["/old/libz.so".to_string()]);
            assert!(matches!(failure, ElfError::UnsupportedDependencyPath(_)));
        }
        NeededLookup::Absolute(_) => panic!("expected a search"),
    }
    assert!(matches!(
        r.needed_lookup("/app/bin/tool", &metadata(&[], &[]), "/lib/ld.so").ok().unwrap(),
        NeededLookup::Absolute(p) if p == "/lib/ld.so"
    ));
    assert!(matches!(
        r.needed_lookup("/app/bin/tool", &metadata(&[], &[]), "sub/libz.so"),
        Err(ElfError::UnsupportedDependencyPath(_))
    ));
    assert!(matches!(
        r.needed_lookup("/app/bin/tool", &metadata(&[], &[]), "../libz.so"),
        Err(ElfError::InvalidDependencyName(_))
    ));
}
