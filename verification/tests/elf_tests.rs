use std::collections::BTreeMap;

use luna::elf::{
    expand_search_entry, normalize_absolute_path, parse_elf, validate_dependency_name, ClosureBuilder, ClosureStep, ElfClass, ElfDependencyClosure,
    ElfDependencyResolver, ElfError, ElfMachine, ElfMetadata, MemoryElfResolver, TrustedElfSource,
};

#[derive(Default)]
struct MemoryResolver {
    files: BTreeMap<String, Vec<u8>>,
    needed: BTreeMap<(String, String), String>,
    interpreters: BTreeMap<String, String>,
}

impl ElfDependencyResolver for MemoryResolver {
    fn inspect(&self, path: &str) -> Result<ElfMetadata, ElfError> {
        let bytes = self.files.get(path).ok_or_else(|| ElfError::DependencyNotFound(path.to_owned()))?;
        parse_elf(bytes)
    }

    fn resolve_interpreter(&self, interpreter: &str) -> Result<String, ElfError> {
        self.interpreters
            .get(interpreter)
            .cloned()
            .ok_or_else(|| ElfError::DependencyNotFound(interpreter.to_owned()))
    }

    fn resolve_needed(&self, requester: &str, _metadata: &ElfMetadata, name: &str) -> Result<String, ElfError> {
        self.needed
            .get(&(requester.to_owned(), name.to_owned()))
            .cloned()
            .ok_or_else(|| ElfError::DependencyNotFound(name.to_owned()))
    }
}

fn fixture(needed: &[&str], interpreter: Option<&str>) -> Vec<u8> {
    let mut bytes = vec![0u8; 0x700];
    bytes[0..4].copy_from_slice(b"\x7fELF");
    bytes[4] = 2;
    bytes[5] = 1;
    bytes[6] = 1;
    write_u16(&mut bytes, 16, 3);
    write_u16(&mut bytes, 18, 62);
    write_u64(&mut bytes, 32, 64);
    write_u16(&mut bytes, 54, 56);
    write_u16(&mut bytes, 56, 3);

    phdr(&mut bytes, 64, 1, 0, 0x400000, 0x700);
    if let Some(interpreter) = interpreter {
        let raw = interpreter.as_bytes();
        bytes[0x200..0x200 + raw.len()].copy_from_slice(raw);
        bytes[0x200 + raw.len()] = 0;
        phdr(&mut bytes, 120, 3, 0x200, 0x400200, (raw.len() + 1) as u64);
    }
    phdr(&mut bytes, 176, 2, 0x300, 0x400300, 0x100);

    let mut strtab = b"\0".to_vec();
    let mut offsets = BTreeMap::new();
    for name in needed {
        offsets.insert(*name, strtab.len() as u64);
        strtab.extend_from_slice(name.as_bytes());
        strtab.push(0);
    }
    bytes[0x500..0x500 + strtab.len()].copy_from_slice(&strtab);

    write_u64(&mut bytes, 0x300, 5);
    write_u64(&mut bytes, 0x308, 0x400500);
    write_u64(&mut bytes, 0x310, 10);
    write_u64(&mut bytes, 0x318, strtab.len() as u64);
    let mut at = 0x320;
    for name in needed {
        write_u64(&mut bytes, at, 1);
        write_u64(&mut bytes, at + 8, offsets[name]);
        at += 16;
    }
    write_u64(&mut bytes, at, 0);
    write_u64(&mut bytes, at + 8, 0);
    bytes
}

fn phdr(bytes: &mut [u8], offset: usize, kind: u32, file_offset: u64, vaddr: u64, filesz: u64) {
    write_u32(bytes, offset, kind);
    write_u64(bytes, offset + 8, file_offset);
    write_u64(bytes, offset + 16, vaddr);
    write_u64(bytes, offset + 32, filesz);
}

fn write_u16(bytes: &mut [u8], offset: usize, value: u16) {
    bytes[offset..offset + 2].copy_from_slice(&value.to_le_bytes());
}

fn write_u32(bytes: &mut [u8], offset: usize, value: u32) {
    bytes[offset..offset + 4].copy_from_slice(&value.to_le_bytes());
}

fn write_u64(bytes: &mut [u8], offset: usize, value: u64) {
    bytes[offset..offset + 8].copy_from_slice(&value.to_le_bytes());
}

#[test]
fn parser_extracts_loader_and_needed_entries() {
    let bytes = fixture(&["libc.so.6", "libm.so.6"], Some("/lib64/ld-luna-x86-64.so.1"));
    let metadata = parse_elf(&bytes).unwrap();
    assert_eq!(metadata.machine(), ElfMachine::X86_64);
    assert_eq!(metadata.class(), ElfClass::Class64);
    assert_eq!(metadata.interpreter(), Some("/lib64/ld-luna-x86-64.so.1"));
    assert_eq!(metadata.needed(), ["libc.so.6", "libm.so.6"]);
}

#[test]
fn static_elf_has_empty_dynamic_closure_inputs() {
    let bytes = fixture(&[], None);
    let metadata = parse_elf(&bytes).unwrap();
    assert!(!metadata.has_dynamic_loader());
    assert!(metadata.needed().is_empty());
    assert!(metadata.interpreter().is_none());
}

#[test]
fn dependency_closure_collects_every_file_once() {
    let root = "/bin/app".to_owned();
    let libc = "/lib/libc.so.6".to_owned();
    let ld = "/lib64/ld.so".to_owned();
    let mut resolver = MemoryResolver::default();
    resolver.files.insert(root.clone(), fixture(&["libc.so.6"], Some("/lib64/ld.so")));
    resolver.files.insert(libc.clone(), fixture(&["libm.so.6"], None));
    resolver.files.insert("/lib/libm.so.6".to_owned(), fixture(&[], None));
    resolver.files.insert(ld.clone(), fixture(&[], None));
    resolver.interpreters.insert("/lib64/ld.so".to_owned(), ld);
    resolver.needed.insert((root.clone(), "libc.so.6".into()), libc);
    resolver.needed.insert(("/lib/libc.so.6".to_owned(), "libm.so.6".into()), "/lib/libm.so.6".to_owned());

    let closure = ElfDependencyClosure::build(root.clone(), &resolver).unwrap();
    assert_eq!(closure.root(), root);
    assert_eq!(closure.len(), 4);
    assert_eq!(closure.nodes()[0].path(), "/bin/app");
    let again = ElfDependencyClosure::build(root, &resolver).unwrap();
    assert_eq!(closure, again);
}

#[test]
fn dependency_closure_is_recursive_and_deterministic() {
    let root = "/bin/app".to_owned();
    let libc = "/lib/libc.so.6".to_owned();
    let ld = "/lib64/ld.so".to_owned();
    let mut resolver = MemoryResolver::default();
    resolver.files.insert(root.clone(), fixture(&["libc.so.6"], Some("/lib64/ld.so")));
    resolver.files.insert(libc.clone(), fixture(&["libm.so.6"], None));
    resolver.files.insert("/lib/libm.so.6".to_owned(), fixture(&[], None));
    resolver.files.insert(ld.clone(), fixture(&[], None));
    resolver.interpreters.insert("/lib64/ld.so".to_owned(), ld);
    resolver.needed.insert((root.clone(), "libc.so.6".into()), libc);
    resolver.needed.insert(("/lib/libc.so.6".to_owned(), "libm.so.6".into()), "/lib/libm.so.6".to_owned());

    let closure = ElfDependencyClosure::build(root.clone(), &resolver).unwrap();
    assert_eq!(closure.root(), root);
    assert_eq!(closure.len(), 4);
    let paths = closure.nodes().iter().map(|node| node.path().to_owned()).collect::<Vec<_>>();
    assert!(paths.windows(2).all(|pair| pair[0] <= pair[1]));
}

#[test]
fn dependency_cycles_do_not_loop_forever() {
    let root = "/bin/app".to_owned();
    let lib = "/lib/libloop.so".to_owned();
    let mut resolver = MemoryResolver::default();
    resolver.files.insert(root.clone(), fixture(&["libloop.so"], None));
    resolver.files.insert(lib.clone(), fixture(&["app"], None));
    resolver.files.insert("/bin/app2".to_owned(), fixture(&[], None));
    resolver.needed.insert((root.clone(), "libloop.so".into()), lib.clone());
    resolver.needed.insert((lib, "app".into()), root.clone());

    let closure = ElfDependencyClosure::build(root, &resolver).unwrap();
    assert_eq!(closure.len(), 2);
}

#[test]
fn architecture_mismatch_fails_closed() {
    let root = "/bin/app".to_owned();
    let other = "/lib/libx.so".to_owned();
    let mut resolver = MemoryResolver::default();
    resolver.files.insert(root.clone(), fixture(&["libx.so"], None));
    let mut bytes = fixture(&[], None);
    write_u16(&mut bytes, 18, 183);
    resolver.files.insert(other.clone(), bytes);
    resolver.needed.insert((root, "libx.so".into()), other);
    assert!(matches!(
        ElfDependencyClosure::build("/bin/app".to_owned(), &resolver),
        Err(ElfError::ArchitectureMismatch { .. })
    ));
}

#[test]
fn origin_search_path_is_normalized_inside_absolute_namespace() {
    let result = expand_search_entry("$ORIGIN/../lib", "/apps/example/bin").unwrap();
    assert_eq!(result, "/apps/example/lib");
}

#[test]
fn traversal_beyond_logical_root_is_rejected() {
    let result = expand_search_entry("$ORIGIN/../../..", "/apps");
    assert!(result.is_err());
}

#[test]
fn braced_origin_and_normalization_edge_cases() {
    assert_eq!(expand_search_entry("${ORIGIN}/lib", "/opt/x").unwrap(), "/opt/x/lib");
    assert_eq!(normalize_absolute_path("/").unwrap(), "/");
    assert_eq!(normalize_absolute_path("//a/./b//c/..").unwrap(), "/a/b");
    assert!(normalize_absolute_path("relative/x").is_err());
    assert!(validate_dependency_name("libc.so.6").is_ok());
    assert!(validate_dependency_name("").is_err());
    assert!(validate_dependency_name("../x").is_err());
    assert!(validate_dependency_name("a\0b").is_err());
    assert!(TrustedElfSource::new("/lib".into(), "/srv/root".into()).is_ok());
    assert!(TrustedElfSource::new("lib".into(), "/srv/root".into()).is_err());
}

#[test]
fn malformed_files_are_reported() {
    assert_eq!(parse_elf(&[0u8; 10]), Err(ElfError::TooSmall));
    let mut bytes = fixture(&[], None);
    bytes[0] = 0;
    assert_eq!(parse_elf(&bytes), Err(ElfError::InvalidMagic));
    let mut bytes = fixture(&[], None);
    bytes[4] = 9;
    assert_eq!(parse_elf(&bytes), Err(ElfError::UnsupportedClass(9)));
    let mut bytes = fixture(&["libc.so.6"], None);
    write_u64(&mut bytes, 0x318, 0x1000);
    assert_eq!(parse_elf(&bytes), Err(ElfError::MalformedStringTable));
    let mut bytes = fixture(&["libc.so.6"], Some("relative/ld.so"));
    write_u64(&mut bytes, 0x318, 3);
    assert_eq!(parse_elf(&bytes), Err(ElfError::InvalidInterpreterPath));
}

#[test]
fn closure_builder_steps_visit_each_file_once() {
    let app = parse_elf(&fixture(&["libloop.so"], None)).unwrap();
    let lib = parse_elf(&fixture(&["app"], None)).unwrap();
    let mut builder = ClosureBuilder::start("/bin/app".to_owned(), app);
    let (path, metadata) = match builder.next_file().unwrap() {
        ClosureStep::Next(path, metadata) => (path, metadata),
        _ => panic!("the root comes first"),
    };
    assert_eq!(path, "/bin/app");
    assert!(builder.is_scheduled("/bin/app"));
    assert!(!builder.is_scheduled("/lib/libloop.so"));
    builder.schedule("/lib/libloop.so".to_owned(), lib);
    builder.add_node(path, metadata);
    let (path, metadata) = match builder.next_file().unwrap() {
        ClosureStep::Next(path, metadata) => (path, metadata),
        _ => panic!("the library is next"),
    };
    assert_eq!(path, "/lib/libloop.so");
    assert!(builder.is_scheduled("/bin/app"));
    builder.add_node(path, metadata);
    assert!(matches!(builder.next_file(), Ok(ClosureStep::Done)));
    let closure = builder.finish();
    let paths: Vec<&str> = closure.nodes().iter().map(|n| n.path()).collect();
    assert_eq!(paths, vec!["/bin/app", "/lib/libloop.so"]);
}

#[test]
fn closure_builder_reports_machine_mismatch() {
    let app = parse_elf(&fixture(&[], None)).unwrap();
    let mut arm_bytes = fixture(&[], None);
    write_u16(&mut arm_bytes, 18, 183);
    let arm = parse_elf(&arm_bytes).unwrap();
    let again = parse_elf(&fixture(&[], None)).unwrap();
    let mut builder = ClosureBuilder::start("/bin/app".to_owned(), app);
    let (path, metadata) = match builder.next_file().unwrap() {
        ClosureStep::Next(path, metadata) => (path, metadata),
        _ => panic!("the root comes first"),
    };
    builder.schedule("/lib/libx.so".to_owned(), arm);
    builder.schedule("/bin/./app2".to_owned(), again);
    builder.add_node(path, metadata);
    assert!(matches!(builder.next_file(), Ok(ClosureStep::Next(_, _))));
    let mut builder2 = ClosureBuilder::start("/bin/app".to_owned(), parse_elf(&fixture(&[], None)).unwrap());
    let (path, metadata) = match builder2.next_file().unwrap() {
        ClosureStep::Next(path, metadata) => (path, metadata),
        _ => panic!("the root comes first"),
    };
    builder2.schedule("/lib/libx.so".to_owned(), parse_elf(&arm_bytes).unwrap());
    builder2.add_node(path, metadata);
    match builder2.next_file() {
        Err(ElfError::ArchitectureMismatch { expected, actual, path }) => {
            assert_eq!(expected, ElfMachine::X86_64);
            assert_eq!(actual, ElfMachine::Aarch64);
            assert_eq!(path, "/lib/libx.so");
        }
        _ => panic!("expected a machine mismatch"),
    }
}

#[test]
fn normalization_is_idempotent() {
    for path in ["/usr/./lib/../lib64//libc.so", "/", "/a/b/../../c", "//x/./y/"] {
        let once = normalize_absolute_path(path).unwrap();
        assert_eq!(normalize_absolute_path(&once).unwrap(), once);
        assert!(once.split('/').all(|piece| piece != "." && piece != ".."));
    }
}

#[test]
fn memory_resolver_closure_is_the_reachable_set() {
    let mut resolver = MemoryElfResolver::new();
    resolver.add_file("/bin/app".to_owned(), parse_elf(&fixture(&["libloop.so"], Some("/lib/ld.so"))).unwrap());
    resolver.add_file("/lib/libloop.so".to_owned(), parse_elf(&fixture(&["app"], None)).unwrap());
    resolver.add_file("/lib/ld.so".to_owned(), parse_elf(&fixture(&[], None)).unwrap());
    resolver.add_file("/lib/unused.so".to_owned(), parse_elf(&fixture(&[], None)).unwrap());
    resolver.add_interpreter("/lib/ld.so".to_owned(), "/lib/ld.so".to_owned());
    resolver.add_needed("/bin/app".to_owned(), "libloop.so".to_owned(), "/lib/libloop.so".to_owned());
    resolver.add_needed("/lib/libloop.so".to_owned(), "app".to_owned(), "/bin/app".to_owned());

    let closure = ElfDependencyClosure::build("/bin/app".to_owned(), &resolver).unwrap();
    let paths: Vec<&str> = closure.nodes().iter().map(|n| n.path()).collect();
    assert_eq!(paths, vec!["/bin/app", "/lib/ld.so", "/lib/libloop.so"]);
    assert_eq!(closure.root(), "/bin/app");
}

#[test]
fn memory_resolver_later_answer_replaces_earlier() {
    let mut resolver = MemoryElfResolver::new();
    resolver.add_file("/bin/app".to_owned(), parse_elf(&fixture(&["libx.so"], None)).unwrap());
    resolver.add_file("/lib/a/libx.so".to_owned(), parse_elf(&fixture(&[], None)).unwrap());
    resolver.add_file("/lib/b/libx.so".to_owned(), parse_elf(&fixture(&[], None)).unwrap());
    resolver.add_needed("/bin/app".to_owned(), "libx.so".to_owned(), "/lib/a/libx.so".to_owned());
    resolver.add_needed("/bin/app".to_owned(), "libx.so".to_owned(), "/lib/b/libx.so".to_owned());
    let metadata = resolver.inspect("/bin/app").unwrap();
    assert_eq!(resolver.resolve_needed("/bin/app", &metadata, "libx.so").unwrap(), "/lib/b/libx.so");
    let closure = ElfDependencyClosure::build("/bin/app".to_owned(), &resolver).unwrap();
    assert_eq!(closure.len(), 2);
}

#[test]
fn memory_resolver_missing_answer_fails_the_closure() {
    let mut resolver = MemoryElfResolver::new();
    resolver.add_file("/bin/app".to_owned(), parse_elf(&fixture(&["libgone.so"], None)).unwrap());
    assert!(matches!(
        ElfDependencyClosure::build("/bin/app".to_owned(), &resolver),
        Err(ElfError::DependencyNotFound(name)) if name == "libgone.so"
    ));
    assert!(matches!(resolver.inspect("/bin/none"), Err(ElfError::DependencyNotFound(p)) if p == "/bin/none"));
}
