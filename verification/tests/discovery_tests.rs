use std::collections::BTreeMap;

use luna::boot_target::{BootError, BootTarget};
use luna::catalog::{
    select_init, select_kernel, target_matches, version_order, BootCatalog, DirEntry, InitRecord, KernelRecord,
    MemoryFiles,
};
use luna::discovery::{BootStateConfig, BootTargetRef, ImageManifest, ImageRole, InitManifest};

const IMAGE_TOML: &str = r#"
# System Image manifest
[image]
name = "luna"
version = "0.2.0"
format = "squashfs"
role = "factory"

[architecture]
arch = "x86_64"

[init]
compatible = ["1.0", "*", bad]
"#;

#[test]
fn image_manifest_is_parsed() {
    let m = ImageManifest::parse(IMAGE_TOML.as_bytes()).unwrap();
    assert_eq!(m.name, "luna");
    assert_eq!(m.version, "0.2.0");
    assert_eq!(m.role, ImageRole::Factory);
    assert_eq!(m.compatible_inits, vec!["1.0".to_string(), "*".to_string()]);
}

#[test]
fn image_manifest_requires_squashfs_x86_64_and_inits() {
    let wrong_format = IMAGE_TOML.replace("squashfs", "erofs");
    assert!(matches!(ImageManifest::parse(wrong_format.as_bytes()), Err(BootError::InvalidConfig)));
    let no_inits = IMAGE_TOML.replace(r#"["1.0", "*", bad]"#, "[]");
    assert!(matches!(ImageManifest::parse(no_inits.as_bytes()), Err(BootError::InvalidConfig)));
    assert!(matches!(ImageManifest::parse(&[0xff, 0xfe]), Err(BootError::InvalidConfig)));
    let unquoted = IMAGE_TOML.replace(r#"name = "luna""#, "name = luna");
    assert!(matches!(ImageManifest::parse(unquoted.as_bytes()), Err(BootError::InvalidConfig)));
}

#[test]
fn init_manifest_must_name_luna_init() {
    let text = "[init]\nname = \"luna-init\"\nversion = \"1.0\"\n[architecture]\narch = \"x86_64\"\n[kernels]\ncompatible = [\"6.1\"]\n";
    let m = InitManifest::parse(text.as_bytes()).unwrap();
    assert_eq!(m.version, "1.0");
    assert_eq!(m.compatible_kernels, vec!["6.1".to_string()]);
    let other = text.replace("luna-init", "busybox");
    assert!(matches!(InitManifest::parse(other.as_bytes()), Err(BootError::InvalidConfig)));
}

#[test]
fn boot_state_is_parsed_and_validated() {
    let text = "[state]\nformat = 1\ngeneration = 12\n[boot]\nattempt_id = 40\nprevious_attempt_failed = true\nfallback_depth = 2\nfailure_code = 9\n[targets.current]\nimage = \"0.2.0\"\ninit = \"1.0\"\nkernel = \"6.1\"\n";
    let c = BootStateConfig::parse(text.as_bytes()).unwrap();
    assert_eq!(c.generation, 12);
    assert_eq!(c.attempt_id, 40);
    assert!(c.previous_attempt_failed);
    assert_eq!(c.fallback_depth, 2);
    assert_eq!(c.failure_code, 9);
    assert_eq!(
        c.current,
        Some(BootTargetRef { image: "0.2.0".to_string(), init: "1.0".to_string(), kernel: "6.1".to_string() })
    );
    assert_eq!(c.fallback, None);
    assert!(BootStateConfig::parse(text.replace("format = 1", "format = 2").as_bytes()).is_err());
    assert!(BootStateConfig::parse(text.replace("fallback_depth = 2", "fallback_depth = 300").as_bytes()).is_err());
    assert!(BootStateConfig::parse(text.replace("kernel = \"6.1\"\n", "").as_bytes()).is_err());
    assert!(BootStateConfig::parse(text.replace("true", "yes").as_bytes()).is_err());
}

#[test]
fn versions_compare_numerically_by_component() {
    assert_eq!(version_order("0.10.0", "0.9.1"), 1);
    assert_eq!(version_order("1.0", "1.0.0"), -1);
    assert_eq!(version_order("2.x", "2.0"), 0);
    assert_eq!(version_order("3", "3"), 0);
}

fn init(version: &str, kernels: &[&str]) -> InitRecord {
    InitRecord {
        version: version.to_string(),
        init_path: format!("/cores/luna-{version}.init"),
        manifest: InitManifest {
            name: "luna-init".to_string(),
            version: version.to_string(),
            arch: "x86_64".to_string(),
            compatible_kernels: kernels.iter().map(|k| k.to_string()).collect(),
        },
    }
}

#[test]
fn newest_compatible_init_and_kernel_are_selected() {
    let m = ImageManifest::parse(IMAGE_TOML.as_bytes()).unwrap();
    let inits = vec![init("1.0", &["6.1"]), init("1.2", &["*"]), init("0.9", &["6.1"])];
    assert_eq!(select_init(&m, &inits), Some(1));
    let kernels = vec![
        KernelRecord { version: "6.1".to_string(), kernel_path: "/kernels/6.1/bzImage".to_string() },
        KernelRecord { version: "6.6".to_string(), kernel_path: "/kernels/6.6/bzImage".to_string() },
    ];
    assert_eq!(select_kernel(&inits[1].manifest, &kernels), Some(1));
    assert_eq!(select_kernel(&inits[0].manifest, &kernels), Some(0));
    let none = init("1.0", &["5.10"]);
    assert_eq!(select_kernel(&none.manifest, &kernels), None);
}

fn target(version: &str) -> BootTarget {
    BootTarget::new(
        format!("Luna {version}"),
        "luna".to_string(),
        version.to_string(),
        format!("/images/luna-{version}.squashfs"),
        format!("/images/luna-{version}.toml"),
        "/cores/luna-1.0.init".to_string(),
        "/kernels/6.1/bzImage".to_string(),
        "6.1".to_string(),
    )
}

#[test]
fn references_match_image_init_and_kernel() {
    let r = BootTargetRef { image: "0.2.0".to_string(), init: "1.0".to_string(), kernel: "6.1".to_string() };
    assert!(target_matches(&target("0.2.0"), Some(&r)));
    assert!(!target_matches(&target("0.3.0"), Some(&r)));
    assert!(!target_matches(&target("0.2.0"), None));
}

#[test]
fn catalog_orders_newest_first_and_honours_the_boot_state() {
    let mut state = BootStateConfig::empty();
    state.current = Some(BootTargetRef { image: "0.2.0".to_string(), init: "1.0".to_string(), kernel: "6.1".to_string() });
    let c = BootCatalog::assemble(vec![target("0.2.0"), target("0.10.0"), target("0.1.0")], vec![], vec![], state)
        .unwrap();
    let versions: Vec<&str> = c.targets.iter().map(|t| t.system_version.as_str()).collect();
    assert_eq!(versions, vec!["0.10.0", "0.2.0", "0.1.0"]);
    assert_eq!(c.default_target, 1);
    let r = BootTargetRef { image: "0.1.0".to_string(), init: "1.0".to_string(), kernel: "6.1".to_string() };
    assert_eq!(c.target_for_ref(&r).unwrap().system_version, "0.1.0");
    assert!(matches!(
        BootCatalog::assemble(vec![], vec![], vec![], BootStateConfig::empty()),
        Err(BootError::NoBootTargets)
    ));
}

#[derive(Default)]
struct Fixture {
    dirs: BTreeMap<String, Vec<DirEntry>>,
    files: BTreeMap<String, Vec<u8>>,
}

impl Fixture {
    fn file(&mut self, dir: &str, name: &str, contents: &str) {
        self.dirs.entry(dir.to_string()).or_default().push(DirEntry {
            name: name.to_string(),
            inode: 0,
            file_type: 1,
        });
        self.files.insert(format!("{dir}/{name}"), contents.as_bytes().to_vec());
    }

    fn build(&self) -> MemoryFiles {
        let mut fs = MemoryFiles::new();
        for (path, entries) in &self.dirs {
            fs.set_dir(path.clone(), entries.clone());
        }
        for (path, bytes) in &self.files {
            fs.add_file(path.clone(), bytes.clone());
        }
        fs
    }
}

#[test]
fn discovery_pairs_images_with_cores_and_kernels() {
    let mut fs = Fixture::default();
    fs.dirs.insert("/kernels".to_string(), vec![DirEntry { name: "6.1".to_string(), inode: 0, file_type: 2 }]);
    fs.files.insert("/kernels/6.1/bzImage".to_string(), vec![1]);
    fs.file("/cores", "luna-1.0.init", "");
    fs.file(
        "/cores",
        "luna-1.0.toml",
        "[init]\nname = \"luna-init\"\nversion = \"1.0\"\n[architecture]\narch = \"x86_64\"\n[kernels]\ncompatible = [\"6.1\"]\n",
    );
    fs.file("/images", "luna-0.2.0.squashfs", "");
    fs.file("/images", "luna-0.2.0.toml", &IMAGE_TOML.replace("role = \"factory\"\n", ""));
    fs.file("/images", "luna-0.3.0.squashfs", "");
    fs.file("/images", "luna-0.3.0.toml", &IMAGE_TOML.replace("0.2.0", "0.3.0"));
    let catalog = BootCatalog::discover(&mut fs.build()).unwrap();
    assert_eq!(catalog.targets.len(), 1);
    let t = &catalog.targets[0];
    assert_eq!(t.name, "Luna 0.2.0");
    assert_eq!(t.system_image_path, "/images/luna-0.2.0.squashfs");
    assert_eq!(t.init_path, "/cores/luna-1.0.init");
    assert_eq!(t.kernel_path, "/kernels/6.1/bzImage");
    assert_eq!(t.kernel_id, "6.1");
    let factory = catalog.factory.as_ref().unwrap();
    assert!(factory.is_factory);
    assert_eq!(factory.name, "Factory Environment");
    assert!(catalog.recovery.is_none());
}

#[test]
fn discovery_without_anything_bootable_fails() {
    let mut fs = Fixture::default();
    fs.dirs.insert("/images".to_string(), vec![]);
    fs.dirs.insert("/cores".to_string(), vec![]);
    fs.dirs.insert("/kernels".to_string(), vec![]);
    assert!(matches!(BootCatalog::discover(&mut fs.build()), Err(BootError::NoBootTargets)));
    let mut broken = Fixture::default();
    assert!(matches!(BootCatalog::discover(&mut broken.build()), Err(BootError::FilesystemError)));
}

#[test]
fn discovery_pairs_with_the_newest_core_only() {
    let core = |version: &str, kernel: &str| {
        format!(
            "[init]\nname = \"luna-init\"\nversion = \"{version}\"\n[architecture]\narch = \"x86_64\"\n[kernels]\ncompatible = [\"{kernel}\"]\n"
        )
    };
    let mut fs = Fixture::default();
    fs.dirs.insert("/kernels".to_string(), vec![DirEntry { name: "6.1".to_string(), inode: 0, file_type: 2 }]);
    fs.files.insert("/kernels/6.1/vmlinuz".to_string(), vec![1]);
    fs.file("/cores", "luna-1.0.init", "");
    fs.file("/cores", "luna-1.0.toml", &core("1.0", "6.1"));
    fs.file("/cores", "luna-2.0.init", "");
    fs.file("/cores", "luna-2.0.toml", &core("2.0", "7.0"));
    fs.file("/images", "luna-0.2.0.squashfs", "");
    fs.file("/images", "luna-0.2.0.toml", &IMAGE_TOML.replace("role = \"factory\"\n", ""));
    // The image admits every core; the newest (2.0) wants a kernel that is
    // not there, so the image gives no target and nothing else can boot.
    assert!(matches!(BootCatalog::discover(&mut fs.build()), Err(BootError::NoBootTargets)));

    // With only the older core the image pairs with it and the vmlinuz kernel.
    let mut older = Fixture::default();
    older.dirs.insert("/kernels".to_string(), vec![DirEntry { name: "6.1".to_string(), inode: 0, file_type: 2 }]);
    older.files.insert("/kernels/6.1/vmlinuz".to_string(), vec![1]);
    older.file("/cores", "luna-1.0.init", "");
    older.file("/cores", "luna-1.0.toml", &core("1.0", "6.1"));
    older.file("/images", "luna-0.2.0.squashfs", "");
    older.file("/images", "luna-0.2.0.toml", &IMAGE_TOML.replace("role = \"factory\"\n", ""));
    older.file("/recovery", "recovery-0.1.0.squashfs", "");
    older.file("/recovery", "recovery-0.1.0.toml", &IMAGE_TOML.replace("role = \"factory\"\n", "").replace("0.2.0", "0.1.0"));
    let catalog = BootCatalog::discover(&mut older.build()).unwrap();
    assert_eq!(catalog.targets.len(), 1);
    assert_eq!(catalog.targets[0].init_path, "/cores/luna-1.0.init");
    assert_eq!(catalog.targets[0].kernel_path, "/kernels/6.1/vmlinuz");
    let recovery = catalog.recovery.as_ref().unwrap();
    assert!(recovery.is_recovery);
    assert_eq!(recovery.system_image_path, "/recovery/recovery-0.1.0.squashfs");
    assert_eq!(recovery.kernel_cmdline, "quiet loglevel=3");
}
