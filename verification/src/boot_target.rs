//! Boot errors and the resolved boot target: a System Image, the luna-init
//! core it runs and the Linux kernel that init was built for.

use vstd::prelude::*;
use crate::text::{decimal, push_decimal};

verus! {

/// Why the boot loader could not continue.
#[derive(Debug, Clone, Copy, PartialEq, Eq)]
pub enum BootError {
    /// A firmware service failed with this status code.
    UefiError(usize),
    ConfigNotFound,
    InvalidConfig,
    NoBootTargets,
    TargetNotFound,
    KernelLoadFailed,
    MemoryAllocationFailed,
    FilesystemError,
    InvalidFilesystem,
    InvalidKernel,
    InvalidKernelFormat,
    ExitBootServicesFailed,
    RecoveryUnavailable,
    Unsupported(&'static str),
}

/// The text shown for a `BootError`. A firmware status is written as its
/// code in decimal.
pub open spec fn boot_error_text(e: BootError) -> Seq<char> {
    match e {
        BootError::UefiError(code) => "UEFI error: "@ + decimal(code as nat),
        BootError::ConfigNotFound => "boot configuration not found"@,
        BootError::InvalidConfig => "invalid boot configuration"@,
        BootError::NoBootTargets => "no boot targets available"@,
        BootError::TargetNotFound => "selected boot target not found"@,
        BootError::KernelLoadFailed => "failed to load kernel"@,
        BootError::MemoryAllocationFailed => "memory allocation failed"@,
        BootError::FilesystemError => "filesystem access error"@,
        BootError::InvalidFilesystem => "invalid or unsupported filesystem"@,
        BootError::InvalidKernel => "invalid Linux kernel"@,
        BootError::InvalidKernelFormat => "invalid kernel format"@,
        BootError::ExitBootServicesFailed => "failed to exit boot services"@,
        BootError::RecoveryUnavailable => "recovery environment unavailable"@,
        BootError::Unsupported(feature) => "unsupported: "@ + feature@,
    }
}

impl BootError {
    /// The text shown to the user for this error.
    pub fn message(&self) -> (res: String)
        ensures
            res@ == boot_error_text(*self),
    {
        match self {
            BootError::UefiError(code) => {
                let mut s = String::from_str("UEFI error: ");
                push_decimal(&mut s, *code as u64);
                s
            },
            BootError::ConfigNotFound => String::from_str("boot configuration not found"),
            BootError::InvalidConfig => String::from_str("invalid boot configuration"),
            BootError::NoBootTargets => String::from_str("no boot targets available"),
            BootError::TargetNotFound => String::from_str("selected boot target not found"),
            BootError::KernelLoadFailed => String::from_str("failed to load kernel"),
            BootError::MemoryAllocationFailed => String::from_str("memory allocation failed"),
            BootError::FilesystemError => String::from_str("filesystem access error"),
            BootError::InvalidFilesystem => String::from_str("invalid or unsupported filesystem"),
            BootError::InvalidKernel => String::from_str("invalid Linux kernel"),
            BootError::InvalidKernelFormat => String::from_str("invalid kernel format"),
            BootError::ExitBootServicesFailed => String::from_str("failed to exit boot services"),
            BootError::RecoveryUnavailable => String::from_str("recovery environment unavailable"),
            BootError::Unsupported(feature) => {
                let mut s = String::from_str("unsupported: ");
                s.append(feature);
                s
            },
        }
    }
}

/// A bootable tuple of System Image, luna-init core and kernel.
#[derive(Debug)]
pub struct BootTarget {
    pub name: String,
    pub image_family: String,
    pub system_version: String,
    pub system_image_path: String,
    pub manifest_path: String,
    pub init_path: String,
    pub kernel_path: String,
    pub kernel_id: String,
    pub kernel_cmdline: String,
    pub is_recovery: bool,
    pub is_factory: bool,
    /// Recovery DATA image that a recovery target carries, if any.
    pub recovery_data_path: Option<String>,
    /// Digest of that image, filled in once it has been hashed.
    pub recovery_data_digest: Option<[u8; 32]>,
}

/// Abstract value of a boot target: every field by its view.
pub struct BootTargetView {
    pub name: Seq<char>,
    pub image_family: Seq<char>,
    pub system_version: Seq<char>,
    pub system_image_path: Seq<char>,
    pub manifest_path: Seq<char>,
    pub init_path: Seq<char>,
    pub kernel_path: Seq<char>,
    pub kernel_id: Seq<char>,
    pub kernel_cmdline: Seq<char>,
    pub is_recovery: bool,
    pub is_factory: bool,
    pub recovery_data_path: Option<Seq<char>>,
    pub recovery_data_digest: Option<Seq<u8>>,
}

pub open spec fn opt_string_view(s: Option<String>) -> Option<Seq<char>> {
    match s {
        Some(v) => Some(v@),
        None => None,
    }
}

pub open spec fn opt_digest_view(d: Option<[u8; 32]>) -> Option<Seq<u8>> {
    match d {
        Some(v) => Some(v@),
        None => None,
    }
}

impl View for BootTarget {
    type V = BootTargetView;

    open spec fn view(&self) -> BootTargetView {
        BootTargetView {
            name: self.name@,
            image_family: self.image_family@,
            system_version: self.system_version@,
            system_image_path: self.system_image_path@,
            manifest_path: self.manifest_path@,
            init_path: self.init_path@,
            kernel_path: self.kernel_path@,
            kernel_id: self.kernel_id@,
            kernel_cmdline: self.kernel_cmdline@,
            is_recovery: self.is_recovery,
            is_factory: self.is_factory,
            recovery_data_path: opt_string_view(self.recovery_data_path),
            recovery_data_digest: opt_digest_view(self.recovery_data_digest),
        }
    }
}

fn copy_opt_string(s: &Option<String>) -> (res: Option<String>)
    ensures
        opt_string_view(res) == opt_string_view(*s),
{
    match s {
        Some(v) => Some(v.clone()),
        None => None,
    }
}

impl BootTarget {
    /// A normal (neither recovery nor factory) target with an empty kernel
    /// command line.
    pub fn new(
        name: String,
        image_family: String,
        system_version: String,
        system_image_path: String,
        manifest_path: String,
        init_path: String,
        kernel_path: String,
        kernel_id: String,
    ) -> (res: BootTarget)
        ensures
            res.name@ == name@,
            res.image_family@ == image_family@,
            res.system_version@ == system_version@,
            res.system_image_path@ == system_image_path@,
            res.manifest_path@ == manifest_path@,
            res.init_path@ == init_path@,
            res.kernel_path@ == kernel_path@,
            res.kernel_id@ == kernel_id@,
            res.kernel_cmdline@ == Seq::<char>::empty(),
            !res.is_recovery,
            !res.is_factory,
            res.recovery_data_path is None,
            res.recovery_data_digest is None,
    {
        BootTarget {
            name,
            image_family,
            system_version,
            system_image_path,
            manifest_path,
            init_path,
            kernel_path,
            kernel_id,
            kernel_cmdline: String::new(),
            is_recovery: false,
            is_factory: false,
            recovery_data_path: None,
            recovery_data_digest: None,
        }
    }

    /// The same target with `cmdline` as its kernel command line.
    pub fn with_cmdline(self, cmdline: String) -> (res: BootTarget)
        ensures
            res@ == (BootTargetView { kernel_cmdline: cmdline@, ..self@ }),
    {
        let mut t = self;
        t.kernel_cmdline = cmdline;
        t
    }

    /// The same target marked as a recovery target.
    pub fn recovery(self) -> (res: BootTarget)
        ensures
            res@ == (BootTargetView { is_recovery: true, ..self@ }),
    {
        let mut t = self;
        t.is_recovery = true;
        t
    }

    /// The same target marked as a factory target.
    pub fn factory(self) -> (res: BootTarget)
        ensures
            res@ == (BootTargetView { is_factory: true, ..self@ }),
    {
        let mut t = self;
        t.is_factory = true;
        t
    }

    /// A field-for-field copy.
    pub fn duplicate(&self) -> (res: BootTarget)
        ensures
            res@ == self@,
    {
        BootTarget {
            name: self.name.clone(),
            image_family: self.image_family.clone(),
            system_version: self.system_version.clone(),
            system_image_path: self.system_image_path.clone(),
            manifest_path: self.manifest_path.clone(),
            init_path: self.init_path.clone(),
            kernel_path: self.kernel_path.clone(),
            kernel_id: self.kernel_id.clone(),
            kernel_cmdline: self.kernel_cmdline.clone(),
            is_recovery: self.is_recovery,
            is_factory: self.is_factory,
            recovery_data_path: copy_opt_string(&self.recovery_data_path),
            recovery_data_digest: self.recovery_data_digest,
        }
    }
}

/// Two targets are the same boot tuple when image, init, kernel and
/// recovery DATA image agree.
pub open spec fn same_target_spec(a: BootTargetView, b: BootTargetView) -> bool {
    &&& a.system_image_path == b.system_image_path
    &&& a.init_path == b.init_path
    &&& a.kernel_path == b.kernel_path
    &&& a.recovery_data_path == b.recovery_data_path
}

/// Whether two targets name the same image, init, kernel and recovery DATA
/// image.
pub fn same_target(left: &BootTarget, right: &BootTarget) -> (res: bool)
    ensures
        res == same_target_spec(left@, right@),
{
    let paths = crate::text::str_eq(left.system_image_path.as_str(), right.system_image_path.as_str())
        && crate::text::str_eq(left.init_path.as_str(), right.init_path.as_str())
        && crate::text::str_eq(left.kernel_path.as_str(), right.kernel_path.as_str());
    let recovery = match (&left.recovery_data_path, &right.recovery_data_path) {
        (None, None) => true,
        (Some(a), Some(b)) => crate::text::str_eq(a.as_str(), b.as_str()),
        _ => false,
    };
    paths && recovery
}

} // verus!
