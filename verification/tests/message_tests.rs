use luna::boot_target::BootError;
use luna::bundle::BundleError;
use luna::common::{RuntimeKind, SessionId};
use luna::device::UeventError;
use luna::elf::{ElfError, ElfMachine};
use luna::lbp::LbpError;
use luna::runtime::{InstanceState, RuntimeError};
use luna::session::AuthenticationError;

#[test]
fn lbp_error_messages_carry_their_values() {
    assert_eq!(LbpError::UnsupportedVersion(2).message(), "unsupported LBP version: 2");
    assert_eq!(LbpError::UnsupportedFlags(0x1f).message(), "unsupported LBP flags: 0x1f");
    assert_eq!(LbpError::UnsupportedFlags(0).message(), "unsupported LBP flags: 0x0");
    assert_eq!(LbpError::UnknownSectionType(7).message(), "unknown LBP section type: 7");
    assert_eq!(LbpError::UnsupportedCompression(3).message(), "unsupported LBP compression: 3");
    assert_eq!(LbpError::HashMismatch.message(), "LBP content hash mismatch");
    assert_eq!(LbpError::PayloadPath(b"../etc".to_vec()).message(), "unsafe payload path: ../etc");
    assert_eq!(
        LbpError::MissingPayloadFile("bin/app".to_string()).message(),
        "manifest references missing payload file: bin/app"
    );
    assert!(LbpError::DuplicatePayloadPath(vec![0xff, b'a']).message().starts_with("duplicate payload path: "));
}

#[test]
fn runtime_error_messages_name_states_and_sessions() {
    let transition = RuntimeError::InvalidTransition { from: InstanceState::Created, to: InstanceState::Running };
    assert_eq!(transition.message(), "invalid application instance transition from Created to Running");
    let mismatch = RuntimeError::SessionMismatch { expected: SessionId::new(4), actual: SessionId::new(19) };
    assert_eq!(mismatch.message(), "application plan session 4 does not match launch session 19");
    let kinds = RuntimeError::RuntimeMismatch { mapping: Some(RuntimeKind::Glibc), requested: RuntimeKind::Luna };
    assert_eq!(kinds.message(), "runtime mismatch: mapping=Some(Glibc), requested=Luna");
    let none = RuntimeError::RuntimeMismatch { mapping: None, requested: RuntimeKind::Bundle };
    assert_eq!(none.message(), "runtime mismatch: mapping=None, requested=Bundle");
    assert_eq!(RuntimeError::Staging("busy".to_string()).message(), "namespace staging failed: busy");
}

#[test]
fn elf_error_messages_name_machines() {
    let e = ElfError::ArchitectureMismatch {
        expected: ElfMachine::X86_64,
        actual: ElfMachine::Other(243),
        path: "/lib/libc.so".to_string(),
    };
    assert_eq!(e.message(), "ELF architecture mismatch at /lib/libc.so: expected x86_64, got machine(243)");
    assert_eq!(ElfError::UnsupportedClass(9).message(), "unsupported ELF class: 9");
    assert_eq!(ElfError::UnsupportedEndian(0).message(), "unsupported ELF endianness: 0");
    assert_eq!(ElfError::MalformedHeader("phoff").message(), "malformed ELF header: phoff");
}

#[test]
fn boot_error_messages() {
    assert_eq!(BootError::Unsupported("ext4 indirect block maps").message(), "unsupported: ext4 indirect block maps");
    assert_eq!(BootError::UefiError(14).message(), "UEFI error: 14");
    assert_eq!(BootError::NoBootTargets.message(), "no boot targets available");
}

#[test]
fn session_bundle_and_uevent_messages() {
    assert_eq!(
        AuthenticationError::UnknownUser("eve".to_string()).message(),
        "authentication user is unknown: eve"
    );
    assert_eq!(
        BundleError::DuplicateResource("/bin/app".to_string()).message(),
        "duplicate bundle resource: /bin/app"
    );
    assert_eq!(UeventError::HeaderMalformed.message(), "uevent header is malformed");
}
