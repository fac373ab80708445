//! Luna Handoff ABI v1: the record stream the boot loader passes to the
//! kernel in a Linux `setup_data` node, and the small progress node next to
//! it.
//!
//! The payload starts with an 84-byte header (padded to 88): magic
//! `LUNAHD01`, ABI 1.0, header size, total size, the attempt id, payload
//! offset and length, and a BLAKE3 checksum over the whole payload with the
//! checksum field zeroed. Records follow, each a type, flags, a 32-bit
//! length and the bytes, padded to a multiple of eight.

use vstd::prelude::*;
use crate::attempt::zero_bytes;
use crate::boot_target::{BootError, BootTarget};
use crate::bytes::{le_encode, lemma_le_encode_len, push_le, splice, write_bytes_at, write_le_at};
use crate::digest::{blake3_digest, hash32};
use crate::gpt::Partition;
use crate::linux_boot::BootParams;

verus! {

/// Stages the kernel side reports through the progress node.
#[derive(Clone, Copy, Debug, PartialEq, Eq, Structural)]
pub enum BootProgressStage {
    KernelHandoff,
    KernelStarted,
    InitStarted,
    InitReady,
    SystemRuntimeStarted,
    Success,
    Failed,
}

impl BootProgressStage {
    /// The stage's wire code.
    pub fn code(self) -> (res: u8)
        ensures
            res == progress_code(self),
    {
        match self {
            BootProgressStage::KernelHandoff => 3,
            BootProgressStage::KernelStarted => 4,
            BootProgressStage::InitStarted => 5,
            BootProgressStage::InitReady => 6,
            BootProgressStage::SystemRuntimeStarted => 7,
            BootProgressStage::Success => 8,
            BootProgressStage::Failed => 255,
        }
    }
}

pub open spec fn progress_code(s: BootProgressStage) -> u8 {
    match s {
        BootProgressStage::KernelHandoff => 3,
        BootProgressStage::KernelStarted => 4,
        BootProgressStage::InitStarted => 5,
        BootProgressStage::InitReady => 6,
        BootProgressStage::SystemRuntimeStarted => 7,
        BootProgressStage::Success => 8,
        BootProgressStage::Failed => 255,
    }
}

/// How the system is asked to come up.
#[derive(Clone, Copy, Debug, PartialEq, Eq, Structural)]
pub enum BootMode {
    Normal,
    Detailed,
    Recovery,
    Factory,
    External,
}

pub open spec fn mode_code(m: BootMode) -> u8 {
    match m {
        BootMode::Normal => 0,
        BootMode::Detailed => 1,
        BootMode::Recovery => 2,
        BootMode::Factory => 3,
        BootMode::External => 4,
    }
}

impl BootMode {
    /// The mode's wire code.
    pub fn code(self) -> (res: u8)
        ensures
            res == mode_code(self),
    {
        match self {
            BootMode::Normal => 0,
            BootMode::Detailed => 1,
            BootMode::Recovery => 2,
            BootMode::Factory => 3,
            BootMode::External => 4,
        }
    }
}

/// Fallback and failure history passed to the system.
#[derive(Clone, Copy, Debug, Default, PartialEq, Eq, Structural)]
pub struct BootState {
    pub fallback_depth: u8,
    pub previous_attempt_failed: bool,
    pub previous_attempt_id: u64,
    pub failure_code: u32,
}

/// Identity of the prepared kernel.
#[derive(Clone, Copy, Debug, PartialEq, Eq)]
pub struct PreparedIdentity {
    pub kernel_digest: [u8; 32],
}

pub const RECORD_SYSTEM_PARTITION: u16 = 1;
pub const RECORD_DATA_PARTITION: u16 = 2;
pub const RECORD_SYSTEM_IMAGE: u16 = 3;
pub const RECORD_KERNEL_IDENTITY: u16 = 4;
pub const RECORD_LUNA_INIT_IMAGE: u16 = 5;
pub const RECORD_BOOT_MODE: u16 = 6;
pub const RECORD_BOOT_STATE: u16 = 7;
pub const RECORD_RECOVERY_DATA_IMAGE: u16 = 8;

/// Largest payload the loader hands over (64 KiB).
pub const MAX_HANDOFF_SIZE: usize = 65536;

/// `s` followed by zero bytes up to the next multiple of eight.
pub open spec fn pad8(s: Seq<u8>) -> Seq<u8> {
    s + zero_bytes(((8 - s.len() % 8) % 8) as nat)
}

/// One record: type, flags, payload length, payload, padding.
pub open spec fn record(ty: u16, flags: u16, payload: Seq<u8>) -> Seq<u8> {
    pad8(le_encode(ty as nat, 2) + le_encode(flags as nat, 2) + le_encode(payload.len(), 4) + payload)
}

/// The UTF-8 bytes of a string.
pub open spec fn utf8(s: Seq<char>) -> Seq<u8> {
    vstd::utf8::encode_utf8(s)
}

/// Payload of a partition record.
pub open spec fn partition_payload(disk: Seq<u8>, part: Seq<u8>, label: Seq<u8>) -> Seq<u8> {
    disk + part + le_encode(label.len(), 2) + le_encode(0, 2) + label
}

/// The bytes that follow `prefix` at the start of `s`, if it starts so.
pub open spec fn strip_bytes(s: Seq<u8>, prefix: Seq<u8>) -> Option<Seq<u8>> {
    if prefix.len() <= s.len() && s.subrange(0, prefix.len() as int) == prefix {
        Some(s.subrange(prefix.len() as int, s.len() as int))
    } else {
        None
    }
}

/// `/images/`.
pub open spec fn images_prefix() -> Seq<u8> {
    seq![0x2fu8, 0x69u8, 0x6du8, 0x61u8, 0x67u8, 0x65u8, 0x73u8, 0x2fu8]
}

/// `/recovery/`.
pub open spec fn recovery_prefix() -> Seq<u8> {
    seq![0x2fu8, 0x72u8, 0x65u8, 0x63u8, 0x6fu8, 0x76u8, 0x65u8, 0x72u8, 0x79u8, 0x2fu8]
}

/// `bzImage`.
pub open spec fn bzimage_bytes() -> Seq<u8> {
    seq![0x62u8, 0x7au8, 0x49u8, 0x6du8, 0x61u8, 0x67u8, 0x65u8]
}

/// Payload of the System Image record.
pub open spec fn system_image_payload(
    family: Seq<u8>,
    version: Seq<u8>,
    filename: Seq<u8>,
    manifest: Seq<u8>,
    image: Seq<u8>,
) -> Seq<u8> {
    le_encode(family.len(), 2) + le_encode(version.len(), 2) + le_encode(filename.len(), 2)
        + le_encode(0, 2) + manifest + image + family + version + filename
}

/// Payload of the kernel identity record.
pub open spec fn kernel_payload(release: Seq<u8>, artifact: Seq<u8>, digest: Seq<u8>) -> Seq<u8> {
    le_encode(release.len(), 2) + le_encode(artifact.len(), 2) + le_encode(
        bzimage_bytes().len(),
        2,
    ) + le_encode(0, 2) + digest + release + artifact + bzimage_bytes()
}

/// Payload of the luna-init record.
pub open spec fn init_payload(address: u64, size: usize, digest: Seq<u8>) -> Seq<u8> {
    le_encode(address as nat, 8) + le_encode(size as nat, 8) + digest + le_encode(0, 4) + le_encode(
        0,
        4,
    )
}

/// Payload of the boot state record.
pub open spec fn boot_state_payload(s: BootState) -> Seq<u8> {
    seq![1u8, s.fallback_depth, if s.previous_attempt_failed {
        1u8
    } else {
        0u8
    }, 0u8] + le_encode(s.previous_attempt_id as nat, 8) + le_encode(s.failure_code as nat, 4)
        + le_encode(0, 4) + le_encode(0, 4)
}

/// Payload of the recovery DATA image record.
pub open spec fn recovery_payload(version: Seq<u8>, filename: Seq<u8>, digest: Seq<u8>) -> Seq<u8> {
    le_encode(version.len(), 2) + le_encode(filename.len(), 2) + le_encode(0, 4) + digest + version
        + filename
}

/// The magic `LUNAHD01`.
pub open spec fn handoff_magic() -> Seq<u8> {
    seq![0x4cu8, 0x55u8, 0x4eu8, 0x41u8, 0x48u8, 0x44u8, 0x30u8, 0x31u8]
}

/// The finished payload: the record stream `body` (which starts with 88
/// placeholder bytes) with the header written over its first 84 bytes and
/// the checksum computed over the payload with the checksum field zeroed.
pub open spec fn with_header(body: Seq<u8>, attempt_id: u64) -> Seq<u8> {
    let total = body.len();
    let head = handoff_magic() + le_encode(1, 2) + le_encode(0, 2) + le_encode(84, 4) + le_encode(
        total,
        4,
    ) + le_encode(0, 4) + le_encode(0, 4) + le_encode(attempt_id as nat, 8) + le_encode(88, 8)
        + le_encode((total - 88) as nat, 8);
    let unsigned = splice(splice(body, 0, head), 52, zero_bytes(32));
    splice(unsigned, 52, blake3_digest(unsigned))
}

/// Everything the handoff describes.
pub struct HandoffInputs<'a> {
    pub target: &'a BootTarget,
    pub mode: BootMode,
    pub state: BootState,
    pub attempt_id: u64,
    pub system: &'a Partition,
    pub data: Option<&'a Partition>,
    pub manifest_bytes: &'a [u8],
    pub image_digest: [u8; 32],
    pub kernel: PreparedIdentity,
    pub init_address: u64,
    pub init_size: usize,
    pub init_digest: [u8; 32],
}

/// The data partition record: the partition, or an "absent" record.
pub open spec fn data_record(d: Option<&Partition>) -> Seq<u8> {
    match d {
        Some(d) => record(
            RECORD_DATA_PARTITION,
            0,
            partition_payload(d.disk_guid@, d.partition_guid@, utf8(d.label@)),
        ),
        None => record(
            RECORD_DATA_PARTITION,
            1,
            partition_payload(zero_bytes(16), zero_bytes(16), Seq::empty()),
        ),
    }
}

/// File name of the System Image under `/images/`.
pub open spec fn image_filename(t: crate::boot_target::BootTargetView) -> Option<Seq<u8>> {
    strip_bytes(utf8(t.system_image_path), images_prefix())
}

/// The partition, System Image and kernel records.
pub open spec fn identity_records(i: HandoffInputs) -> Seq<u8> {
    let t = i.target@;
    record(
        RECORD_SYSTEM_PARTITION,
        0,
        partition_payload(i.system.disk_guid@, i.system.partition_guid@, utf8(i.system.label@)),
    ) + data_record(i.data) + record(
        RECORD_SYSTEM_IMAGE,
        0,
        system_image_payload(
            utf8(t.image_family),
            utf8(t.system_version),
            image_filename(t)->0,
            blake3_digest(i.manifest_bytes@),
            i.image_digest@,
        ),
    ) + record(
        RECORD_KERNEL_IDENTITY,
        0,
        kernel_payload(utf8(t.kernel_id), utf8(t.kernel_path), i.kernel.kernel_digest@),
    )
}

/// The luna-init, boot mode and boot state records.
pub open spec fn state_records(i: HandoffInputs) -> Seq<u8> {
    record(RECORD_LUNA_INIT_IMAGE, 0, init_payload(i.init_address, i.init_size, i.init_digest@))
        + record(RECORD_BOOT_MODE, 0, seq![mode_code(i.mode)]) + record(
        RECORD_BOOT_STATE,
        0,
        boot_state_payload(i.state),
    )
}

/// Why the identity records cannot be written, if they cannot: a label or
/// identity string longer than 65535 bytes, or a System Image outside
/// `/images/`.
pub open spec fn identity_error(i: HandoffInputs) -> Option<BootError> {
    let t = i.target@;
    if utf8(i.system.label@).len() > 65535 {
        Some(BootError::Unsupported("partition label is too long"))
    } else if i.data matches Some(d) && utf8(d.label@).len() > 65535 {
        Some(BootError::Unsupported("partition label is too long"))
    } else if image_filename(t) is None {
        Some(BootError::InvalidConfig)
    } else if utf8(t.image_family).len() > 65535 || utf8(t.system_version).len() > 65535
        || image_filename(t)->0.len() > 65535 {
        Some(BootError::Unsupported("System Image identity string is too long"))
    } else if utf8(t.kernel_id).len() > 65535 || utf8(t.kernel_path).len() > 65535 {
        Some(BootError::Unsupported("kernel identity string is too long"))
    } else {
        None
    }
}

/// File name of a recovery target's DATA image under `/recovery/`.
pub open spec fn recovery_filename(t: crate::boot_target::BootTargetView) -> Option<Seq<u8>> {
    match t.recovery_data_path {
        Some(p) => strip_bytes(utf8(p), recovery_prefix()),
        None => None,
    }
}

/// The record stream for the given inputs: 88 placeholder bytes, the
/// identity records, the state records and, for a recovery target, the
/// recovery DATA image record; or why it cannot be built.
pub open spec fn handoff_body(i: HandoffInputs) -> Result<Seq<u8>, BootError> {
    let t = i.target@;
    match identity_error(i) {
        Some(e) => Err(e),
        None => {
            let base = zero_bytes(88) + identity_records(i) + state_records(i);
            if !t.is_recovery {
                Ok(base)
            } else if t.recovery_data_digest is None || recovery_filename(t) is None {
                Err(BootError::RecoveryUnavailable)
            } else if utf8(t.system_version).len() > 65535 || recovery_filename(t)->0.len() > 65535 {
                Err(BootError::Unsupported("Recovery DATA Image identity string is too long"))
            } else {
                Ok(
                    base + record(
                        RECORD_RECOVERY_DATA_IMAGE,
                        0,
                        recovery_payload(
                            utf8(t.system_version),
                            recovery_filename(t)->0,
                            t.recovery_data_digest->0,
                        ),
                    ),
                )
            }
        },
    }
}

/// The complete handoff payload, or why there is none.
pub open spec fn handoff_payload_spec(i: HandoffInputs) -> Result<Seq<u8>, BootError> {
    match handoff_body(i) {
        Err(e) => Err(e),
        Ok(body) => if body.len() > 65536 {
            Err(BootError::Unsupported("Luna boot handoff is too large"))
        } else {
            Ok(with_header(body, i.attempt_id))
        },
    }
}

fn push_bytes(out: &mut Vec<u8>, data: &[u8])
    ensures
        final(out)@ == old(out)@ + data@,
{
    let ghost start = old(out)@;
    let mut i: usize = 0;
    while i < data.len()
        invariant
            i <= data@.len(),
            start == old(out)@,
            out@ == start + data@.subrange(0, i as int),
        decreases data@.len() - i,
    {
        out.push(data[i]);
        i = i + 1;
        assert(out@ =~= start + data@.subrange(0, i as int));
    }
    assert(data@.subrange(0, data@.len() as int) =~= data@);
}

proof fn lemma_pad8_mod(prefix: Seq<u8>, s: Seq<u8>)
    requires
        prefix.len() % 8 == 0,
    ensures
        (prefix + s) + zero_bytes(((8 - s.len() % 8) % 8) as nat) == prefix + pad8(s),
        (prefix + pad8(s)).len() % 8 == 0,
{
    assert((prefix + s) + zero_bytes(((8 - s.len() % 8) % 8) as nat) =~= prefix + pad8(s));
    assert((s.len() + (8 - s.len() % 8) % 8) % 8 == 0) by (nonlinear_arith);
}

/// Appends one record; `bytes` is kept a multiple of eight long.
fn push_record(bytes: &mut Vec<u8>, ty: u16, flags: u16, payload: &[u8])
    requires
        old(bytes)@.len() % 8 == 0,
        payload@.len() <= u32::MAX,
    ensures
        final(bytes)@ == old(bytes)@ + record(ty, flags, payload@),
        final(bytes)@.len() % 8 == 0,
{
    let ghost start = old(bytes)@;
    push_le(bytes, ty as u64, 2);
    push_le(bytes, flags as u64, 2);
    push_le(bytes, payload.len() as u64, 4);
    push_bytes(bytes, payload);
    let ghost unpadded = le_encode(ty as nat, 2) + le_encode(flags as nat, 2) + le_encode(
        payload@.len(),
        4,
    ) + payload@;
    assert(bytes@ =~= start + unpadded);
    proof {
        lemma_le_encode_len(ty as nat, 2);
        lemma_le_encode_len(flags as nat, 2);
        lemma_le_encode_len(payload@.len(), 4);
    }
    let len = bytes.len();
    let mut k: usize = 0;
    let pad = (8 - len % 8) % 8;
    proof {
        assert(len % 8 == (unpadded.len() as int) % 8) by (nonlinear_arith)
            requires
                len == start.len() + unpadded.len(),
                start.len() % 8 == 0,
        ;
    }
    let ghost mid = bytes@;
    while k < pad
        invariant
            k <= pad,
            pad < 8,
            bytes@ == mid + zero_bytes(k as nat),
        decreases pad - k,
    {
        bytes.push(0);
        k = k + 1;
        assert(bytes@ =~= mid + zero_bytes(k as nat));
    }
    proof {
        lemma_pad8_mod(start, unpadded);
    }
}

fn string_bytes(s: &String) -> (res: &[u8])
    ensures
        res@ == utf8(s@),
{
    s.as_str().as_bytes()
}

/// The bytes after an ASCII-free-of-assumptions byte prefix, if present.
fn strip_prefix_bytes(s: &[u8], prefix: &[u8]) -> (res: Option<Vec<u8>>)
    ensures
        match strip_bytes(s@, prefix@) {
            Some(rest) => res matches Some(v) && v@ == rest,
            None => res is None,
        },
{
    if prefix.len() > s.len() {
        return None;
    }
    let mut i: usize = 0;
    while i < prefix.len()
        invariant
            prefix@.len() <= s@.len(),
            i <= prefix@.len(),
            forall|j: int| 0 <= j < i ==> s@[j] == prefix@[j],
        decreases prefix@.len() - i,
    {
        if s[i] != prefix[i] {
            assert(s@.subrange(0, prefix@.len() as int)[i as int] != prefix@[i as int]);
            return None;
        }
        i = i + 1;
    }
    assert(s@.subrange(0, prefix@.len() as int) =~= prefix@);
    let mut out: Vec<u8> = Vec::new();
    let mut k = prefix.len();
    while k < s.len()
        invariant
            prefix@.len() <= k <= s@.len(),
            out@ == s@.subrange(prefix@.len() as int, k as int),
        decreases s@.len() - k,
    {
        out.push(s[k]);
        k = k + 1;
        assert(out@ =~= s@.subrange(prefix@.len() as int, k as int));
    }
    Some(out)
}

fn partition_payload_exec(disk: &[u8; 16], part: &[u8; 16], label: &[u8]) -> (res: Vec<u8>)
    requires
        label@.len() <= 65535,
    ensures
        res@ == partition_payload(disk@, part@, label@),
        res@.len() <= 36 + 65535,
{
    let mut p: Vec<u8> = Vec::new();
    push_bytes(&mut p, disk.as_slice());
    push_bytes(&mut p, part.as_slice());
    push_le(&mut p, label.len() as u64, 2);
    push_le(&mut p, 0, 2);
    push_bytes(&mut p, label);
    proof {
        lemma_le_encode_len(label@.len(), 2);
        lemma_le_encode_len(0, 2);
    }
    assert(p@ =~= partition_payload(disk@, part@, label@));
    p
}

fn images_prefix_bytes() -> (res: [u8; 8])
    ensures
        res@ == images_prefix(),
{
    let b: [u8; 8] = [0x2f, 0x69, 0x6d, 0x61, 0x67, 0x65, 0x73, 0x2f];
    assert(b@ =~= images_prefix());
    b
}

fn recovery_prefix_bytes() -> (res: [u8; 10])
    ensures
        res@ == recovery_prefix(),
{
    let b: [u8; 10] = [0x2f, 0x72, 0x65, 0x63, 0x6f, 0x76, 0x65, 0x72, 0x79, 0x2f];
    assert(b@ =~= recovery_prefix());
    b
}

fn bzimage_literal() -> (res: [u8; 7])
    ensures
        res@ == bzimage_bytes(),
{
    let b: [u8; 7] = [0x62, 0x7a, 0x49, 0x6d, 0x61, 0x67, 0x65];
    assert(b@ =~= bzimage_bytes());
    b
}

fn handoff_magic_bytes() -> (res: [u8; 8])
    ensures
        res@ == handoff_magic(),
{
    let b: [u8; 8] = [0x4c, 0x55, 0x4e, 0x41, 0x48, 0x44, 0x30, 0x31];
    assert(b@ =~= handoff_magic());
    b
}

fn push_identity_records(bytes: &mut Vec<u8>, i: &HandoffInputs, filename: &[u8])
    requires
        old(bytes)@.len() % 8 == 0,
        identity_error(*i) is None,
        image_filename(i.target@) == Some(filename@),
    ensures
        final(bytes)@ == old(bytes)@ + identity_records(*i),
        final(bytes)@.len() % 8 == 0,
{
    let t = i.target;
    let ghost start = old(bytes)@;
    let sys_payload = partition_payload_exec(
        &i.system.disk_guid,
        &i.system.partition_guid,
        string_bytes(&i.system.label),
    );
    push_record(bytes, RECORD_SYSTEM_PARTITION, 0, sys_payload.as_slice());
    let ghost after_sys = bytes@;
    match i.data {
        Some(d) => {
            let dp = partition_payload_exec(&d.disk_guid, &d.partition_guid, string_bytes(&d.label));
            push_record(bytes, RECORD_DATA_PARTITION, 0, dp.as_slice());
        },
        None => {
            let zero16 = [0u8; 16];
            assert(zero16@ =~= zero_bytes(16));
            let empty: [u8; 0] = [];
            assert(empty@ =~= Seq::<u8>::empty());
            let dp = partition_payload_exec(&zero16, &zero16, empty.as_slice());
            push_record(bytes, RECORD_DATA_PARTITION, 1, dp.as_slice());
        },
    }
    assert(bytes@ == after_sys + data_record(i.data));
    let family = string_bytes(&t.image_family);
    let version = string_bytes(&t.system_version);
    let manifest_identity = hash32(i.manifest_bytes);
    let mut img: Vec<u8> = Vec::new();
    push_le(&mut img, family.len() as u64, 2);
    push_le(&mut img, version.len() as u64, 2);
    push_le(&mut img, filename.len() as u64, 2);
    push_le(&mut img, 0, 2);
    push_bytes(&mut img, manifest_identity.as_slice());
    push_bytes(&mut img, i.image_digest.as_slice());
    push_bytes(&mut img, family);
    push_bytes(&mut img, version);
    push_bytes(&mut img, filename);
    assert(img@ =~= system_image_payload(
        family@,
        version@,
        filename@,
        blake3_digest(i.manifest_bytes@),
        i.image_digest@,
    ));
    proof {
        lemma_le_encode_len(family@.len(), 2);
        lemma_le_encode_len(version@.len(), 2);
        lemma_le_encode_len(filename@.len(), 2);
        lemma_le_encode_len(0, 2);
    }
    push_record(bytes, RECORD_SYSTEM_IMAGE, 0, img.as_slice());
    let release = string_bytes(&t.kernel_id);
    let artifact = string_bytes(&t.kernel_path);
    let format = bzimage_literal();
    let mut kern: Vec<u8> = Vec::new();
    push_le(&mut kern, release.len() as u64, 2);
    push_le(&mut kern, artifact.len() as u64, 2);
    push_le(&mut kern, 7, 2);
    push_le(&mut kern, 0, 2);
    push_bytes(&mut kern, i.kernel.kernel_digest.as_slice());
    push_bytes(&mut kern, release);
    push_bytes(&mut kern, artifact);
    push_bytes(&mut kern, format.as_slice());
    assert(kern@ =~= kernel_payload(release@, artifact@, i.kernel.kernel_digest@));
    proof {
        lemma_le_encode_len(release@.len(), 2);
        lemma_le_encode_len(artifact@.len(), 2);
        lemma_le_encode_len(7, 2);
    }
    push_record(bytes, RECORD_KERNEL_IDENTITY, 0, kern.as_slice());
    assert(bytes@ =~= start + identity_records(*i));
}

fn push_state_records(bytes: &mut Vec<u8>, i: &HandoffInputs)
    requires
        old(bytes)@.len() % 8 == 0,
    ensures
        final(bytes)@ == old(bytes)@ + state_records(*i),
        final(bytes)@.len() % 8 == 0,
{
    let ghost start = old(bytes)@;
    let mut init: Vec<u8> = Vec::new();
    push_le(&mut init, i.init_address, 8);
    push_le(&mut init, i.init_size as u64, 8);
    push_bytes(&mut init, i.init_digest.as_slice());
    push_le(&mut init, 0, 4);
    push_le(&mut init, 0, 4);
    assert(init@ =~= init_payload(i.init_address, i.init_size, i.init_digest@));
    proof {
        lemma_le_encode_len(i.init_address as nat, 8);
        lemma_le_encode_len(i.init_size as nat, 8);
        lemma_le_encode_len(0, 4);
    }
    push_record(bytes, RECORD_LUNA_INIT_IMAGE, 0, init.as_slice());
    let mode = [i.mode.code()];
    assert(mode@ =~= seq![mode_code(i.mode)]);
    push_record(bytes, RECORD_BOOT_MODE, 0, mode.as_slice());
    let mut st: Vec<u8> = Vec::new();
    st.push(1);
    st.push(i.state.fallback_depth);
    st.push(if i.state.previous_attempt_failed { 1 } else { 0 });
    st.push(0);
    push_le(&mut st, i.state.previous_attempt_id, 8);
    push_le(&mut st, i.state.failure_code as u64, 4);
    push_le(&mut st, 0, 4);
    push_le(&mut st, 0, 4);
    assert(st@ =~= boot_state_payload(i.state));
    proof {
        lemma_le_encode_len(i.state.previous_attempt_id as nat, 8);
        lemma_le_encode_len(i.state.failure_code as nat, 4);
        lemma_le_encode_len(0, 4);
    }
    push_record(bytes, RECORD_BOOT_STATE, 0, st.as_slice());
    assert(bytes@ =~= start + state_records(*i));
}

/// The record stream (see [`handoff_body`]).
fn handoff_records(i: &HandoffInputs) -> (res: Result<Vec<u8>, BootError>)
    ensures
        match handoff_body(*i) {
            Ok(v) => res matches Ok(r) && r@ == v,
            Err(e) => res == Err::<Vec<u8>, BootError>(e),
        },
{
    let t = i.target;
    if string_bytes(&i.system.label).len() > 65535 {
        return Err(BootError::Unsupported("partition label is too long"));
    }
    match i.data {
        Some(d) => {
            if string_bytes(&d.label).len() > 65535 {
                return Err(BootError::Unsupported("partition label is too long"));
            }
        },
        None => {},
    }
    let images = images_prefix_bytes();
    let filename = match strip_prefix_bytes(string_bytes(&t.system_image_path), images.as_slice()) {
        Some(f) => f,
        None => return Err(BootError::InvalidConfig),
    };
    let version = string_bytes(&t.system_version);
    if string_bytes(&t.image_family).len() > 65535 || version.len() > 65535 || filename.len() > 65535 {
        return Err(BootError::Unsupported("System Image identity string is too long"));
    }
    if string_bytes(&t.kernel_id).len() > 65535 || string_bytes(&t.kernel_path).len() > 65535 {
        return Err(BootError::Unsupported("kernel identity string is too long"));
    }
    assert(identity_error(*i) is None);
    let mut bytes: Vec<u8> = Vec::new();
    let mut z: usize = 0;
    while z < 88
        invariant
            z <= 88,
            bytes@ == zero_bytes(z as nat),
        decreases 88 - z,
    {
        bytes.push(0);
        z = z + 1;
        assert(bytes@ =~= zero_bytes(z as nat));
    }
    push_identity_records(&mut bytes, i, filename.as_slice());
    push_state_records(&mut bytes, i);
    if t.is_recovery {
        let digest = match t.recovery_data_digest {
            Some(d) => d,
            None => return Err(BootError::RecoveryUnavailable),
        };
        let path = match &t.recovery_data_path {
            Some(p) => p,
            None => return Err(BootError::RecoveryUnavailable),
        };
        let recovery = recovery_prefix_bytes();
        let rfile = match strip_prefix_bytes(string_bytes(path), recovery.as_slice()) {
            Some(f) => f,
            None => return Err(BootError::RecoveryUnavailable),
        };
        if version.len() > 65535 || rfile.len() > 65535 {
            return Err(BootError::Unsupported("Recovery DATA Image identity string is too long"));
        }
        let mut rec: Vec<u8> = Vec::new();
        push_le(&mut rec, version.len() as u64, 2);
        push_le(&mut rec, rfile.len() as u64, 2);
        push_le(&mut rec, 0, 4);
        push_bytes(&mut rec, digest.as_slice());
        push_bytes(&mut rec, version);
        push_bytes(&mut rec, rfile.as_slice());
        assert(rec@ =~= recovery_payload(version@, rfile@, digest@));
        proof {
            lemma_le_encode_len(version@.len(), 2);
            lemma_le_encode_len(rfile@.len(), 2);
            lemma_le_encode_len(0, 4);
        }
        push_record(&mut bytes, RECORD_RECOVERY_DATA_IMAGE, 0, rec.as_slice());
    }
    Ok(bytes)
}

/// Writes the header and checksum over a record stream.
fn seal_payload(bytes: &mut Vec<u8>, attempt_id: u64)
    requires
        88 <= old(bytes)@.len() <= 65536,
    ensures
        final(bytes)@ == with_header(old(bytes)@, attempt_id),
{
    let total = bytes.len();
    let magic = handoff_magic_bytes();
    let mut head: Vec<u8> = Vec::new();
    push_bytes(&mut head, magic.as_slice());
    push_le(&mut head, 1, 2);
    push_le(&mut head, 0, 2);
    push_le(&mut head, 84, 4);
    push_le(&mut head, total as u64, 4);
    push_le(&mut head, 0, 4);
    push_le(&mut head, 0, 4);
    push_le(&mut head, attempt_id, 8);
    push_le(&mut head, 88, 8);
    push_le(&mut head, (total - 88) as u64, 8);
    proof {
        lemma_head_len(magic@, total as nat, attempt_id);
    }
    write_bytes_at(bytes, 0, head.as_slice());
    let zero32 = [0u8; 32];
    assert(zero32@ =~= zero_bytes(32));
    write_bytes_at(bytes, 52, zero32.as_slice());
    let sum = hash32(bytes.as_slice());
    write_bytes_at(bytes, 52, sum.as_slice());
}

/// Builds the handoff payload from its inputs.
pub fn handoff_payload(i: &HandoffInputs) -> (res: Result<Vec<u8>, BootError>)
    ensures
        match handoff_payload_spec(*i) {
            Ok(v) => res matches Ok(r) && r@ == v,
            Err(e) => res == Err::<Vec<u8>, BootError>(e),
        },
{
    let mut bytes = match handoff_records(i) {
        Ok(b) => b,
        Err(e) => return Err(e),
    };
    if bytes.len() > MAX_HANDOFF_SIZE {
        return Err(BootError::Unsupported("Luna boot handoff is too large"));
    }
    seal_payload(&mut bytes, i.attempt_id);
    Ok(bytes)
}

proof fn lemma_head_len(magic: Seq<u8>, total: nat, attempt_id: u64)
    requires
        magic.len() == 8,
    ensures
        (magic + le_encode(1, 2) + le_encode(0, 2) + le_encode(84, 4) + le_encode(total, 4)
            + le_encode(0, 4) + le_encode(0, 4) + le_encode(attempt_id as nat, 8) + le_encode(88, 8)
            + le_encode((total - 88) as nat, 8)).len() == 52,
{
    lemma_le_encode_len(1, 2);
    lemma_le_encode_len(0, 2);
    lemma_le_encode_len(84, 4);
    lemma_le_encode_len(total, 4);
    lemma_le_encode_len(0, 4);
    lemma_le_encode_len(attempt_id as nat, 8);
    lemma_le_encode_len(88, 8);
    lemma_le_encode_len((total - 88) as nat, 8);
}


/// Where the handoff landed in memory.
pub struct LunaHandoff {
    /// Physical address of the Linux `setup_data` node.
    pub address: u64,
    /// Size of the Luna payload, without the node header.
    pub size: usize,
    /// Pages reserved for the node and payload.
    pub allocation_pages: usize,
}

/// A Linux `setup_data` node: next pointer (0), type, length, then data.
pub open spec fn setup_data_node(ty: u32, data: Seq<u8>) -> Seq<u8> {
    le_encode(0, 8) + le_encode(ty as nat, 4) + le_encode(data.len(), 4) + data
}

/// Wraps a payload into a `setup_data` node of type `LUNA`.
pub fn handoff_node(payload: &[u8]) -> (res: Vec<u8>)
    requires
        payload@.len() <= u32::MAX,
    ensures
        res@ == setup_data_node(0x4c55_4e41, payload@),
{
    let mut n: Vec<u8> = Vec::new();
    push_le(&mut n, 0, 8);
    push_le(&mut n, 0x4c55_4e41, 4);
    push_le(&mut n, payload.len() as u64, 4);
    push_bytes(&mut n, payload);
    assert(n@ =~= setup_data_node(0x4c55_4e41, payload@));
    n
}

/// The progress payload: `LUNAPR01`, version 1, the stage code, the
/// attempt id at offset 12, padded to 32 bytes.
pub open spec fn progress_payload(attempt_id: u64) -> Seq<u8> {
    seq![0x4cu8, 0x55u8, 0x4eu8, 0x41u8, 0x50u8, 0x52u8, 0x30u8, 0x31u8] + seq![1u8, 3u8, 0u8, 0u8]
        + le_encode(attempt_id as nat, 8) + zero_bytes(12)
}

/// The progress `setup_data` node (type `LUNP`), starting at the
/// kernel-handoff stage.
pub fn progress_node(attempt_id: u64) -> (res: Vec<u8>)
    ensures
        res@ == setup_data_node(0x4c55_4e50, progress_payload(attempt_id)),
{
    let m: [u8; 8] = [0x4c, 0x55, 0x4e, 0x41, 0x50, 0x52, 0x30, 0x31];
    let mut p: Vec<u8> = Vec::new();
    push_bytes(&mut p, m.as_slice());
    p.push(1);
    p.push(BootProgressStage::KernelHandoff.code());
    p.push(0);
    p.push(0);
    push_le(&mut p, attempt_id, 8);
    let mut k: usize = 0;
    let ghost mid = p@;
    while k < 12
        invariant
            k <= 12,
            p@ == mid + zero_bytes(k as nat),
        decreases 12 - k,
    {
        p.push(0);
        k = k + 1;
        assert(p@ =~= mid + zero_bytes(k as nat));
    }
    assert(p@ =~= progress_payload(attempt_id));
    proof {
        lemma_le_encode_len(attempt_id as nat, 8);
    }
    handoff_node_typed(0x4c55_4e50, p.as_slice())
}

fn handoff_node_typed(ty: u32, payload: &[u8]) -> (res: Vec<u8>)
    requires
        payload@.len() <= u32::MAX,
    ensures
        res@ == setup_data_node(ty, payload@),
{
    let mut n: Vec<u8> = Vec::new();
    push_le(&mut n, 0, 8);
    push_le(&mut n, ty as u64, 4);
    push_le(&mut n, payload.len() as u64, 4);
    push_bytes(&mut n, payload);
    assert(n@ =~= setup_data_node(ty, payload@));
    n
}

/// The progress node in its allocation: one page holding the node of
/// [`progress_node`], zero-filled after it. The kernel side updates the
/// stage byte as boot proceeds.
pub struct LunaBootProgress {
    allocation_pages: usize,
    node: Vec<u8>,
}

impl View for LunaBootProgress {
    type V = Seq<u8>;

    closed spec fn view(&self) -> Seq<u8> {
        self.node@
    }
}

impl LunaBootProgress {
    /// Pages the node occupies.
    pub closed spec fn spec_pages(&self) -> nat {
        self.allocation_pages as nat
    }

    /// The page for attempt `attempt_id`, at the kernel-handoff stage.
    pub fn allocate(attempt_id: u64) -> (res: LunaBootProgress)
        ensures
            res.spec_pages() == 1,
            res@ == setup_data_node(0x4c55_4e50, progress_payload(attempt_id)) + zero_bytes(4048),
            res@.len() == 4096,
    {
        let mut node = progress_node(attempt_id);
        let ghost head = node@;
        proof {
            lemma_le_encode_len(0, 8);
            lemma_le_encode_len(0x4c55_4e50, 4);
            lemma_le_encode_len(progress_payload(attempt_id).len(), 4);
            lemma_le_encode_len(attempt_id as nat, 8);
            assert(head.len() == 48);
        }
        while node.len() < 4096
            invariant
                head.len() == 48,
                48 <= node@.len() <= 4096,
                node@ == head + zero_bytes((node@.len() - 48) as nat),
            decreases 4096 - node@.len(),
        {
            node.push(0);
            assert(node@ =~= head + zero_bytes((node@.len() - 48) as nat));
        }
        LunaBootProgress { allocation_pages: 1, node }
    }

    /// Pages the node occupies.
    pub fn allocation_pages(&self) -> (res: usize)
        ensures
            res == self.spec_pages(),
    {
        self.allocation_pages
    }

    /// The page's bytes.
    pub fn bytes(&self) -> (res: &[u8])
        ensures
            res@ == self@,
    {
        self.node.as_slice()
    }

    /// Points the node's `next` field at the following node.
    pub fn link_next(&mut self, next: u64)
        requires
            old(self)@.len() >= 8,
        ensures
            final(self)@ == splice(old(self)@, 0, le_encode(next as nat, 8)),
            final(self).spec_pages() == old(self).spec_pages(),
    {
        write_le_at(&mut self.node, 0, next, 8);
    }
}

/// Everything the final jump into the kernel needs.
pub struct KernelHandoff {
    pub kernel_load_address: u64,
    pub kernel_entry: u64,
    pub init_address: u64,
    pub init_size: usize,
    pub boot_params_address: u64,
    pub boot_params: BootParams,
    pub page_table: u64,
    pub luna_handoff_address: u64,
    pub luna_handoff_size: usize,
}

impl KernelHandoff {
    /// Ready to jump: every address and size is set (non-zero).
    pub fn is_ready(&self) -> (res: bool)
        ensures
            res == (self.kernel_load_address != 0 && self.kernel_entry != 0 && self.init_address != 0
                && self.init_size != 0 && self.boot_params_address != 0 && self.page_table != 0
                && self.luna_handoff_address != 0 && self.luna_handoff_size != 0),
    {
        self.kernel_load_address != 0 && self.kernel_entry != 0 && self.init_address != 0
            && self.init_size != 0 && self.boot_params_address != 0 && self.page_table != 0
            && self.luna_handoff_address != 0 && self.luna_handoff_size != 0
    }
}

} // verus!
