//! One boot attempt: its volatile progress through the boot stages, the
//! persistent crash marker kept in firmware storage, and the attempt
//! identifier.
//!
//! The marker answers one question that must survive a panic, a power loss
//! or a reset: did the previous boot reach success? Its payload is 56 bytes:
//! the magic `LUNABT01`, format 1, status "in progress", the attempt id
//! (little-endian, at offset 12) and a BLAKE3 checksum over the payload with
//! the checksum field zeroed (offset 24).

use vstd::prelude::*;
use crate::bytes::{le_encode, le_field, lemma_le_encode_len, lemma_le_field_of, push_le, read_le};
use crate::digest::{blake3_digest, hash32};

verus! {

/// The stages a boot passes through, in order.
#[derive(Clone, Copy, Debug, PartialEq, Eq, Structural, PartialOrd, Ord, Hash)]
pub enum BootStage {
    BootloaderLoaded,
    BootloaderCompleted,
    KernelHandoff,
    KernelStarted,
    InitStarted,
    InitReady,
    SystemRuntimeStarted,
    Success,
}

/// Position of a stage in the boot order.
pub open spec fn stage_rank(s: BootStage) -> nat {
    match s {
        BootStage::BootloaderLoaded => 1,
        BootStage::BootloaderCompleted => 2,
        BootStage::KernelHandoff => 3,
        BootStage::KernelStarted => 4,
        BootStage::InitStarted => 5,
        BootStage::InitReady => 6,
        BootStage::SystemRuntimeStarted => 7,
        BootStage::Success => 8,
    }
}

impl BootStage {
    /// The stage's position in the boot order (1 for the first stage).
    pub fn rank(self) -> (res: u8)
        ensures
            res as nat == stage_rank(self),
    {
        match self {
            BootStage::BootloaderLoaded => 1,
            BootStage::BootloaderCompleted => 2,
            BootStage::KernelHandoff => 3,
            BootStage::KernelStarted => 4,
            BootStage::InitStarted => 5,
            BootStage::InitReady => 6,
            BootStage::SystemRuntimeStarted => 7,
            BootStage::Success => 8,
        }
    }
}

/// Distinct stages have distinct positions, so the order is total.
pub proof fn lemma_stage_rank_injective(a: BootStage, b: BootStage)
    ensures
        stage_rank(a) == stage_rank(b) <==> a == b,
{
}

/// Progress of one attempt: its identifier and the furthest stage reached.
#[derive(Clone, Copy, Debug, PartialEq, Eq, Structural)]
pub struct BootAttemptProgress {
    attempt_id: u64,
    stage: BootStage,
}

impl BootAttemptProgress {
    pub closed spec fn spec_attempt_id(self) -> u64 {
        self.attempt_id
    }

    pub closed spec fn spec_stage(self) -> BootStage {
        self.stage
    }

    /// A fresh attempt, at the first stage.
    pub fn new(attempt_id: u64) -> (res: BootAttemptProgress)
        ensures
            res.spec_attempt_id() == attempt_id,
            res.spec_stage() == BootStage::BootloaderLoaded,
    {
        BootAttemptProgress { attempt_id, stage: BootStage::BootloaderLoaded }
    }

    pub fn attempt_id(self) -> (res: u64)
        ensures
            res == self.spec_attempt_id(),
    {
        self.attempt_id
    }

    pub fn stage(self) -> (res: BootStage)
        ensures
            res == self.spec_stage(),
    {
        self.stage
    }

    /// Moves to `stage` if it lies strictly after the current one; reports
    /// whether it moved. Progress never goes back.
    pub fn advance(&mut self, stage: BootStage) -> (res: bool)
        ensures
            res == (stage_rank(stage) > stage_rank(old(self).spec_stage())),
            final(self).spec_stage() == (if res {
                stage
            } else {
                old(self).spec_stage()
            }),
            final(self).spec_attempt_id() == old(self).spec_attempt_id(),
            stage_rank(final(self).spec_stage()) >= stage_rank(old(self).spec_stage()),
    {
        if stage.rank() > self.stage.rank() {
            self.stage = stage;
            true
        } else {
            false
        }
    }

    /// Whether the attempt reached the success stage.
    pub fn succeeded(self) -> (res: bool)
        ensures
            res == (self.spec_stage() == BootStage::Success),
    {
        matches!(self.stage, BootStage::Success)
    }
}

/// The boot loader's view of the current attempt.
#[derive(Clone, Copy, Debug, PartialEq, Eq, Structural)]
pub struct BootAttempt {
    progress: BootAttemptProgress,
}

impl BootAttempt {
    pub closed spec fn spec_attempt_id(self) -> u64 {
        self.progress.spec_attempt_id()
    }

    pub closed spec fn spec_stage(self) -> BootStage {
        self.progress.spec_stage()
    }

    pub fn new(attempt_id: u64) -> (res: BootAttempt)
        ensures
            res.spec_attempt_id() == attempt_id,
            res.spec_stage() == BootStage::BootloaderLoaded,
    {
        BootAttempt { progress: BootAttemptProgress::new(attempt_id) }
    }

    pub fn attempt_id(self) -> (res: u64)
        ensures
            res == self.spec_attempt_id(),
    {
        self.progress.attempt_id()
    }

    pub fn stage(self) -> (res: BootStage)
        ensures
            res == self.spec_stage(),
    {
        self.progress.stage()
    }

    /// Moves forward to `stage`; see [`BootAttemptProgress::advance`].
    pub fn advance(&mut self, stage: BootStage) -> (res: bool)
        ensures
            res == (stage_rank(stage) > stage_rank(old(self).spec_stage())),
            final(self).spec_stage() == (if res {
                stage
            } else {
                old(self).spec_stage()
            }),
            final(self).spec_attempt_id() == old(self).spec_attempt_id(),
            stage_rank(final(self).spec_stage()) >= stage_rank(old(self).spec_stage()),
    {
        self.progress.advance(stage)
    }

    pub fn succeeded(self) -> (res: bool)
        ensures
            res == (self.spec_stage() == BootStage::Success),
    {
        self.progress.succeeded()
    }
}

/// Advancing twice never ends before either target stage's predecessor:
/// after advancing to `a` and then to `b`, the attempt stands at the later
/// of the two (or where it was, if that was later still).
pub proof fn lemma_advance_reaches_latest(start: BootStage, a: BootStage, b: BootStage)
    ensures
        ({
            let s1 = if stage_rank(a) > stage_rank(start) { a } else { start };
            let s2 = if stage_rank(b) > stage_rank(s1) { b } else { s1 };
            &&& stage_rank(s2) >= stage_rank(start)
            &&& stage_rank(s2) >= stage_rank(a)
            &&& stage_rank(s2) >= stage_rank(b)
        }),
{
}

/// The marker's magic bytes, `LUNABT01`.
pub open spec fn marker_magic() -> Seq<u8> {
    seq![0x4cu8, 0x55u8, 0x4eu8, 0x41u8, 0x42u8, 0x54u8, 0x30u8, 0x31u8]
}

pub open spec fn zero_bytes(n: nat) -> Seq<u8> {
    Seq::new(n, |i: int| 0u8)
}

/// The first 24 bytes of the marker: magic, format 1, status 1 (in
/// progress), two reserved zero bytes, the attempt id and four zero bytes.
pub open spec fn marker_head(attempt_id: u64) -> Seq<u8> {
    marker_magic() + seq![1u8, 1u8, 0u8, 0u8] + le_encode(attempt_id as nat, 8) + zero_bytes(4)
}

/// The whole 56-byte marker for an attempt.
pub open spec fn marker_bytes(attempt_id: u64) -> Seq<u8> {
    marker_head(attempt_id) + blake3_digest(marker_head(attempt_id) + zero_bytes(32))
}

/// What a stored marker says: the attempt id when the payload has the right
/// size, magic, format, status and checksum; nothing otherwise.
pub open spec fn decode_marker(v: Seq<u8>) -> Option<u64> {
    if v.len() == 56 && v.subrange(0, 8) == marker_magic() && v[8] == 1u8 && v[9] == 1u8
        && blake3_digest(v.subrange(0, 24) + zero_bytes(32)) == v.subrange(24, 56) {
        Some(le_field(v, 12, 8) as u64)
    } else {
        None
    }
}

/// The seed hashed to derive the first attempt id.
pub open spec fn attempt_seed(init_address: u64, init_size: usize, kernel_digest: Seq<u8>) -> Seq<
    u8,
> {
    vstd::utf8::encode_utf8(attempt_label()) + le_encode(init_address as nat, 8) + le_encode(
        init_size as nat,
        8,
    ) + kernel_digest
}

pub open spec fn attempt_label() -> Seq<char> {
    "Project Luna boot attempt v1"@
}

/// The attempt id that follows `previous`, or that is derived from the
/// prepared init image and kernel when there was none. Never zero.
pub open spec fn next_attempt_id_spec(
    previous: Option<u64>,
    init_address: u64,
    init_size: usize,
    kernel_digest: Seq<u8>,
) -> u64 {
    match previous {
        Some(id) => if id == u64::MAX {
            u64::MAX
        } else {
            (id + 1) as u64
        },
        None => {
            let v = le_field(blake3_digest(attempt_seed(init_address, init_size, kernel_digest)), 0, 8);
            if v == 0 {
                1
            } else {
                v as u64
            }
        },
    }
}

/// The persistent marker of an attempt that has not yet been confirmed.
#[derive(Clone, Copy, Debug, PartialEq, Eq, Structural)]
pub struct BootAttemptMarker {
    pub attempt_id: u64,
}

fn push_zeros(out: &mut Vec<u8>, n: usize)
    ensures
        final(out)@ == old(out)@ + zero_bytes(n as nat),
{
    let ghost start = old(out)@;
    let mut i: usize = 0;
    while i < n
        invariant
            i <= n,
            start == old(out)@,
            out@ == start + zero_bytes(i as nat),
        decreases n - i,
    {
        out.push(0u8);
        i = i + 1;
        assert(out@ =~= start + zero_bytes(i as nat));
    }
}

fn marker_head_bytes(attempt_id: u64) -> (res: Vec<u8>)
    ensures
        res@ == marker_head(attempt_id),
{
    let mut p: Vec<u8> = Vec::new();
    p.push(0x4c);
    p.push(0x55);
    p.push(0x4e);
    p.push(0x41);
    p.push(0x42);
    p.push(0x54);
    p.push(0x30);
    p.push(0x31);
    p.push(1);
    p.push(1);
    p.push(0);
    p.push(0);
    let ghost fixed = p@;
    assert(fixed =~= marker_magic() + seq![1u8, 1u8, 0u8, 0u8]);
    push_le(&mut p, attempt_id, 8);
    push_zeros(&mut p, 4);
    p
}

proof fn lemma_marker_head_len(attempt_id: u64)
    ensures
        marker_head(attempt_id).len() == 24,
{
    lemma_le_encode_len(attempt_id as nat, 8);
}

impl BootAttemptMarker {
    /// The 56-byte payload stored for this attempt; it decodes back to the
    /// same attempt id.
    pub fn payload(attempt_id: u64) -> (res: Vec<u8>)
        ensures
            res@ == marker_bytes(attempt_id),
            res@.len() == 56,
            decode_marker(res@) == Some(attempt_id),
    {
        let head = marker_head_bytes(attempt_id);
        proof {
            lemma_marker_head_len(attempt_id);
        }
        let mut unsigned = head.clone();
        assert(unsigned@ == head@);
        push_zeros(&mut unsigned, 32);
        let sum = hash32(unsigned.as_slice());
        let mut out = head;
        let mut i: usize = 0;
        while i < 32
            invariant
                i <= 32,
                sum@.len() == 32,
                out@ == marker_head(attempt_id) + sum@.subrange(0, i as int),
            decreases 32 - i,
        {
            out.push(sum[i]);
            i = i + 1;
            assert(out@ =~= marker_head(attempt_id) + sum@.subrange(0, i as int));
        }
        proof {
            let v = out@;
            let h = marker_head(attempt_id);
            assert(sum@.subrange(0, 32) =~= sum@);
            assert(v.subrange(0, 24) =~= h);
            assert(v.subrange(24, 56) =~= sum@);
            assert(v.subrange(0, 8) =~= marker_magic());
            assert(v[8] == h[8]);
            assert(v[9] == h[9]);
            assert(v.subrange(12, 20) =~= le_encode(attempt_id as nat, 8));
            crate::bytes::lemma_pow256_values();
            lemma_le_field_of(v, 12, attempt_id as nat, 8);
        }
        out
    }

    /// Reads a stored payload: the marker it holds, or `None` for a payload
    /// of the wrong size, magic, format, status or checksum (such a payload
    /// is ignored rather than trusted).
    pub fn from_payload(value: &[u8]) -> (res: Option<BootAttemptMarker>)
        ensures
            match decode_marker(value@) {
                Some(id) => res == Some(BootAttemptMarker { attempt_id: id }),
                None => res is None,
            },
    {
        if value.len() != 56 {
            return None;
        }
        let magic: [u8; 8] = [0x4c, 0x55, 0x4e, 0x41, 0x42, 0x54, 0x30, 0x31];
        assert(magic@ =~= marker_magic());
        let mut i: usize = 0;
        while i < 8
            invariant
                i <= 8,
                value@.len() == 56,
                magic@ == marker_magic(),
                forall|j: int| 0 <= j < i ==> value@[j] == marker_magic()[j],
            decreases 8 - i,
        {
            if value[i] != magic[i] {
                assert(value@.subrange(0, 8)[i as int] != marker_magic()[i as int]);
                return None;
            }
            i = i + 1;
        }
        assert(value@.subrange(0, 8) =~= marker_magic());
        if value[8] != 1 || value[9] != 1 {
            return None;
        }
        let mut checked: Vec<u8> = Vec::new();
        let mut k: usize = 0;
        while k < 24
            invariant
                k <= 24,
                value@.len() == 56,
                checked@ == value@.subrange(0, k as int),
            decreases 24 - k,
        {
            checked.push(value[k]);
            k = k + 1;
            assert(checked@ =~= value@.subrange(0, k as int));
        }
        push_zeros(&mut checked, 32);
        let sum = hash32(checked.as_slice());
        assert(checked@ == value@.subrange(0, 24) + zero_bytes(32));
        let mut j: usize = 0;
        while j < 32
            invariant
                j <= 32,
                value@.len() == 56,
                sum@.len() == 32,
                sum@ == blake3_digest(value@.subrange(0, 24) + zero_bytes(32)),
                forall|m: int| 0 <= m < j ==> sum@[m] == value@[24 + m],
            decreases 32 - j,
        {
            if sum[j] != value[24 + j] {
                assert(value@.subrange(24, 56)[j as int] != sum@[j as int]);
                return None;
            }
            j = j + 1;
        }
        assert(sum@ =~= value@.subrange(24, 56));
        let id = read_le(value, 12, 8);
        Some(BootAttemptMarker { attempt_id: id })
    }

    /// The id for the next attempt: one more than the previous unconfirmed
    /// attempt (saturating), or, on a clean start, the first eight bytes
    /// (little-endian) of the BLAKE3 digest of the attempt label, the init
    /// image's address and size and the kernel digest. Never zero.
    pub fn next_attempt_id(
        previous: Option<BootAttemptMarker>,
        init_address: u64,
        init_size: usize,
        kernel_digest: &[u8; 32],
    ) -> (res: u64)
        ensures
            res == next_attempt_id_spec(
                match previous {
                    Some(m) => Some(m.attempt_id),
                    None => None,
                },
                init_address,
                init_size,
                kernel_digest@,
            ),
            res != 0,
    {
        if let Some(p) = previous {
            let n = p.attempt_id.saturating_add(1);
            return if n < 1 { 1 } else { n };
        }
        let label = "Project Luna boot attempt v1";
        let mut seed: Vec<u8> = Vec::new();
        let lb = label.as_bytes();
        let mut i: usize = 0;
        while i < lb.len()
            invariant
                i <= lb@.len(),
                lb@ == vstd::utf8::encode_utf8(label@),
                seed@ == lb@.subrange(0, i as int),
            decreases lb@.len() - i,
        {
            seed.push(lb[i]);
            i = i + 1;
            assert(seed@ =~= lb@.subrange(0, i as int));
        }
        assert(lb@.subrange(0, lb@.len() as int) =~= lb@);
        push_le(&mut seed, init_address, 8);
        push_le(&mut seed, init_size as u64, 8);
        let mut k: usize = 0;
        let ghost before = seed@;
        while k < 32
            invariant
                k <= 32,
                seed@ == before + kernel_digest@.subrange(0, k as int),
            decreases 32 - k,
        {
            seed.push(kernel_digest[k]);
            k = k + 1;
            assert(seed@ =~= before + kernel_digest@.subrange(0, k as int));
        }
        assert(kernel_digest@.subrange(0, 32) =~= kernel_digest@);
        assert(seed@ =~= attempt_seed(init_address, init_size, kernel_digest@));
        let sum = hash32(seed.as_slice());
        let v = read_le(&sum, 0, 8);
        if v < 1 {
            1
        } else {
            v
        }
    }
}

/// Path of the marker as Linux `efivarfs` exposes it: the variable name
/// `LunaBootAttempt` joined to the Luna vendor GUID, under the efivars
/// directory.
pub open spec fn marker_path_spec() -> Seq<char> {
    "/sys/firmware/efi/efivars"@ + "/"@ + "LunaBootAttempt"@ + "-"@
        + "9f6c5d8a-5f3b-4e24-8a3c-1d3f6e2b7c91"@
}

/// The `efivarfs` path that userspace removes to confirm a successful boot.
pub fn marker_path() -> (res: String)
    ensures
        res@ == marker_path_spec(),
{
    let mut p = String::from_str("/sys/firmware/efi/efivars");
    p.append("/");
    p.append("LunaBootAttempt");
    p.append("-");
    p.append("9f6c5d8a-5f3b-4e24-8a3c-1d3f6e2b7c91");
    p
}

} // verus!
