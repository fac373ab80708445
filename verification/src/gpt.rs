//! GPT partition lookup. Luna finds its partitions by GPT partition name and
//! carries their raw GUID bytes in the boot handoff.
//!
//! The header lies in LBA 1; its CRC-32 (with the CRC field zeroed) and the
//! CRC-32 of the whole entry array must both match. Entries are read one
//! block at a time; the partition returned is the last match inside the
//! first block of entries that holds a match.

use vstd::prelude::*;
use crate::attempt::zero_bytes;
use crate::boot_target::BootError;
use crate::bytes::{le_field, power_of_two, is_power_of_two, read_le, read_u16_le, read_u32_le, splice, write_bytes_at};

verus! {

/// The bytes `d[off..off + len]`, or `FilesystemError` where the span is
/// not inside `d`.
pub open spec fn disk_read(d: Seq<u8>, off: int, len: int) -> Result<Seq<u8>, BootError> {
    if 0 <= off && 0 <= len && off + len <= d.len() {
        Ok(d.subrange(off, off + len))
    } else {
        Err(BootError::FilesystemError)
    }
}

/// A result that came from reading the device agrees with the one its
/// bytes give whenever it is a success or the device is reliable.
pub open spec fn follows<T>(r: Result<T, BootError>, s: Result<T, BootError>, reliable: bool) -> bool {
    (r is Ok || reliable) ==> r == s
}

/// A disk read by byte offset, as the firmware's block I/O offers it.
pub trait BlockDevice {
    /// Size of one logical block in bytes.
    spec fn spec_block_size(&self) -> u64;

    /// The bytes stored on the device.
    spec fn spec_contents(&self) -> Seq<u8>;

    /// A reliable device reads every span inside its contents and refuses
    /// every other span with `FilesystemError`; any other device may also
    /// fail where the span is inside.
    spec fn spec_reliable(&self) -> bool;

    /// Size of one logical block in bytes.
    fn block_size(&self) -> (res: u64)
        ensures
            res == self.spec_block_size(),
    ;

    /// Reads `len` bytes starting at byte `offset`. What it returns is
    /// exactly the stored bytes there; reading changes nothing.
    fn read_at(&mut self, offset: u64, len: usize) -> (res: Result<Vec<u8>, BootError>)
        ensures
            final(self).spec_contents() == old(self).spec_contents(),
            final(self).spec_block_size() == old(self).spec_block_size(),
            final(self).spec_reliable() == old(self).spec_reliable(),
            res matches Ok(v) ==> offset + len <= old(self).spec_contents().len() && v@ == old(
                self,
            ).spec_contents().subrange(offset as int, offset + len),
            old(self).spec_reliable() ==> (res is Ok <==> offset + len <= old(
                self,
            ).spec_contents().len()),
            old(self).spec_reliable() ==> (res is Err ==> res == Err::<Vec<u8>, BootError>(
                BootError::FilesystemError,
            )),
    ;
}

/// A disk image held in memory.
pub struct MemoryDisk {
    pub block_size: u64,
    pub bytes: Vec<u8>,
}

impl BlockDevice for MemoryDisk {
    open spec fn spec_block_size(&self) -> u64 {
        self.block_size
    }

    open spec fn spec_contents(&self) -> Seq<u8> {
        self.bytes@
    }

    open spec fn spec_reliable(&self) -> bool {
        true
    }

    fn block_size(&self) -> (res: u64) {
        self.block_size
    }

    fn read_at(&mut self, offset: u64, len: usize) -> (res: Result<Vec<u8>, BootError>) {
        let n = self.bytes.len();
        if offset > n as u64 || len > n - offset as usize {
            return Err(BootError::FilesystemError);
        }
        let start = offset as usize;
        let mut out: Vec<u8> = Vec::new();
        let mut i: usize = 0;
        while i < len
            invariant
                n == self.bytes@.len(),
                start + len <= n,
                start == offset,
                i <= len,
                out@ == self.bytes@.subrange(start as int, start + i),
            decreases len - i,
        {
            out.push(self.bytes[start + i]);
            i = i + 1;
            assert(out@ =~= self.bytes@.subrange(start as int, start + i));
        }
        Ok(out)
    }
}

/// One CRC-32 (IEEE, reflected) shift step.
pub open spec fn crc_step(v: u32) -> u32 {
    if v & 1 != 0 {
        (v >> 1u32) ^ 0xedb8_8320u32
    } else {
        v >> 1u32
    }
}

pub open spec fn crc_steps(v: u32, k: nat) -> u32
    decreases k,
{
    if k == 0 {
        v
    } else {
        crc_step(crc_steps(v, (k - 1) as nat))
    }
}

/// The running CRC register after one more byte.
pub open spec fn crc_byte(v: u32, b: u8) -> u32 {
    crc_steps(v ^ (b as u32), 8)
}

/// The running CRC register after the bytes of `s`.
pub open spec fn crc_update(v: u32, s: Seq<u8>) -> u32
    decreases s.len(),
{
    if s.len() == 0 {
        v
    } else {
        crc_byte(crc_update(v, s.drop_last()), s.last())
    }
}

/// CRC-32 of `s` as GPT uses it.
pub open spec fn crc32(s: Seq<u8>) -> u32 {
    !crc_update(0xffff_ffffu32, s)
}

fn crc_byte_exec(v: u32, b: u8) -> (res: u32)
    ensures
        res == crc_byte(v, b),
{
    let mut x = v ^ (b as u32);
    let ghost x0 = x;
    let mut k: usize = 0;
    while k < 8
        invariant
            k <= 8,
            x == crc_steps(x0, k as nat),
            x0 == v ^ (b as u32),
        decreases 8 - k,
    {
        if x & 1 != 0 {
            x = (x >> 1) ^ 0xedb8_8320;
        } else {
            x = x >> 1;
        }
        k = k + 1;
    }
    x
}

/// Continues a CRC register over more bytes.
pub fn crc_continue(v: u32, bytes: &[u8]) -> (res: u32)
    ensures
        res == crc_update(v, bytes@),
{
    let mut x = v;
    let mut i: usize = 0;
    while i < bytes.len()
        invariant
            i <= bytes@.len(),
            x == crc_update(v, bytes@.subrange(0, i as int)),
        decreases bytes@.len() - i,
    {
        proof {
            let s = bytes@.subrange(0, i as int + 1);
            assert(s.drop_last() =~= bytes@.subrange(0, i as int));
        }
        x = crc_byte_exec(x, bytes[i]);
        i = i + 1;
    }
    assert(bytes@.subrange(0, bytes@.len() as int) =~= bytes@);
    x
}

/// CRC-32 of a byte string.
pub fn crc32_ieee(bytes: &[u8]) -> (res: u32)
    ensures
        res == crc32(bytes@),
{
    !crc_continue(0xffff_ffff, bytes)
}

/// The signature `EFI PART`.
pub open spec fn gpt_signature() -> Seq<u8> {
    seq![0x45u8, 0x46u8, 0x49u8, 0x20u8, 0x50u8, 0x41u8, 0x52u8, 0x54u8]
}

/// Block sizes the reader accepts: multiples of 512 from 512 to 4096.
pub open spec fn gpt_block_size_ok(bs: u64) -> bool {
    512 <= bs <= 4096 && bs % 512 == 0
}

/// What the reader takes from the GPT header.
#[derive(Clone, Copy, Debug, PartialEq, Eq)]
pub struct GptHeader {
    pub disk_guid: [u8; 16],
    pub entries_lba: u64,
    pub entry_count: u32,
    pub entry_size: u32,
    pub entries_crc: u32,
}

/// The header bytes covered by its CRC, with the CRC field zeroed.
pub open spec fn header_for_crc(block: Seq<u8>) -> Seq<u8> {
    splice(block.subrange(0, le_field(block, 0x0c, 4) as int), 0x10, zero_bytes(4))
}

/// Why the block at LBA 1 holds no usable GPT header, if it does not:
/// signature, header size between 92 bytes and the block, matching header
/// CRC, and an entry array of 1 to 4096 entries whose size is a power of
/// two from 128 to 4096.
pub open spec fn gpt_header_error(block: Seq<u8>) -> Option<BootError> {
    let header_size = le_field(block, 0x0c, 4);
    let count = le_field(block, 0x50, 4);
    let size = le_field(block, 0x54, 4);
    if block.len() < 92 || block.subrange(0, 8) != gpt_signature() {
        Some(BootError::InvalidFilesystem)
    } else if header_size < 92 || header_size > block.len() {
        Some(BootError::InvalidFilesystem)
    } else if crc32(header_for_crc(block)) != le_field(block, 0x10, 4) {
        Some(BootError::InvalidFilesystem)
    } else if count == 0 || count > 4096 || size < 128 || size > 4096 || !power_of_two(size as int) {
        Some(BootError::InvalidFilesystem)
    } else {
        None
    }
}

/// The header fields as they stand in the block.
pub open spec fn gpt_header_fields(block: Seq<u8>, h: GptHeader) -> bool {
    &&& h.disk_guid@ == block.subrange(0x38, 0x48)
    &&& h.entries_lba == le_field(block, 0x48, 8)
    &&& h.entry_count == le_field(block, 0x50, 4)
    &&& h.entry_size == le_field(block, 0x54, 4)
    &&& h.entries_crc == le_field(block, 0x58, 4)
}

fn copy16(b: &[u8], off: usize) -> (res: [u8; 16])
    requires
        off + 16 <= b@.len(),
    ensures
        res@ == b@.subrange(off as int, off + 16),
{
    let mut g = [0u8; 16];
    let len = b.len();
    let mut i: usize = 0;
    while i < 16
        invariant
            len == b@.len(),
            i <= 16,
            off + 16 <= b@.len(),
            g@.len() == 16,
            forall|j: int| 0 <= j < i ==> g@[j] == b@[off + j],
        decreases 16 - i,
    {
        g[i] = b[off + i];
        i = i + 1;
    }
    assert(g@ =~= b@.subrange(off as int, off + 16));
    g
}

impl GptHeader {
    /// Reads and checks the GPT header from the contents of LBA 1.
    pub fn parse(block: &[u8]) -> (res: Result<GptHeader, BootError>)
        ensures
            match gpt_header_error(block@) {
                None => res matches Ok(h) && gpt_header_fields(block@, h),
                Some(e) => res == Err::<GptHeader, BootError>(e),
            },
    {
        let len = block.len();
        if len < 92 {
            return Err(BootError::InvalidFilesystem);
        }
        let sig: [u8; 8] = [0x45, 0x46, 0x49, 0x20, 0x50, 0x41, 0x52, 0x54];
        let mut i: usize = 0;
        while i < 8
            invariant
                i <= 8,
                len == block@.len(),
                len >= 92,
                sig@ == gpt_signature(),
                forall|j: int| 0 <= j < i ==> block@[j] == gpt_signature()[j],
            decreases 8 - i,
        {
            if block[i] != sig[i] {
                assert(block@.subrange(0, 8)[i as int] != gpt_signature()[i as int]);
                return Err(BootError::InvalidFilesystem);
            }
            i = i + 1;
        }
        assert(block@.subrange(0, 8) =~= gpt_signature());
        let header_size = read_u32_le(block, 0x0c) as usize;
        if header_size < 92 || header_size > len {
            return Err(BootError::InvalidFilesystem);
        }
        let stored_crc = read_u32_le(block, 0x10);
        let mut covered: Vec<u8> = Vec::new();
        let mut k: usize = 0;
        while k < header_size
            invariant
                k <= header_size <= len,
                len == block@.len(),
                covered@ == block@.subrange(0, k as int),
            decreases header_size - k,
        {
            covered.push(block[k]);
            k = k + 1;
            assert(covered@ =~= block@.subrange(0, k as int));
        }
        let zeros: [u8; 4] = [0, 0, 0, 0];
        assert(zeros@ =~= zero_bytes(4));
        write_bytes_at(&mut covered, 0x10, zeros.as_slice());
        if crc32_ieee(covered.as_slice()) != stored_crc {
            return Err(BootError::InvalidFilesystem);
        }
        let disk_guid = copy16(block, 0x38);
        let entries_lba = read_le(block, 0x48, 8);
        let entry_count = read_u32_le(block, 0x50);
        let entry_size = read_u32_le(block, 0x54);
        if entry_count == 0 || entry_count > 4096 || entry_size < 128 || entry_size > 4096
            || !is_power_of_two(entry_size as u64) {
            return Err(BootError::InvalidFilesystem);
        }
        let entries_crc = read_u32_le(block, 0x58);
        Ok(GptHeader { disk_guid, entries_lba, entry_count, entry_size, entries_crc })
    }
}

/// A partition found in the table.
#[derive(Clone, Debug, PartialEq, Eq)]
pub struct Partition {
    pub first_lba: u64,
    pub last_lba: u64,
    /// Raw 16-byte partition GUID as stored on disk.
    pub partition_guid: [u8; 16],
    pub disk_guid: [u8; 16],
    /// ASCII form of the GPT partition name (other code units become `?`).
    pub label: String,
}

/// The bytes of a partition name: its UTF-16 code units up to the first
/// zero (at most 36), each ASCII unit kept and any other replaced by `?`.
pub open spec fn name_units(e: Seq<u8>, i: nat) -> Seq<u8>
    decreases 36 - i,
{
    if i >= 36 {
        Seq::empty()
    } else {
        let code = le_field(e, 56 + 2 * (i as int), 2);
        if code == 0 {
            Seq::empty()
        } else {
            seq![
                if code <= 0x7f {
                    code as u8
                } else {
                    0x3fu8
                },
            ] + name_units(e, i + 1)
        }
    }
}

pub open spec fn name_bytes(e: Seq<u8>) -> Seq<u8> {
    if e.len() < 128 {
        Seq::empty()
    } else {
        name_units(e, 0)
    }
}

/// ASCII lower-casing of one byte.
pub open spec fn ascii_lower(b: u8) -> u8 {
    if 0x41 <= b <= 0x5a {
        (b + 32) as u8
    } else {
        b
    }
}

/// `eq_ignore_ascii_case` on byte strings.
pub open spec fn eq_ignore_ascii_case(a: Seq<u8>, b: Seq<u8>) -> bool {
    a.len() == b.len() && forall|i: int| 0 <= i < a.len() ==> ascii_lower(a[i]) == ascii_lower(b[i])
}

/// The characters of an ASCII byte string.
pub open spec fn ascii_chars(b: Seq<u8>) -> Seq<char> {
    Seq::new(b.len(), |i: int| b[i] as char)
}

/// Entry `i` of an entry array.
pub open spec fn entry_at(entries: Seq<u8>, size: int, i: int) -> Seq<u8> {
    entries.subrange(i * size, (i + 1) * size)
}

/// An entry that is in use, well formed, and named `wanted` (ignoring
/// ASCII case).
pub open spec fn entry_matches(e: Seq<u8>, wanted: Seq<u8>) -> bool {
    &&& exists|j: int| 0 <= j < 16 && e[j] != 0u8
    &&& le_field(e, 32, 8) <= le_field(e, 40, 8)
    &&& eq_ignore_ascii_case(name_bytes(e), wanted)
}

/// Index of the entry chosen among the first `n`: each block of `per`
/// entries is searched only while nothing has been found, and a later match
/// in that block replaces an earlier one.
pub open spec fn gpt_scan(entries: Seq<u8>, size: int, per: int, wanted: Seq<u8>, n: nat) -> Option<
    int,
>
    decreases n,
{
    if n == 0 || per <= 0 {
        None
    } else {
        let j = n - 1;
        let prev = gpt_scan(entries, size, per, wanted, j as nat);
        let chunk_start = (j / per) * per;
        proof {
            assert(0 <= (j / per) * per <= j) by (nonlinear_arith)
                requires
                    j >= 0,
                    per > 0,
            ;
        }
        if gpt_scan(entries, size, per, wanted, chunk_start as nat) is None && entry_matches(
            entry_at(entries, size, j),
            wanted,
        ) {
            Some(j)
        } else {
            prev
        }
    }
}

/// The partition made from entry `e` of a disk with GUID `disk`.
pub open spec fn partition_of(e: Seq<u8>, disk: Seq<u8>, p: Partition) -> bool {
    &&& p.first_lba == le_field(e, 32, 8)
    &&& p.last_lba == le_field(e, 40, 8)
    &&& p.partition_guid@ == e.subrange(16, 32)
    &&& p.disk_guid@ == disk
    &&& p.label@ == ascii_chars(name_bytes(e))
}

fn ascii_lower_exec(b: u8) -> (res: u8)
    ensures
        res == ascii_lower(b),
{
    if 0x41 <= b && b <= 0x5a {
        b + 32
    } else {
        b
    }
}

/// Decodes the name of one entry.
fn partition_name_bytes(e: &[u8]) -> (res: Vec<u8>)
    ensures
        res@ == name_bytes(e@),
{
    let mut out: Vec<u8> = Vec::new();
    if e.len() < 128 {
        return out;
    }
    let mut i: usize = 0;
    while i < 36
        invariant
            i <= 36,
            e@.len() >= 128,
            out@ + name_units(e@, i as nat) == name_units(e@, 0),
        decreases 36 - i,
    {
        let code = read_u16_le(e, 56 + 2 * i);
        if code == 0 {
            assert(out@ =~= out@ + name_units(e@, i as nat));
            return out;
        }
        let ghost before = out@;
        let b: u8 = if code <= 0x7f {
            code as u8
        } else {
            0x3f
        };
        out.push(b);
        assert(before + name_units(e@, i as nat) =~= out@ + name_units(e@, (i + 1) as nat));
        i = i + 1;
    }
    assert(out@ =~= out@ + name_units(e@, 36));
    out
}

fn bytes_eq_ignore_ascii_case(a: &[u8], b: &[u8]) -> (res: bool)
    ensures
        res == eq_ignore_ascii_case(a@, b@),
{
    if a.len() != b.len() {
        return false;
    }
    let mut i: usize = 0;
    while i < a.len()
        invariant
            a@.len() == b@.len(),
            i <= a@.len(),
            forall|j: int| 0 <= j < i ==> ascii_lower(a@[j]) == ascii_lower(b@[j]),
        decreases a@.len() - i,
    {
        if ascii_lower_exec(a[i]) != ascii_lower_exec(b[i]) {
            return false;
        }
        i = i + 1;
    }
    true
}

fn ascii_string(b: &[u8]) -> (res: String)
    ensures
        res@ == ascii_chars(b@),
{
    let mut s = String::new();
    let mut i: usize = 0;
    while i < b.len()
        invariant
            i <= b@.len(),
            s@ == ascii_chars(b@).subrange(0, i as int),
        decreases b@.len() - i,
    {
        crate::text::string_push(&mut s, b[i] as char);
        i = i + 1;
        assert(s@ =~= ascii_chars(b@).subrange(0, i as int));
    }
    assert(ascii_chars(b@).subrange(0, b@.len() as int) =~= ascii_chars(b@));
    s
}

fn entry_matches_exec(e: &[u8], wanted: &[u8]) -> (res: bool)
    requires
        e@.len() >= 128,
    ensures
        res == entry_matches(e@, wanted@),
{
    let mut used = false;
    let mut j: usize = 0;
    while j < 16
        invariant
            j <= 16,
            e@.len() >= 128,
            used == exists|k: int| 0 <= k < j && e@[k] != 0u8,
        decreases 16 - j,
    {
        if e[j] != 0 {
            used = true;
        }
        j = j + 1;
    }
    if !used {
        return false;
    }
    let first = read_le(e, 32, 8);
    let last = read_le(e, 40, 8);
    if first > last {
        return false;
    }
    let name = partition_name_bytes(e);
    bytes_eq_ignore_ascii_case(name.as_slice(), wanted)
}

pub(crate) fn slice_copy(b: &[u8], start: usize, end: usize) -> (res: Vec<u8>)
    requires
        start <= end <= b@.len(),
    ensures
        res@ == b@.subrange(start as int, end as int),
{
    let mut out: Vec<u8> = Vec::new();
    let mut i = start;
    while i < end
        invariant
            start <= i <= end <= b@.len(),
            out@ == b@.subrange(start as int, i as int),
        decreases end - i,
    {
        out.push(b[i]);
        i = i + 1;
        assert(out@ =~= b@.subrange(start as int, i as int));
    }
    out
}

/// Searching the entry array of a checked header: the array's CRC must
/// match; then the chosen entry (see [`gpt_scan`]) or `TargetNotFound`.
pub open spec fn gpt_find_ok(h: GptHeader, entries: Seq<u8>, per: int, wanted: Seq<u8>, res: Result<
    Partition,
    BootError,
>) -> bool {
    if crc32(entries) != h.entries_crc {
        res == Err::<Partition, BootError>(BootError::InvalidFilesystem)
    } else {
        match gpt_scan(entries, h.entry_size as int, per, wanted, h.entry_count as nat) {
            None => res == Err::<Partition, BootError>(BootError::TargetNotFound),
            Some(i) => res matches Ok(p) && partition_of(
                entry_at(entries, h.entry_size as int, i),
                h.disk_guid@,
                p,
            ),
        }
    }
}

/// Entries read per block: as many as fit, at least one.
pub open spec fn entries_per_block(bs: u64, entry_size: nat) -> nat {
    if bs as nat / entry_size < 1 {
        1
    } else {
        bs as nat / entry_size
    }
}

/// The outcome of looking up `wanted` on a disk with bytes `d` and block
/// size `bs`: the block size must be a multiple of 512 from 512 to 4096;
/// the header is the block at LBA 1 (see [`GptHeader::parse`]); the entry
/// array is read whole from its LBA and searched as [`gpt_find`] states.
pub open spec fn gpt_disk_ok(d: Seq<u8>, bs: u64, wanted: Seq<u8>, res: Result<Partition, BootError>) -> bool {
    if !gpt_block_size_ok(bs) {
        res == Err::<Partition, BootError>(BootError::Unsupported("unsupported GPT block size"))
    } else {
        match disk_read(d, bs as int, bs as int) {
            Err(e) => res == Err::<Partition, BootError>(e),
            Ok(block) => match gpt_header_error(block) {
                Some(e) => res == Err::<Partition, BootError>(e),
                None => {
                    let offset = le_field(block, 0x48, 8) * bs;
                    let total = le_field(block, 0x50, 4) * le_field(block, 0x54, 4);
                    if offset > u64::MAX || offset + total > u64::MAX {
                        res == Err::<Partition, BootError>(BootError::FilesystemError)
                    } else {
                        match disk_read(d, offset as int, total as int) {
                            Err(e) => res == Err::<Partition, BootError>(e),
                            Ok(entries) => exists|h: GptHeader|
                                #[trigger] gpt_header_fields(block, h) && gpt_find_ok(
                                    h,
                                    entries,
                                    entries_per_block(bs, le_field(block, 0x54, 4)) as int,
                                    wanted,
                                    res,
                                ),
                        }
                    }
                },
            },
        }
    }
}

/// Searches a complete entry array for the partition named `wanted`,
/// `per` entries per read block.
pub fn gpt_find(header: &GptHeader, entries: &[u8], per: usize, wanted: &[u8]) -> (res: Result<
    Partition,
    BootError,
>)
    requires
        entries@.len() == header.entry_count * header.entry_size,
        header.entry_count <= 4096,
        128 <= header.entry_size <= 4096,
        per >= 1,
    ensures
        gpt_find_ok(*header, entries@, per as int, wanted@, res),
{
    let count = header.entry_count as usize;
    let size = header.entry_size as usize;
    let mut found: Option<Partition> = None;
    let ghost mut found_index: Option<int> = None;
    let mut open = true;
    let elen = entries.len();
    let mut i: usize = 0;
    while i < count
        invariant
            elen == entries@.len(),
            count == header.entry_count,
            size == header.entry_size,
            entries@.len() == count * size,
            count <= 4096,
            128 <= size <= 4096,
            per >= 1,
            i <= count,
            found_index == gpt_scan(entries@, size as int, per as int, wanted@, i as nat),
            i > 0 ==> open == (gpt_scan(
                entries@,
                size as int,
                per as int,
                wanted@,
                (((i - 1) / per as int) * per) as nat,
            ) is None),
            match found_index {
                None => found is None,
                Some(k) => found matches Some(p) && partition_of(
                    entry_at(entries@, size as int, k),
                    header.disk_guid@,
                    p,
                ),
            },
        decreases count - i,
    {
        if i % per == 0 {
            open = found.is_none();
            proof {
                assert((i as int / per as int) * per == i as int) by (nonlinear_arith)
                    requires
                        i % per == 0,
                        per >= 1,
                ;
            }
        } else {
            proof {
                assert(((i as int - 1) / per as int) == (i as int / per as int)) by (nonlinear_arith)
                    requires
                        i % per != 0,
                        per >= 1,
                        i >= 1,
                ;
            }
        }
        assert((i as int) * (size as int) + size <= count * size) by (nonlinear_arith)
            requires
                i < count,
        ;
        assert((i as int + 1) * (size as int) == (i as int) * (size as int) + size) by (nonlinear_arith);
        let start = i * size;
        let e = slice_copy(entries, start, start + size);
        assert(e@ == entry_at(entries@, size as int, i as int));
        if open && entry_matches_exec(e.as_slice(), wanted) {
            let first = read_le(e.as_slice(), 32, 8);
            let last = read_le(e.as_slice(), 40, 8);
            let partition_guid = copy16(e.as_slice(), 16);
            let name = partition_name_bytes(e.as_slice());
            let label = ascii_string(name.as_slice());
            found = Some(Partition { first_lba: first, last_lba: last, partition_guid, disk_guid: header.disk_guid, label });
            proof {
                found_index = Some(i as int);
            }
        }
        i = i + 1;
    }
    if crc32_ieee(entries) != header.entries_crc {
        return Err(BootError::InvalidFilesystem);
    }
    match found {
        Some(p) => Ok(p),
        None => Err(BootError::TargetNotFound),
    }
}

/// Finds the partition named `wanted` (ASCII case ignored) on `device`.
/// The block size must be a multiple of 512 from 512 to 4096; the header
/// and entry array are then checked as [`GptHeader::parse`] and
/// [`gpt_find`] state, over the bytes the device returned.
pub fn find_named_partition<D: BlockDevice>(device: &mut D, wanted: &str) -> (res: Result<
    Partition,
    BootError,
>)
    ensures
        !gpt_block_size_ok(old(device).spec_block_size()) ==> res == Err::<Partition, BootError>(
            BootError::Unsupported("unsupported GPT block size"),
        ),
        res matches Ok(p) ==> exists|n: Seq<u8>|
            p.label@ == ascii_chars(n) && eq_ignore_ascii_case(n, vstd::utf8::encode_utf8(wanted@)),
        (res is Ok || old(device).spec_reliable()) ==> gpt_disk_ok(
            old(device).spec_contents(),
            old(device).spec_block_size(),
            vstd::utf8::encode_utf8(wanted@),
            res,
        ),
        final(device).spec_contents() == old(device).spec_contents(),
        final(device).spec_block_size() == old(device).spec_block_size(),
        final(device).spec_reliable() == old(device).spec_reliable(),
{
    let ghost d = device.spec_contents();
    let ghost rel = device.spec_reliable();
    let bs = device.block_size();
    if bs < 512 || bs > 4096 || bs % 512 != 0 {
        return Err(BootError::Unsupported("unsupported GPT block size"));
    }
    let block = match device.read_at(bs, bs as usize) {
        Ok(b) => b,
        Err(e) => return Err(e),
    };
    let header = match GptHeader::parse(block.as_slice()) {
        Ok(h) => h,
        Err(e) => return Err(e),
    };
    let entry_size = header.entry_size as usize;
    let count = header.entry_count as usize;
    let ghost block_view = block@;
    let entries_offset = match header.entries_lba.checked_mul(bs) {
        Some(v) => v,
        None => return Err(BootError::FilesystemError),
    };
    assert(count * entry_size <= 4096 * 4096) by (nonlinear_arith)
        requires
            count <= 4096,
            entry_size <= 4096,
    ;
    let total = count * entry_size;
    if entries_offset > u64::MAX - total as u64 {
        return Err(BootError::FilesystemError);
    }
    let per_block = bs as usize / entry_size;
    let per = if per_block < 1 {
        1
    } else {
        per_block
    };
    let mut entries: Vec<u8> = Vec::new();
    let mut index: usize = 0;
    while index < count
        invariant
            count == header.entry_count,
            entry_size == header.entry_size,
            count <= 4096,
            128 <= entry_size <= 4096,
            per >= 1,
            index <= count,
            entries@.len() == index * entry_size,
            entries_offset + count * entry_size <= u64::MAX,
            gpt_block_size_ok(old(device).spec_block_size()),
            device.spec_contents() == d,
            device.spec_reliable() == rel,
            device.spec_block_size() == old(device).spec_block_size(),
            d == old(device).spec_contents(),
            rel == old(device).spec_reliable(),
            index > 0 ==> entries_offset + index * entry_size <= d.len() && entries@ == d.subrange(
                entries_offset as int,
                entries_offset + index * entry_size,
            ),
            bs + bs <= d.len(),
            bs == old(device).spec_block_size(),
            per == entries_per_block(bs, entry_size as nat),
            gpt_header_error(block_view) is None,
            gpt_header_fields(block_view, header),
            block_view == d.subrange(bs as int, bs + bs),
            entries_offset == header.entries_lba * bs,
        decreases count - index,
    {
        let n = if count - index < per {
            count - index
        } else {
            per
        };
        assert((index + n) * entry_size <= count * entry_size) by (nonlinear_arith)
            requires
                index + n <= count,
        ;
        assert((index + n) * entry_size == index * entry_size + n * entry_size) by (nonlinear_arith);
        assert(count * entry_size <= 4096 * 4096) by (nonlinear_arith)
            requires
                count <= 4096,
                entry_size <= 4096,
        ;
        let offset = entries_offset + (index * entry_size) as u64;
        let raw = match device.read_at(offset, n * entry_size) {
            Ok(r) => r,
            Err(e) => {
                proof {
                    if rel {
                        assert(offset + n * entry_size <= entries_offset + count * entry_size);
                    }
                }
                return Err(e);
            },
        };
        let mut k: usize = 0;
        let ghost before = entries@;
        while k < raw.len()
            invariant
                k <= raw@.len(),
                entries@ == before + raw@.subrange(0, k as int),
            decreases raw@.len() - k,
        {
            entries.push(raw[k]);
            k = k + 1;
            assert(entries@ =~= before + raw@.subrange(0, k as int));
        }
        proof {
            if index > 0 {
                assert(d.subrange(entries_offset as int, entries_offset + index * entry_size) + d.subrange(
                    offset as int,
                    offset + n * entry_size,
                ) =~= d.subrange(entries_offset as int, entries_offset + (index + n) * entry_size));
            } else {
                assert(raw@.subrange(0, raw@.len() as int) =~= raw@);
                assert(entries@ =~= d.subrange(entries_offset as int, entries_offset + (index + n) * entry_size));
            }
        }
        index = index + n;
    }
    let wanted_bytes = wanted.as_bytes();
    let res = gpt_find(&header, entries.as_slice(), per, wanted_bytes);
    proof {
        if res is Ok {
            let p = res->Ok_0;
            let i = gpt_scan(entries@, entry_size as int, per as int, wanted_bytes@, count as nat)->0;
            lemma_gpt_scan_matches(entries@, entry_size as int, per as int, wanted_bytes@, count as nat);
            let n = name_bytes(entry_at(entries@, entry_size as int, i));
            assert(p.label@ == ascii_chars(n) && eq_ignore_ascii_case(n, wanted_bytes@));
        }
    }
    res
}

proof fn lemma_gpt_scan_matches(entries: Seq<u8>, size: int, per: int, wanted: Seq<u8>, n: nat)
    ensures
        gpt_scan(entries, size, per, wanted, n) matches Some(i) ==> entry_matches(
            entry_at(entries, size, i),
            wanted,
        ),
    decreases n,
{
    if n > 0 && per > 0 {
        lemma_gpt_scan_matches(entries, size, per, wanted, (n - 1) as nat);
    }
}

/// The partition named `system`.
pub fn find_system_partition<D: BlockDevice>(device: &mut D) -> (res: Result<Partition, BootError>)
    ensures
        res matches Ok(p) ==> exists|n: Seq<u8>|
            p.label@ == ascii_chars(n) && eq_ignore_ascii_case(n, vstd::utf8::encode_utf8("system"@)),
        (res is Ok || old(device).spec_reliable()) ==> gpt_disk_ok(
            old(device).spec_contents(),
            old(device).spec_block_size(),
            vstd::utf8::encode_utf8("system"@),
            res,
        ),
        final(device).spec_contents() == old(device).spec_contents(),
        final(device).spec_reliable() == old(device).spec_reliable(),
{
    find_named_partition(device, "system")
}

/// The partition named `data`.
pub fn find_data_partition<D: BlockDevice>(device: &mut D) -> (res: Result<Partition, BootError>)
    ensures
        res matches Ok(p) ==> exists|n: Seq<u8>|
            p.label@ == ascii_chars(n) && eq_ignore_ascii_case(n, vstd::utf8::encode_utf8("data"@)),
        (res is Ok || old(device).spec_reliable()) ==> gpt_disk_ok(
            old(device).spec_contents(),
            old(device).spec_block_size(),
            vstd::utf8::encode_utf8("data"@),
            res,
        ),
        final(device).spec_contents() == old(device).spec_contents(),
        final(device).spec_reliable() == old(device).spec_reliable(),
{
    find_named_partition(device, "data")
}

} // verus!
