//! Linux x86_64 boot protocol: the bzImage setup header and the zero page
//! (`struct boot_params`) handed to the kernel.
//!
//! Offsets follow the Linux x86 boot protocol; the loader uses the 64-bit
//! entry directly.

use vstd::prelude::*;
use crate::boot_target::BootError;
use crate::bytes::{
    le_encode, le_field, power_of_two, is_power_of_two, read_le, read_u16_le, read_u32_le, splice,
    write_bytes_at, write_le_at, lemma_le_encode_len,
};

verus! {

/// The fields of the bzImage setup header that the loader uses.
#[derive(Clone, Copy, Debug, PartialEq, Eq, Structural)]
pub struct LinuxSetupHeader {
    pub setup_sects: u8,
    pub boot_flag: u16,
    pub version: u16,
    pub loadflags: u8,
    pub kernel_alignment: u32,
    pub relocatable_kernel: bool,
    pub min_alignment: u8,
    pub xloadflags: u16,
    pub cmdline_size: u32,
    pub payload_offset: u32,
    pub payload_length: u32,
    pub initrd_addr_max: u32,
    pub pref_address: u64,
    pub init_size: u32,
    pub handover_offset: u32,
}

/// The header fields as they stand in the image bytes.
pub open spec fn header_fields(b: Seq<u8>) -> LinuxSetupHeader {
    LinuxSetupHeader {
        setup_sects: b[0x1f1],
        boot_flag: le_field(b, 0x1fe, 2) as u16,
        version: le_field(b, 0x206, 2) as u16,
        loadflags: b[0x211],
        kernel_alignment: le_field(b, 0x230, 4) as u32,
        relocatable_kernel: b[0x234] != 0,
        min_alignment: b[0x235],
        xloadflags: le_field(b, 0x236, 2) as u16,
        cmdline_size: le_field(b, 0x238, 4) as u32,
        payload_offset: le_field(b, 0x248, 4) as u32,
        payload_length: le_field(b, 0x24c, 4) as u32,
        initrd_addr_max: le_field(b, 0x22c, 4) as u32,
        pref_address: le_field(b, 0x258, 8) as u64,
        init_size: le_field(b, 0x260, 4) as u32,
        handover_offset: le_field(b, 0x264, 4) as u32,
    }
}

/// Size in bytes of the real-mode setup code: `setup_sects` sectors (4 when
/// the field is zero) plus the boot sector.
pub open spec fn setup_size_spec(setup_sects: u8) -> int {
    ((if setup_sects == 0 {
        4
    } else {
        setup_sects as int
    }) + 1) * 512
}

/// The "HdrS" signature.
pub open spec fn hdrs_magic() -> nat {
    0x5372_6448
}

/// What parsing a kernel image yields: the header, or why the image cannot
/// be booted (too short, no `HdrS` magic, protocol before 2.12, bad boot
/// flag, not relocatable, zero `init_size`, alignment not a power of two,
/// empty payload, or a payload that ends past the image).
pub open spec fn setup_header_result(b: Seq<u8>) -> Result<LinuxSetupHeader, BootError> {
    if b.len() < 0x268 || le_field(b, 0x202, 4) != hdrs_magic() {
        Err(BootError::InvalidKernel)
    } else if le_field(b, 0x206, 2) < 0x020c {
        Err(BootError::Unsupported("Linux boot protocol < 2.12"))
    } else {
        let h = header_fields(b);
        if h.boot_flag != 0xaa55 || !h.relocatable_kernel || h.init_size == 0
            || !power_of_two(h.kernel_alignment as int) || h.payload_length == 0
            || setup_size_spec(h.setup_sects) + h.payload_offset + h.payload_length > b.len() {
            Err(BootError::InvalidKernel)
        } else {
            Ok(h)
        }
    }
}

fn read_u64_le(b: &[u8], off: usize) -> (res: u64)
    requires
        off + 8 <= b@.len(),
    ensures
        res as nat == le_field(b@, off as int, 8),
{
    read_le(b, off, 8)
}

impl LinuxSetupHeader {
    /// Parses and checks the setup header of a bzImage.
    pub fn parse(image: &[u8]) -> (res: Result<LinuxSetupHeader, BootError>)
        ensures
            res == setup_header_result(image@),
    {
        if image.len() < 0x268 {
            return Err(BootError::InvalidKernel);
        }
        if read_u32_le(image, 0x202) != 0x5372_6448 {
            return Err(BootError::InvalidKernel);
        }
        let version = read_u16_le(image, 0x206);
        if version < 0x020c {
            return Err(BootError::Unsupported("Linux boot protocol < 2.12"));
        }
        let setup_sects = image[0x1f1];
        let boot_flag = read_u16_le(image, 0x1fe);
        let loadflags = image[0x211];
        let kernel_alignment = read_u32_le(image, 0x230);
        let relocatable_kernel = image[0x234] != 0;
        let min_alignment = image[0x235];
        let xloadflags = read_u16_le(image, 0x236);
        let cmdline_size = read_u32_le(image, 0x238);
        let initrd_addr_max = read_u32_le(image, 0x22c);
        let payload_offset = read_u32_le(image, 0x248);
        let payload_length = read_u32_le(image, 0x24c);
        let pref_address = read_u64_le(image, 0x258);
        let init_size = read_u32_le(image, 0x260);
        let handover_offset = read_u32_le(image, 0x264);
        let h = LinuxSetupHeader {
            setup_sects,
            boot_flag,
            version,
            loadflags,
            kernel_alignment,
            relocatable_kernel,
            min_alignment,
            xloadflags,
            cmdline_size,
            payload_offset,
            payload_length,
            initrd_addr_max,
            pref_address,
            init_size,
            handover_offset,
        };
        assert(h == header_fields(image@));
        if boot_flag != 0xaa55 || !relocatable_kernel || init_size == 0 {
            return Err(BootError::InvalidKernel);
        }
        if kernel_alignment == 0 || !is_power_of_two(kernel_alignment as u64) {
            return Err(BootError::InvalidKernel);
        }
        if payload_length == 0 {
            return Err(BootError::InvalidKernel);
        }
        let setup_size = Self::setup_size_from(setup_sects);
        let end: u64 = setup_size as u64 + payload_offset as u64 + payload_length as u64;
        if end > image.len() as u64 {
            return Err(BootError::InvalidKernel);
        }
        Ok(h)
    }

    /// Size of the real-mode setup code for a given `setup_sects`.
    pub fn setup_size_from(setup_sects: u8) -> (res: usize)
        ensures
            res as int == setup_size_spec(setup_sects),
    {
        let sectors: usize = if setup_sects == 0 {
            4
        } else {
            setup_sects as usize
        };
        (sectors + 1) * 512
    }

    pub fn setup_size(&self) -> (res: usize)
        ensures
            res as int == setup_size_spec(self.setup_sects),
    {
        Self::setup_size_from(self.setup_sects)
    }

    /// File offset of the protected-mode part of the image.
    pub fn protected_mode_offset(&self) -> (res: usize)
        ensures
            res as int == setup_size_spec(self.setup_sects),
    {
        self.setup_size()
    }

    /// The 64-bit entry point lies 0x200 bytes into the loaded kernel.
    pub fn entry_offset(&self) -> (res: usize)
        ensures
            res == 0x200,
    {
        0x200
    }

    /// Whether the kernel may be loaded above 4 GiB (`XLF_CAN_BE_LOADED_ABOVE_4G`).
    pub fn supports_above_4g(&self) -> (res: bool)
        ensures
            res == (self.xloadflags & 2 != 0),
    {
        self.xloadflags & 2 != 0
    }
}

/// One E820 memory-map entry.
#[derive(Clone, Copy, Debug, Default, PartialEq, Eq, Structural)]
pub struct E820Entry {
    pub addr: u64,
    pub size: u64,
    pub typ: u32,
    pub reserved: u32,
}

/// The 20-byte zero-page encoding of an entry: address, size, type.
pub open spec fn e820_bytes(e: E820Entry) -> Seq<u8> {
    le_encode(e.addr as nat, 8) + le_encode(e.size as nat, 8) + le_encode(e.typ as nat, 4)
}

/// Size of the zero page.
pub const BOOT_PARAMS_SIZE: usize = 4096;

/// Most entries the zero page's E820 table holds.
pub const E820_MAX_ENTRIES: usize = 128;

/// Highest address at which the kernel command line may start.
pub const LOW_MEMORY_CMDLINE_MAX: u64 = 0x9_ffff;

/// The zero page (`struct boot_params`), built in memory before it is
/// copied to where the kernel reads it.
pub struct BootParams {
    bytes: Vec<u8>,
}

impl View for BootParams {
    type V = Seq<u8>;

    closed spec fn view(&self) -> Seq<u8> {
        self.bytes@
    }
}

impl BootParams {
    /// A zero-filled page.
    pub fn zeroed() -> (res: BootParams)
        ensures
            res@ == crate::attempt::zero_bytes(4096),
            res@.len() == 4096,
    {
        let mut bytes: Vec<u8> = Vec::new();
        let mut i: usize = 0;
        while i < BOOT_PARAMS_SIZE
            invariant
                i <= 4096,
                bytes@ == crate::attempt::zero_bytes(i as nat),
            decreases 4096 - i,
        {
            bytes.push(0);
            i = i + 1;
            assert(bytes@ =~= crate::attempt::zero_bytes(i as nat));
        }
        BootParams { bytes }
    }

    /// The page's bytes.
    pub fn as_bytes(&self) -> (res: &[u8])
        requires
            self@.len() == 4096,
        ensures
            res@ == self@,
            res@.len() == 4096,
    {
        self.bytes.as_slice()
    }

    /// Copies the kernel's setup header (bytes `0x1f1..0x290`) into the page.
    pub fn copy_setup_header(&mut self, kernel: &[u8]) -> (res: Result<(), BootError>)
        requires
            old(self)@.len() == 4096,
        ensures
            final(self)@.len() == 4096,
            kernel@.len() < 0x290 ==> res == Err::<(), BootError>(BootError::InvalidKernel)
                && final(self)@ == old(self)@,
            kernel@.len() >= 0x290 ==> res is Ok && final(self)@ == splice(
                old(self)@,
                0x1f1,
                kernel@.subrange(0x1f1, 0x290),
            ),
    {
        if kernel.len() < 0x290 {
            return Err(BootError::InvalidKernel);
        }
        let mut header: Vec<u8> = Vec::new();
        let mut i: usize = 0x1f1;
        while i < 0x290
            invariant
                0x1f1 <= i <= 0x290,
                kernel@.len() >= 0x290,
                header@ == kernel@.subrange(0x1f1, i as int),
            decreases 0x290 - i,
        {
            header.push(kernel[i]);
            i = i + 1;
            assert(header@ =~= kernel@.subrange(0x1f1, i as int));
        }
        write_bytes_at(&mut self.bytes, 0x1f1, header.as_slice());
        Ok(())
    }

    /// Sets the boot loader type byte (`0x210`).
    pub fn set_loader_type(&mut self, value: u8)
        requires
            old(self)@.len() == 4096,
        ensures
            final(self)@.len() == 4096,
            final(self)@ == old(self)@.update(0x210, value),
    {
        self.bytes.set(0x210, value);
    }

    /// Sets the `loadflags` byte (`0x211`).
    pub fn set_loadflags(&mut self, value: u8)
        requires
            old(self)@.len() == 4096,
        ensures
            final(self)@.len() == 4096,
            final(self)@ == old(self)@.update(0x211, value),
    {
        self.bytes.set(0x211, value);
    }

    /// Advertises the setup heap: sets `CAN_USE_HEAP` in `loadflags` and
    /// puts the heap end pointer `0xde00` at `0x224`.
    pub fn enable_setup_heap(&mut self)
        requires
            old(self)@.len() == 4096,
        ensures
            final(self)@.len() == 4096,
            final(self)@ == splice(
                old(self)@.update(0x211, old(self)@[0x211] | 0x80),
                0x224,
                le_encode(0xde00, 2),
            ),
    {
        let flags = self.bytes[0x211] | 0x80;
        self.bytes.set(0x211, flags);
        write_le_at(&mut self.bytes, 0x224, 0xde00, 2);
        proof {
            lemma_le_encode_len(0xde00, 2);
        }
    }

    /// Points the kernel at its command line. The address must lie below
    /// `0xA0000`; the extended pointer is cleared and the low pointer set.
    pub fn set_cmdline(&mut self, address: u64) -> (res: Result<(), BootError>)
        requires
            old(self)@.len() == 4096,
        ensures
            final(self)@.len() == 4096,
            address > LOW_MEMORY_CMDLINE_MAX ==> res == Err::<(), BootError>(
                BootError::Unsupported("Linux x86_64 command line must reside below 0xA0000"),
            ) && final(self)@ == old(self)@,
            address <= LOW_MEMORY_CMDLINE_MAX ==> res is Ok && final(self)@ == splice(
                splice(old(self)@, 0xc8, le_encode(0, 4)),
                0x228,
                le_encode(address as nat, 4),
            ),
    {
        if address > LOW_MEMORY_CMDLINE_MAX {
            return Err(BootError::Unsupported("Linux x86_64 command line must reside below 0xA0000"));
        }
        write_le_at(&mut self.bytes, 0xc8, 0, 4);
        proof {
            lemma_le_encode_len(0, 4);
        }
        write_le_at(&mut self.bytes, 0x228, address, 4);
        proof {
            lemma_le_encode_len(address as nat, 4);
        }
        Ok(())
    }

    /// Links the first `setup_data` node; it must lie below 4 GiB.
    pub fn set_setup_data(&mut self, address: u64) -> (res: Result<(), BootError>)
        requires
            old(self)@.len() == 4096,
        ensures
            final(self)@.len() == 4096,
            address > u32::MAX ==> res == Err::<(), BootError>(
                BootError::Unsupported(
                    "luna setup_data must be below 4 GiB for Linux boot protocol compatibility",
                ),
            ) && final(self)@ == old(self)@,
            address <= u32::MAX ==> res is Ok && final(self)@ == splice(
                old(self)@,
                0x250,
                le_encode(address as nat, 8),
            ),
    {
        if address > 0xffff_ffff {
            return Err(
                BootError::Unsupported(
                    "luna setup_data must be below 4 GiB for Linux boot protocol compatibility",
                ),
            );
        }
        write_le_at(&mut self.bytes, 0x250, address, 8);
        proof {
            lemma_le_encode_len(address as nat, 8);
        }
        Ok(())
    }

    /// Writes the E820 table: the entry count at `0x1e8` and each entry,
    /// 20 bytes apart, from `0x2d0`. At most 128 entries fit.
    pub fn set_e820(&mut self, entries: &[E820Entry]) -> (res: Result<(), BootError>)
        requires
            old(self)@.len() == 4096,
        ensures
            final(self)@.len() == 4096,
            entries@.len() > E820_MAX_ENTRIES ==> res == Err::<(), BootError>(
                BootError::Unsupported("too many E820 entries"),
            ) && final(self)@ == old(self)@,
            entries@.len() <= E820_MAX_ENTRIES ==> res is Ok && final(self)@ == e820_table(
                old(self)@.update(0x1e8, entries@.len() as u8),
                entries@,
                entries@.len() as nat,
            ),
    {
        if entries.len() > E820_MAX_ENTRIES {
            return Err(BootError::Unsupported("too many E820 entries"));
        }
        self.bytes.set(0x1e8, entries.len() as u8);
        let ghost start = self.bytes@;
        let mut i: usize = 0;
        while i < entries.len()
            invariant
                entries@.len() <= 128,
                i <= entries@.len(),
                self.bytes@.len() == 4096,
                start.len() == 4096,
                self.bytes@ == e820_table(start, entries@, i as nat),
            decreases entries@.len() - i,
        {
            let e = entries[i];
            let p = 0x2d0 + i * 20;
            proof {
                lemma_e820_table_len(start, entries@, i as nat);
            }
            write_le_at(&mut self.bytes, p, e.addr, 8);
            proof {
                lemma_le_encode_len(e.addr as nat, 8);
            }
            write_le_at(&mut self.bytes, p + 8, e.size, 8);
            proof {
                lemma_le_encode_len(e.size as nat, 8);
            }
            write_le_at(&mut self.bytes, p + 16, e.typ as u64, 4);
            proof {
                lemma_le_encode_len(e.typ as nat, 4);
                let prev = e820_table(start, entries@, i as nat);
                let enc = e820_bytes(e);
                assert(self.bytes@ =~= splice(prev, p as int, enc));
            }
            i = i + 1;
        }
        Ok(())
    }
}

impl BootParams {
    /// Writes the E820 table built from the firmware memory map with the
    /// reservations carved out (see [`e820_entries`]); on an error the page
    /// is left as it was.
    pub fn set_e820_from_map_reserved(&mut self, map: &[MemoryDescriptor], reserved: &[(u64, usize)]) -> (res: Result<(), BootError>)
        requires
            old(self)@.len() == 4096,
        ensures
            final(self)@.len() == 4096,
            match map_entries(map@, reserved@, map@.len()) {
                Err(e) => res == Err::<(), BootError>(e) && final(self)@ == old(self)@,
                Ok(es) => res is Ok && e820_carved(es, reserved@) && final(self)@ == e820_table(
                    old(self)@.update(0x1e8, es.len() as u8),
                    es,
                    es.len() as nat,
                ),
            },
    {
        let entries = match e820_entries(map, reserved) {
            Ok(v) => v,
            Err(e) => return Err(e),
        };
        proof {
            lemma_map_entries_len(map@, reserved@, map@.len());
            lemma_e820_reservations_carved(map@, reserved@, map@.len());
        }
        self.set_e820(entries.as_slice())
    }
}

proof fn lemma_map_entries_len(map: Seq<MemoryDescriptor>, rs: Seq<(u64, usize)>, n: nat)
    ensures
        map_entries(map, rs, n) matches Ok(es) ==> es.len() <= E820_MAX_ENTRIES,
    decreases n,
{
    if n > 0 {
        lemma_map_entries_len(map, rs, (n - 1) as nat);
    }
}

/// The page after writing the first `n` entries into its E820 table.
pub open spec fn e820_table(page: Seq<u8>, entries: Seq<E820Entry>, n: nat) -> Seq<u8>
    decreases n,
{
    if n == 0 {
        page
    } else {
        splice(
            e820_table(page, entries, (n - 1) as nat),
            0x2d0 + (n - 1) * 20,
            e820_bytes(entries[n - 1]),
        )
    }
}

proof fn lemma_e820_table_len(page: Seq<u8>, entries: Seq<E820Entry>, n: nat)
    requires
        page.len() == 4096,
        n <= 128,
    ensures
        e820_table(page, entries, n).len() == 4096,
    decreases n,
{
    if n > 0 {
        lemma_e820_table_len(page, entries, (n - 1) as nat);
        let e = entries[n - 1];
        lemma_le_encode_len(e.addr as nat, 8);
        lemma_le_encode_len(e.size as nat, 8);
        lemma_le_encode_len(e.typ as nat, 4);
    }
}

/// One firmware memory-map descriptor: its UEFI memory type, physical
/// start and length in 4 KiB pages.
#[derive(Clone, Copy, Debug, PartialEq, Eq)]
pub struct MemoryDescriptor {
    pub ty: u32,
    pub phys_start: u64,
    pub page_count: u64,
}

/// E820 type of a firmware memory type: conventional, boot-services and
/// loader memory (types 7, 3, 4, 1, 2) is usable RAM (1); anything else is
/// reserved (2).
pub open spec fn region_type(ty: u32) -> u32 {
    if ty == 7 || ty == 3 || ty == 4 || ty == 1 || ty == 2 {
        1
    } else {
        2
    }
}

/// `a * 4096`, saturating at `u64::MAX`.
pub open spec fn pages_bytes(a: nat) -> nat {
    if a * 4096 > u64::MAX {
        u64::MAX as nat
    } else {
        a * 4096
    }
}

pub open spec fn max_u64(a: u64, b: u64) -> u64 {
    if a >= b {
        a
    } else {
        b
    }
}

pub open spec fn min_u64(a: u64, b: u64) -> u64 {
    if a <= b {
        a
    } else {
        b
    }
}

/// Most segments one region is cut into.
pub const MAX_REGION_SEGMENTS: usize = 16;

/// A piece of a region: start, end, and whether a reservation covers it.
pub type Segment = (u64, u64, bool);

/// What a reservation `[rs, re)` makes of one segment: the segment whole
/// when they do not meet; otherwise the part before it, the overlap (now
/// reserved) and the part after it, each where not empty.
pub open spec fn seg_pieces(g: Segment, rs: u64, re: u64) -> Seq<Segment> {
    let (s, e, r) = g;
    if re <= s || rs >= e {
        seq![g]
    } else {
        (if s < rs {
            seq![(s, min_u64(rs, e), r)]
        } else {
            Seq::empty()
        }) + seq![(max_u64(s, rs), min_u64(e, re), true)] + (if re < e {
            seq![(max_u64(re, s), e, r)]
        } else {
            Seq::empty()
        })
    }
}

/// Cutting the first `n` segments by `[rs, re)`, in order; `None` once the
/// pieces would not fit in [`MAX_REGION_SEGMENTS`] (checked before each
/// segment: room for two more pieces, and for all of that segment's).
pub open spec fn cut_segments(segs: Seq<Segment>, rs: u64, re: u64, n: nat) -> Option<Seq<Segment>>
    decreases n,
{
    if n == 0 {
        Some(Seq::empty())
    } else {
        match cut_segments(segs, rs, re, (n - 1) as nat) {
            None => None,
            Some(prev) => {
                let p = seg_pieces(segs[n - 1], rs, re);
                if prev.len() + 2 > 16 || prev.len() + p.len() > 16 {
                    None
                } else {
                    Some(prev + p)
                }
            },
        }
    }
}

/// The segments of the region `[start, end)` after the reservations
/// `rs[..k]` (start address, page count) are carved out of it. A
/// reservation of no pages is skipped; one whose end overflows is an error.
pub open spec fn region_segments(start: u64, end: u64, rs: Seq<(u64, usize)>, k: nat) -> Result<Seq<Segment>, BootError>
    decreases k,
{
    if k == 0 {
        Ok(seq![(start, end, false)])
    } else {
        match region_segments(start, end, rs, (k - 1) as nat) {
            Err(e) => Err(e),
            Ok(segs) => {
                let rstart = rs[k - 1].0;
                let rpages = rs[k - 1].1;
                if rpages == 0 {
                    Ok(segs)
                } else if rstart + pages_bytes(rpages as nat) > u64::MAX {
                    Err(BootError::InvalidKernel)
                } else {
                    match cut_segments(segs, rstart, (rstart + pages_bytes(rpages as nat)) as u64, segs.len()) {
                        None => Err(BootError::Unsupported("too many E820 reservation splits")),
                        Some(next) => Ok(next),
                    }
                }
            },
        }
    }
}

/// The E820 entry of one segment of a region of E820 type `typ`.
pub open spec fn segment_entry(g: Segment, typ: u32) -> E820Entry {
    E820Entry {
        addr: g.0,
        size: (g.1 - g.0) as u64,
        typ: if g.2 {
            2
        } else {
            typ
        },
        reserved: 0,
    }
}

/// The E820 entries one descriptor yields: nothing for an empty region;
/// otherwise one entry per segment left once the reservations are carved
/// out, the reserved ones of type 2.
pub open spec fn region_entries(d: MemoryDescriptor, rs: Seq<(u64, usize)>) -> Result<Seq<E820Entry>, BootError> {
    let size = pages_bytes(d.page_count as nat);
    let typ = region_type(d.ty);
    if size == 0 {
        Ok(Seq::empty())
    } else if d.phys_start + size > u64::MAX {
        Err(BootError::InvalidKernel)
    } else {
        match region_segments(d.phys_start, (d.phys_start + size) as u64, rs, rs.len()) {
            Err(e) => Err(e),
            Ok(segs) => Ok(Seq::new(segs.len(), |i: int| segment_entry(segs[i], typ))),
        }
    }
}

/// The E820 table built from the first `n` descriptors; at most 128
/// entries.
pub open spec fn map_entries(map: Seq<MemoryDescriptor>, rs: Seq<(u64, usize)>, n: nat) -> Result<Seq<E820Entry>, BootError>
    decreases n,
{
    if n == 0 {
        Ok(Seq::empty())
    } else {
        match map_entries(map, rs, (n - 1) as nat) {
            Err(e) => Err(e),
            Ok(prev) => match region_entries(map[n - 1], rs) {
                Err(e) => Err(e),
                Ok(es) => if prev.len() + es.len() > E820_MAX_ENTRIES {
                    Err(BootError::Unsupported("too many E820 entries"))
                } else {
                    Ok(prev + es)
                },
            },
        }
    }
}

/// `[a, b)` and `[c, d)` share no address.
pub open spec fn disjoint(a: int, b: int, c: int, d: int) -> bool {
    b <= c || d <= a
}

/// Every segment is a non-empty part of `[start, end)`, and a segment not
/// marked reserved shares no address with any of the reservations
/// `rs[..k]` that has pages.
pub open spec fn segments_carved(segs: Seq<Segment>, start: u64, end: u64, rs: Seq<(u64, usize)>, k: nat) -> bool {
    forall|i: int| 0 <= i < segs.len() ==> {
        &&& start <= (#[trigger] segs[i]).0 < segs[i].1 <= end
        &&& !segs[i].2 ==> forall|j: int| 0 <= j < k && rs[j].1 > 0 ==> disjoint(
            segs[i].0 as int,
            segs[i].1 as int,
            rs[j].0 as int,
            rs[j].0 + pages_bytes(rs[j].1 as nat),
        )
    }
}

proof fn lemma_cut_carved(segs: Seq<Segment>, start: u64, end: u64, rs: Seq<(u64, usize)>, k: nat, rstart: u64, rend: u64, n: nat)
    requires
        k < rs.len(),
        rs[k as int].0 == rstart,
        rs[k as int].1 > 0,
        rend == rs[k as int].0 + pages_bytes(rs[k as int].1 as nat),
        n <= segs.len(),
        segments_carved(segs, start, end, rs, k),
        cut_segments(segs, rstart, rend, n) is Some,
    ensures
        segments_carved(cut_segments(segs, rstart, rend, n)->0, start, end, rs, k + 1),
    decreases n,
{
    if n > 0 {
        lemma_cut_carved(segs, start, end, rs, k, rstart, rend, (n - 1) as nat);
        let prev = cut_segments(segs, rstart, rend, (n - 1) as nat)->0;
        let g = segs[n - 1];
        let p = seg_pieces(g, rstart, rend);
        let all = prev + p;
        assert(start <= g.0 < g.1 <= end);
        assert(rstart < rend) by {
            assert(pages_bytes(rs[k as int].1 as nat) > 0);
        }
        assert forall|i: int| 0 <= i < p.len() implies {
            &&& g.0 <= (#[trigger] p[i]).0 < p[i].1 <= g.1
            &&& (!p[i].2 ==> !g.2)
            &&& (!p[i].2 ==> disjoint(p[i].0 as int, p[i].1 as int, rstart as int, rend as int))
        } by {}
        assert forall|i: int| 0 <= i < all.len() implies {
            &&& start <= (#[trigger] all[i]).0 < all[i].1 <= end
            &&& !all[i].2 ==> forall|j: int| 0 <= j < k + 1 && rs[j].1 > 0 ==> disjoint(
                all[i].0 as int,
                all[i].1 as int,
                rs[j].0 as int,
                rs[j].0 + pages_bytes(rs[j].1 as nat),
            )
        } by {
            if i >= prev.len() {
                let q = i - prev.len();
                assert(all[i] == p[q]);
                assert(g.0 <= p[q].0 < p[q].1 <= g.1);
            } else {
                assert(all[i] == prev[i]);
            }
        }
    }
}

proof fn lemma_region_carved(start: u64, end: u64, rs: Seq<(u64, usize)>, k: nat)
    requires
        start < end,
        k <= rs.len(),
        region_segments(start, end, rs, k) is Ok,
    ensures
        segments_carved(region_segments(start, end, rs, k)->Ok_0, start, end, rs, k),
    decreases k,
{
    if k > 0 {
        lemma_region_carved(start, end, rs, (k - 1) as nat);
        let segs = region_segments(start, end, rs, (k - 1) as nat)->Ok_0;
        let j = (k - 1) as nat;
        if rs[j as int].1 == 0 {
        } else {
            let rend = (rs[j as int].0 + pages_bytes(rs[j as int].1 as nat)) as u64;
            lemma_cut_carved(segs, start, end, rs, j, rs[j as int].0, rend, segs.len());
        }
    }
}

/// Every entry of an E820 table covers at least one byte, and no usable
/// (type 1) entry shares an address with a reservation that has pages.
pub open spec fn e820_carved(es: Seq<E820Entry>, rs: Seq<(u64, usize)>) -> bool {
    forall|i: int| 0 <= i < es.len() ==> {
        &&& (#[trigger] es[i]).size > 0
        &&& es[i].typ == 1 ==> forall|j: int| 0 <= j < rs.len() && rs[j].1 > 0 ==> disjoint(
            es[i].addr as int,
            es[i].addr + es[i].size,
            rs[j].0 as int,
            rs[j].0 + pages_bytes(rs[j].1 as nat),
        )
    }
}

/// The E820 table built from a memory map never reports reserved memory as
/// usable: every type-1 entry lies clear of each reservation.
pub proof fn lemma_e820_reservations_carved(map: Seq<MemoryDescriptor>, rs: Seq<(u64, usize)>, n: nat)
    requires
        n <= map.len(),
        map_entries(map, rs, n) is Ok,
    ensures
        e820_carved(map_entries(map, rs, n)->Ok_0, rs),
    decreases n,
{
    if n > 0 {
        lemma_e820_reservations_carved(map, rs, (n - 1) as nat);
        let prev = map_entries(map, rs, (n - 1) as nat)->Ok_0;
        let d = map[n - 1];
        let es = region_entries(d, rs)->Ok_0;
        let all = prev + es;
        let size = pages_bytes(d.page_count as nat);
        if size > 0 {
            let end = (d.phys_start + size) as u64;
            lemma_region_carved(d.phys_start, end, rs, rs.len());
            let segs = region_segments(d.phys_start, end, rs, rs.len())->Ok_0;
            assert forall|i: int| 0 <= i < es.len() implies {
                &&& (#[trigger] es[i]).size > 0
                &&& es[i].typ == 1 ==> forall|j: int| 0 <= j < rs.len() && rs[j].1 > 0 ==> disjoint(
                    es[i].addr as int,
                    es[i].addr + es[i].size,
                    rs[j].0 as int,
                    rs[j].0 + pages_bytes(rs[j].1 as nat),
                )
            } by {
                assert(es[i] == segment_entry(segs[i], region_type(d.ty)));
                assert(d.phys_start <= segs[i].0 < segs[i].1 <= end);
            }
        }
        assert forall|i: int| 0 <= i < all.len() implies {
            &&& (#[trigger] all[i]).size > 0
            &&& all[i].typ == 1 ==> forall|j: int| 0 <= j < rs.len() && rs[j].1 > 0 ==> disjoint(
                all[i].addr as int,
                all[i].addr + all[i].size,
                rs[j].0 as int,
                rs[j].0 + pages_bytes(rs[j].1 as nat),
            )
        } by {
            if i >= prev.len() {
                assert(all[i] == es[i - prev.len()]);
            } else {
                assert(all[i] == prev[i]);
            }
        }
    }
}

proof fn lemma_cut_none_sticks(segs: Seq<Segment>, rs: u64, re: u64, k: nat, m: nat)
    requires
        k <= m,
        cut_segments(segs, rs, re, k) is None,
    ensures
        cut_segments(segs, rs, re, m) is None,
    decreases m - k,
{
    if k < m {
        lemma_cut_none_sticks(segs, rs, re, k, (m - 1) as nat);
    }
}

proof fn lemma_region_err_sticks(start: u64, end: u64, rs: Seq<(u64, usize)>, k: nat, m: nat)
    requires
        k <= m,
        region_segments(start, end, rs, k) is Err,
    ensures
        region_segments(start, end, rs, m) == region_segments(start, end, rs, k),
    decreases m - k,
{
    if k < m {
        lemma_region_err_sticks(start, end, rs, k, (m - 1) as nat);
    }
}

/// The pieces of one segment (see [`seg_pieces`]).
fn pieces_of(g: Segment, rstart: u64, rend: u64) -> (res: Vec<Segment>)
    ensures
        res@ == seg_pieces(g, rstart, rend),
{
    let (s, e, r) = g;
    let mut out: Vec<Segment> = Vec::new();
    if rend <= s || rstart >= e {
        out.push(g);
        assert(out@ =~= seg_pieces(g, rstart, rend));
        return out;
    }
    if s < rstart {
        out.push((s, if rstart <= e { rstart } else { e }, r));
    }
    let mid_start = if s >= rstart { s } else { rstart };
    let mid_end = if e <= rend { e } else { rend };
    out.push((mid_start, mid_end, true));
    if rend < e {
        out.push((if rend >= s { rend } else { s }, e, r));
    }
    assert(out@ =~= seg_pieces(g, rstart, rend));
    out
}

/// The segments of one region after the reservations are carved out (see
/// [`region_segments`]).
fn split_region(start: u64, end: u64, reserved: &[(u64, usize)]) -> (res: Result<Vec<Segment>, BootError>)
    ensures
        match region_segments(start, end, reserved@, reserved@.len()) {
            Err(e) => res == Err::<Vec<Segment>, BootError>(e),
            Ok(segs) => res matches Ok(v) && v@ == segs,
        },
{
    let mut segments: Vec<Segment> = Vec::new();
    segments.push((start, end, false));
    assert(segments@ =~= seq![(start, end, false)]);
    let mut r: usize = 0;
    while r < reserved.len()
        invariant
            r <= reserved@.len(),
            region_segments(start, end, reserved@, r as nat) == Ok::<Seq<Segment>, BootError>(segments@),
        decreases reserved@.len() - r,
    {
        let (rstart, rpages) = reserved[r];
        if rpages == 0 {
            r = r + 1;
            continue;
        }
        let bytes = match (rpages as u64).checked_mul(4096) {
            Some(v) => v,
            None => u64::MAX,
        };
        assert(bytes == pages_bytes(rpages as nat));
        let rend = match rstart.checked_add(bytes) {
            Some(v) => v,
            None => {
                proof {
                    lemma_region_err_sticks(start, end, reserved@, (r + 1) as nat, reserved@.len());
                }
                return Err(BootError::InvalidKernel);
            },
        };
        let mut next: Vec<Segment> = Vec::new();
        let mut j: usize = 0;
        while j < segments.len()
            invariant
                j <= segments@.len(),
                cut_segments(segments@, rstart, rend, j as nat) == Some(next@),
                next@.len() <= 16,
                r < reserved@.len(),
                reserved@[r as int] == (rstart, rpages),
                rpages != 0,
                rend == rstart + pages_bytes(rpages as nat),
                region_segments(start, end, reserved@, r as nat) == Ok::<Seq<Segment>, BootError>(segments@),
            decreases segments@.len() - j,
        {
            let pieces = pieces_of(segments[j], rstart, rend);
            if next.len() + 2 > MAX_REGION_SEGMENTS || next.len() + pieces.len() > MAX_REGION_SEGMENTS {
                proof {
                    lemma_cut_none_sticks(segments@, rstart, rend, (j + 1) as nat, segments@.len());
                    assert(region_segments(start, end, reserved@, (r + 1) as nat) == Err::<Seq<Segment>, BootError>(
                        BootError::Unsupported("too many E820 reservation splits"),
                    ));
                    lemma_region_err_sticks(start, end, reserved@, (r + 1) as nat, reserved@.len());
                }
                return Err(BootError::Unsupported("too many E820 reservation splits"));
            }
            let ghost before = next@;
            let mut q: usize = 0;
            while q < pieces.len()
                invariant
                    q <= pieces@.len(),
                    next@ == before + pieces@.take(q as int),
                    before.len() + pieces@.len() <= 16,
                decreases pieces@.len() - q,
            {
                next.push(pieces[q]);
                q = q + 1;
                assert(next@ =~= before + pieces@.take(q as int));
            }
            assert(pieces@.take(pieces@.len() as int) =~= pieces@);
            assert(cut_segments(segments@, rstart, rend, (j + 1) as nat) == Some(next@));
            j = j + 1;
        }
        segments = next;
        r = r + 1;
    }
    Ok(segments)
}

proof fn lemma_map_err_sticks(map: Seq<MemoryDescriptor>, rs: Seq<(u64, usize)>, k: nat, m: nat)
    requires
        k <= m,
        map_entries(map, rs, k) is Err,
    ensures
        map_entries(map, rs, m) == map_entries(map, rs, k),
    decreases m - k,
{
    if k < m {
        lemma_map_err_sticks(map, rs, k, (m - 1) as nat);
    }
}

/// The E820 table for a firmware memory map with the given reservations
/// (start address, page count) carved out (see [`map_entries`]).
/// Without reservations, a non-empty firmware region becomes one E820
/// entry covering it exactly: RAM (type 1) when the firmware type is
/// conventional, boot-services code or data, or loader code or data (UEFI
/// types 7, 3, 4, 1, 2), reserved (type 2) for every other type.
pub proof fn lemma_region_entry_unreserved(d: MemoryDescriptor)
    requires
        d.page_count > 0,
        d.phys_start + d.page_count * 4096 <= u64::MAX,
    ensures
        region_entries(d, Seq::empty()) == Ok::<Seq<E820Entry>, BootError>(
            seq![
                E820Entry {
                    addr: d.phys_start,
                    size: (d.page_count * 4096) as u64,
                    typ: if d.ty == 7 || d.ty == 3 || d.ty == 4 || d.ty == 1 || d.ty == 2 {
                        1u32
                    } else {
                        2u32
                    },
                    reserved: 0,
                },
            ],
        ),
{
    let size = pages_bytes(d.page_count as nat);
    assert(size == d.page_count * 4096);
    let end = (d.phys_start + size) as u64;
    assert(region_segments(d.phys_start, end, Seq::<(u64, usize)>::empty(), 0) == Ok::<Seq<Segment>, BootError>(
        seq![(d.phys_start, end, false)],
    ));
    let es = Seq::new(1, |i: int| segment_entry(seq![(d.phys_start, end, false)][i], region_type(d.ty)));
    assert(es =~= seq![segment_entry((d.phys_start, end, false), region_type(d.ty))]);
}

/// The table built from a single unreserved region is that region's one
/// entry, with the type its firmware type calls for.
pub proof fn lemma_e820_single_region(d: MemoryDescriptor)
    requires
        d.page_count > 0,
        d.phys_start + d.page_count * 4096 <= u64::MAX,
    ensures
        map_entries(seq![d], Seq::empty(), 1) == Ok::<Seq<E820Entry>, BootError>(
            seq![
                E820Entry {
                    addr: d.phys_start,
                    size: (d.page_count * 4096) as u64,
                    typ: if d.ty == 7 || d.ty == 3 || d.ty == 4 || d.ty == 1 || d.ty == 2 {
                        1u32
                    } else {
                        2u32
                    },
                    reserved: 0,
                },
            ],
        ),
{
    lemma_region_entry_unreserved(d);
    assert(map_entries(seq![d], Seq::empty(), 0) == Ok::<Seq<E820Entry>, BootError>(Seq::empty()));
    let es = region_entries(d, Seq::empty())->Ok_0;
    assert(Seq::<E820Entry>::empty() + es =~= es);
}

/// Whatever the reservations, a firmware region that is not RAM never
/// yields a usable (type 1) entry, and every entry is RAM or reserved.
pub proof fn lemma_region_entry_types(d: MemoryDescriptor, rs: Seq<(u64, usize)>)
    requires
        region_entries(d, rs) is Ok,
    ensures
        forall|i: int| 0 <= i < region_entries(d, rs)->Ok_0.len() ==> {
            let t = (#[trigger] region_entries(d, rs)->Ok_0[i]).typ;
            &&& t == 1 || t == 2
            &&& t == 1 ==> (d.ty == 7 || d.ty == 3 || d.ty == 4 || d.ty == 1 || d.ty == 2)
        },
{
}

pub fn e820_entries(map: &[MemoryDescriptor], reserved: &[(u64, usize)]) -> (res: Result<Vec<E820Entry>, BootError>)
    ensures
        match map_entries(map@, reserved@, map@.len()) {
            Ok(es) => res matches Ok(v) && v@ == es,
            Err(e) => res == Err::<Vec<E820Entry>, BootError>(e),
        },
        res matches Ok(v) ==> e820_carved(v@, reserved@),
{
    let mut entries: Vec<E820Entry> = Vec::new();
    let mut i: usize = 0;
    while i < map.len()
        invariant
            i <= map@.len(),
            map_entries(map@, reserved@, i as nat) == Ok::<Seq<E820Entry>, BootError>(entries@),
            entries@.len() <= E820_MAX_ENTRIES,
        decreases map@.len() - i,
    {
        let d = map[i];
        let size = match d.page_count.checked_mul(4096) {
            Some(v) => v,
            None => u64::MAX,
        };
        assert(size == pages_bytes(d.page_count as nat));
        let ghost prev = entries@;
        if size == 0 {
            assert(prev + Seq::<E820Entry>::empty() =~= prev);
            i = i + 1;
            continue;
        }
        let typ: u32 = if d.ty == 7 || d.ty == 3 || d.ty == 4 || d.ty == 1 || d.ty == 2 {
            1
        } else {
            2
        };
        let start = d.phys_start;
        let end = match start.checked_add(size) {
            Some(e) => e,
            None => {
                proof {
                    lemma_map_err_sticks(map@, reserved@, (i + 1) as nat, map@.len());
                }
                return Err(BootError::InvalidKernel);
            },
        };
        let segs = match split_region(start, end, reserved) {
            Ok(x) => x,
            Err(e) => {
                proof {
                    lemma_map_err_sticks(map@, reserved@, (i + 1) as nat, map@.len());
                }
                return Err(e);
            },
        };
        proof {
            lemma_region_carved(start, end, reserved@, reserved@.len());
        }
        let ghost es = Seq::new(segs@.len(), |k: int| segment_entry(segs@[k], typ));
        assert(region_entries(d, reserved@) == Ok::<Seq<E820Entry>, BootError>(es));
        let mut j: usize = 0;
        while j < segs.len()
            invariant
                j <= segs@.len(),
                entries@ == prev + es.take(j as int),
                es.len() == segs@.len(),
                forall|k: int| 0 <= k < segs@.len() ==> #[trigger] es[k] == segment_entry(segs@[k], typ),
                segments_carved(segs@, start, end, reserved@, reserved@.len()),
                entries@.len() <= E820_MAX_ENTRIES,
                prev.len() <= E820_MAX_ENTRIES,
                i < map@.len(),
                map_entries(map@, reserved@, i as nat) == Ok::<Seq<E820Entry>, BootError>(prev),
                region_entries(map@[i as int], reserved@) == Ok::<Seq<E820Entry>, BootError>(es),
            decreases segs@.len() - j,
        {
            if entries.len() == E820_MAX_ENTRIES {
                proof {
                    assert(map_entries(map@, reserved@, (i + 1) as nat) == Err::<Seq<E820Entry>, BootError>(
                        BootError::Unsupported("too many E820 entries"),
                    ));
                    lemma_map_err_sticks(map@, reserved@, (i + 1) as nat, map@.len());
                }
                return Err(BootError::Unsupported("too many E820 entries"));
            }
            let (s, e, r) = segs[j];
            assert(start <= segs@[j as int].0 < segs@[j as int].1 <= end);
            let entry = E820Entry {
                addr: s,
                size: e - s,
                typ: if r {
                    2
                } else {
                    typ
                },
                reserved: 0,
            };
            assert(entry == es[j as int]);
            entries.push(entry);
            j = j + 1;
            assert(entries@ =~= prev + es.take(j as int));
        }
        assert(es.take(segs@.len() as int) =~= es);
        assert(map_entries(map@, reserved@, (i + 1) as nat) == Ok::<Seq<E820Entry>, BootError>(entries@));
        i = i + 1;
    }
    proof {
        lemma_e820_reservations_carved(map@, reserved@, map@.len());
    }
    Ok(entries)
}

/// Type of the `setup_data` node that carries E820 entries beyond the
/// zero page's table.
pub const SETUP_E820_EXT: u32 = 1;

/// Size of a `setup_data` node header: next pointer, type, data length.
pub const SETUP_DATA_NODE_SIZE: usize = 16;

/// Most entries the extension node holds.
pub const MAX_E820_EXT_ENTRIES: usize = 4096;

/// Firmware page size.
pub const PAGE_SIZE: usize = 4096;

/// Pages reserved for the extension node: its header and room for
/// [`MAX_E820_EXT_ENTRIES`] entries of 20 bytes, rounded up.
pub const E820_EXT_PAGES: usize = 21;

/// The `SETUP_E820_EXT` node header: next pointer, type 1, data length.
pub open spec fn e820_ext_header(next: u64, entry_count: nat) -> Seq<u8> {
    le_encode(next as nat, 8) + le_encode(SETUP_E820_EXT as nat, 4) + le_encode(entry_count * 20, 4)
}

/// The `SETUP_E820_EXT` node, prepared in memory before the final memory
/// map is known: entries are written as the map is read, then the header
/// is completed and the node linked in front of the others.
pub struct E820Extension {
    allocation_pages: usize,
    node: Vec<u8>,
    capacity_entries: usize,
}

impl View for E820Extension {
    type V = Seq<u8>;

    closed spec fn view(&self) -> Seq<u8> {
        self.node@
    }
}

impl E820Extension {
    /// Entries the node has room for.
    pub closed spec fn spec_capacity(&self) -> nat {
        self.capacity_entries as nat
    }

    /// Pages the node occupies.
    pub closed spec fn spec_pages(&self) -> nat {
        self.allocation_pages as nat
    }

    /// The node spans its pages and has room for its entries.
    pub open spec fn wf(&self) -> bool {
        &&& self@.len() == self.spec_pages() * PAGE_SIZE
        &&& SETUP_DATA_NODE_SIZE + self.spec_capacity() * 20 <= self@.len()
        &&& self.spec_capacity() <= MAX_E820_EXT_ENTRIES
    }

    /// A zeroed node with room for [`MAX_E820_EXT_ENTRIES`] entries, in
    /// whole pages.
    pub fn allocate() -> (res: E820Extension)
        ensures
            res.wf(),
            res.spec_pages() == E820_EXT_PAGES,
            res.spec_capacity() == MAX_E820_EXT_ENTRIES,
            res@ == crate::attempt::zero_bytes((E820_EXT_PAGES * PAGE_SIZE) as nat),
    {
        let data_bytes = MAX_E820_EXT_ENTRIES * 20;
        let total = SETUP_DATA_NODE_SIZE + data_bytes;
        let pages = (total + PAGE_SIZE - 1) / PAGE_SIZE;
        assert(pages == E820_EXT_PAGES);
        let size = pages * PAGE_SIZE;
        let mut node: Vec<u8> = Vec::new();
        let mut i: usize = 0;
        while i < size
            invariant
                size == E820_EXT_PAGES * PAGE_SIZE,
                i <= size,
                node@ == crate::attempt::zero_bytes(i as nat),
            decreases size - i,
        {
            node.push(0);
            i = i + 1;
            assert(node@ =~= crate::attempt::zero_bytes(i as nat));
        }
        E820Extension { allocation_pages: pages, node, capacity_entries: MAX_E820_EXT_ENTRIES }
    }

    /// Pages the node occupies.
    pub fn allocation_pages(&self) -> (res: usize)
        ensures
            res == self.spec_pages(),
    {
        self.allocation_pages
    }

    /// The node's bytes.
    pub fn bytes(&self) -> (res: &[u8])
        ensures
            res@ == self@,
    {
        self.node.as_slice()
    }

    /// Writes entry `index` (address, size, type) into the node's data.
    pub fn write_entry(&mut self, index: usize, entry: &E820Entry) -> (res: Result<(), BootError>)
        requires
            old(self).wf(),
        ensures
            final(self).wf(),
            final(self).spec_pages() == old(self).spec_pages(),
            final(self).spec_capacity() == old(self).spec_capacity(),
            index >= old(self).spec_capacity() ==> res == Err::<(), BootError>(
                BootError::Unsupported("too many extended E820 entries"),
            ) && final(self)@ == old(self)@,
            index < old(self).spec_capacity() ==> res is Ok && final(self)@ == splice(
                old(self)@,
                SETUP_DATA_NODE_SIZE + index * 20,
                e820_bytes(*entry),
            ),
    {
        if index >= self.capacity_entries {
            return Err(BootError::Unsupported("too many extended E820 entries"));
        }
        let offset = SETUP_DATA_NODE_SIZE + index * 20;
        let ghost before = self.node@;
        write_le_at(&mut self.node, offset, entry.addr, 8);
        proof {
            lemma_le_encode_len(entry.addr as nat, 8);
        }
        write_le_at(&mut self.node, offset + 8, entry.size, 8);
        proof {
            lemma_le_encode_len(entry.size as nat, 8);
        }
        write_le_at(&mut self.node, offset + 16, entry.typ as u64, 4);
        proof {
            lemma_le_encode_len(entry.typ as nat, 4);
            assert(self.node@ =~= splice(before, offset as int, e820_bytes(*entry)));
        }
        Ok(())
    }

    /// Completes the header: the next node's address, the type and the
    /// length of `entry_count` entries.
    pub fn finalize(&mut self, entry_count: usize, next: u64) -> (res: Result<(), BootError>)
        requires
            old(self).wf(),
        ensures
            final(self).wf(),
            final(self).spec_pages() == old(self).spec_pages(),
            final(self).spec_capacity() == old(self).spec_capacity(),
            entry_count > old(self).spec_capacity() ==> res == Err::<(), BootError>(
                BootError::Unsupported("too many extended E820 entries"),
            ) && final(self)@ == old(self)@,
            entry_count <= old(self).spec_capacity() ==> res is Ok && final(self)@ == splice(
                old(self)@,
                0,
                e820_ext_header(next, entry_count as nat),
            ),
    {
        if entry_count > self.capacity_entries {
            return Err(BootError::Unsupported("too many extended E820 entries"));
        }
        let data_len = entry_count * 20;
        if data_len > u32::MAX as usize {
            return Err(BootError::Unsupported("extended E820 data is too large"));
        }
        let ghost before = self.node@;
        write_le_at(&mut self.node, 0, next, 8);
        write_le_at(&mut self.node, 8, SETUP_E820_EXT as u64, 4);
        write_le_at(&mut self.node, 12, data_len as u64, 4);
        proof {
            lemma_le_encode_len(next as nat, 8);
            lemma_le_encode_len(SETUP_E820_EXT as nat, 4);
            lemma_le_encode_len(data_len as nat, 4);
            assert(self.node@ =~= splice(before, 0, e820_ext_header(next, entry_count as nat)));
        }
        Ok(())
    }
}

} // verus!
