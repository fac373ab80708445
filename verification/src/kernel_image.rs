//! Checks on the images the boot loader hands to Linux: the luna-init core
//! (a static ELF64 x86_64 executable) and the bzImage kernel, and the zero
//! page prepared from them.

use vstd::prelude::*;
use crate::boot_target::BootError;
use crate::bytes::{le_field, power_of_two, is_power_of_two, read_le, read_u16_le, read_u32_le};
use crate::digest::{blake3_digest, hash32};
use crate::linux_boot::{BootParams, LinuxSetupHeader, setup_header_result, setup_size_spec};

verus! {

/// Running totals over the program headers of luna-init.
pub struct InitScan {
    pub loadable: nat,
    pub entry_executable: bool,
    pub low: int,
    pub high: int,
}

pub open spec fn init_scan_start() -> InitScan {
    InitScan { loadable: 0, entry_executable: false, low: u64::MAX as int, high: 0 }
}

/// Largest span of memory luna-init may occupy (512 MiB).
pub open spec fn max_init_memory() -> int {
    512int * 1024 * 1024
}

/// One program header at `off`: its effect on the totals, or why the image
/// is refused (an interpreter, a segment past the file or with more file
/// than memory size, address overflow, bad alignment, or a segment both
/// writable and executable).
pub open spec fn init_ph_step(b: Seq<u8>, off: int, entry: int, st: InitScan) -> Result<
    InitScan,
    BootError,
> {
    let typ = le_field(b, off, 4);
    let flags = le_field(b, off + 4, 4) as u32;
    let p_offset = le_field(b, off + 8, 8);
    let vaddr = le_field(b, off + 16, 8);
    let paddr = le_field(b, off + 24, 8);
    let filesz = le_field(b, off + 32, 8);
    let memsz = le_field(b, off + 40, 8);
    let align = le_field(b, off + 48, 8);
    if off + 56 > b.len() {
        Err(BootError::InvalidKernel)
    } else if typ == 3 {
        Err(BootError::Unsupported("luna-init must not require a dynamic linker"))
    } else if typ != 1 {
        Ok(st)
    } else if p_offset + filesz > u64::MAX || p_offset + filesz > b.len() || filesz > memsz {
        Err(BootError::InvalidKernel)
    } else if vaddr + memsz > u64::MAX || paddr + memsz > u64::MAX {
        Err(BootError::InvalidKernel)
    } else if align != 0 && (!power_of_two(align as int) || p_offset % align != vaddr % align) {
        Err(BootError::Unsupported("luna-init segment alignment is invalid"))
    } else if flags & 2 != 0 && flags & 1 != 0 {
        Err(BootError::Unsupported("luna-init violates W^X"))
    } else {
        Ok(
            InitScan {
                loadable: st.loadable + 1,
                entry_executable: st.entry_executable || (flags & 1 != 0 && vaddr <= entry < vaddr
                    + memsz),
                low: if vaddr < st.low {
                    vaddr as int
                } else {
                    st.low
                },
                high: if vaddr + memsz > st.high {
                    (vaddr + memsz) as int
                } else {
                    st.high
                },
            },
        )
    }
}

/// The totals after the first `n` program headers, or the first refusal.
pub open spec fn init_scan(b: Seq<u8>, phoff: int, phentsize: int, entry: int, n: nat) -> Result<
    InitScan,
    BootError,
>
    decreases n,
{
    if n == 0 {
        Ok(init_scan_start())
    } else {
        match init_scan(b, phoff, phentsize, entry, (n - 1) as nat) {
            Err(e) => Err(e),
            Ok(st) => init_ph_step(b, phoff + (n - 1) * phentsize, entry, st),
        }
    }
}

proof fn lemma_init_scan_err_persists(
    b: Seq<u8>,
    phoff: int,
    phentsize: int,
    entry: int,
    k: nat,
    m: nat,
)
    requires
        k <= m,
        init_scan(b, phoff, phentsize, entry, k) is Err,
    ensures
        init_scan(b, phoff, phentsize, entry, m) == init_scan(b, phoff, phentsize, entry, k),
    decreases m - k,
{
    if k < m {
        lemma_init_scan_err_persists(b, phoff, phentsize, entry, k, (m - 1) as nat);
    }
}

/// The ELF identification bytes `\x7fELF`.
pub open spec fn elf_magic() -> Seq<u8> {
    seq![0x7fu8, 0x45u8, 0x4cu8, 0x46u8]
}

/// Whether luna-init can be started by the kernel as is: a little-endian
/// ELF64 x86_64 executable (`ET_EXEC` or `ET_DYN`) without an interpreter,
/// with a program header table inside the file, at least one loadable
/// segment, an entry point inside an executable segment, no segment both
/// writable and executable, and at most 512 MiB between its lowest and
/// highest loaded address.
pub open spec fn luna_init_result(b: Seq<u8>) -> Result<(), BootError> {
    if b.len() < 64 || b.subrange(0, 4) != elf_magic() {
        Err(BootError::InvalidKernel)
    } else if b[4] != 2 || b[5] != 1 || b[6] != 1 {
        Err(BootError::Unsupported("luna-init must be ELF64 little-endian"))
    } else if le_field(b, 16, 2) != 2 && le_field(b, 16, 2) != 3 {
        Err(BootError::Unsupported("luna-init must be ET_EXEC or ET_DYN"))
    } else if le_field(b, 18, 2) != 0x3e {
        Err(BootError::Unsupported("luna-init must target x86_64"))
    } else {
        let entry = le_field(b, 24, 8) as int;
        let phoff = le_field(b, 32, 8) as int;
        let phentsize = le_field(b, 54, 2) as int;
        let phnum = le_field(b, 56, 2);
        if phnum == 0 || phentsize < 56 || phoff + phnum * phentsize > b.len() {
            Err(BootError::InvalidKernel)
        } else {
            match init_scan(b, phoff, phentsize, entry, phnum) {
                Err(e) => Err(e),
                Ok(st) => if st.loadable == 0 || !st.entry_executable || st.low == u64::MAX
                    || st.high < st.low {
                    Err(BootError::InvalidKernel)
                } else if st.high - st.low > max_init_memory() {
                    Err(BootError::Unsupported("luna-init loadable memory exceeds safety limit"))
                } else {
                    Ok(())
                },
            }
        }
    }
}

proof fn lemma_le_field_after_update(b: Seq<u8>, i: int, x: u8, off: int, n: int)
    requires
        0 <= i < off,
        0 <= n,
        off + n <= b.len(),
    ensures
        le_field(b.update(i, x), off, n) == le_field(b, off, n),
{
    assert(b.update(i, x).subrange(off, off + n) =~= b.subrange(off, off + n));
}

proof fn lemma_le_field_two(b: Seq<u8>, off: int)
    requires
        0 <= off,
        off + 2 <= b.len(),
    ensures
        le_field(b, off, 2) == b[off] + 256 * b[off + 1],
{
    let s = b.subrange(off, off + 2);
    assert(s.drop_first().drop_first().len() == 0);
    assert(s.drop_first()[0] == b[off + 1]);
    reveal_with_fuel(crate::bytes::le_value, 3);
}

proof fn lemma_init_ph_step_after_update(b: Seq<u8>, i: int, x: u8, off: int, entry: int, st: InitScan)
    requires
        0 <= i < off,
        i < b.len(),
    ensures
        init_ph_step(b.update(i, x), off, entry, st) == init_ph_step(b, off, entry, st),
{
    if off + 56 <= b.len() {
        lemma_le_field_after_update(b, i, x, off, 4);
        lemma_le_field_after_update(b, i, x, off + 4, 4);
        lemma_le_field_after_update(b, i, x, off + 8, 8);
        lemma_le_field_after_update(b, i, x, off + 16, 8);
        lemma_le_field_after_update(b, i, x, off + 24, 8);
        lemma_le_field_after_update(b, i, x, off + 32, 8);
        lemma_le_field_after_update(b, i, x, off + 40, 8);
        lemma_le_field_after_update(b, i, x, off + 48, 8);
    }
}

proof fn lemma_init_scan_after_update(b: Seq<u8>, i: int, x: u8, phoff: int, phentsize: int, entry: int, n: nat)
    requires
        0 <= i < phoff,
        i < b.len(),
        0 <= phentsize,
    ensures
        init_scan(b.update(i, x), phoff, phentsize, entry, n) == init_scan(b, phoff, phentsize, entry, n),
    decreases n,
{
    if n > 0 {
        lemma_init_scan_after_update(b, i, x, phoff, phentsize, entry, (n - 1) as nat);
        assert((n - 1) * phentsize >= 0) by (nonlinear_arith)
            requires
                n >= 1,
                phentsize >= 0,
        ;
        if let Ok(st) = init_scan(b, phoff, phentsize, entry, (n - 1) as nat) {
            lemma_init_ph_step_after_update(b, i, x, phoff + (n - 1) * phentsize, entry, st);
        }
    }
}

/// luna-init may be `ET_DYN` as well as `ET_EXEC`: an image of type
/// `ET_DYN` (a static PIE) is judged exactly as the same image marked
/// `ET_EXEC`, whenever its program headers lie past the ELF header.
pub proof fn lemma_luna_init_dyn_judged_as_exec(b: Seq<u8>)
    requires
        b.len() >= 64,
        b[16] == 3,
        b[17] == 0,
        le_field(b, 32, 8) >= 64,
    ensures
        luna_init_result(b) == luna_init_result(b.update(16, 2u8)),
{
    let c = b.update(16, 2u8);
    lemma_le_field_two(b, 16);
    lemma_le_field_two(c, 16);
    assert(le_field(b, 16, 2) == 3);
    assert(le_field(c, 16, 2) == 2);
    assert(c.subrange(0, 4) =~= b.subrange(0, 4));
    lemma_le_field_after_update(b, 16, 2u8, 18, 2);
    lemma_le_field_after_update(b, 16, 2u8, 24, 8);
    lemma_le_field_after_update(b, 16, 2u8, 32, 8);
    lemma_le_field_after_update(b, 16, 2u8, 54, 2);
    lemma_le_field_after_update(b, 16, 2u8, 56, 2);
    lemma_init_scan_after_update(
        b,
        16,
        2u8,
        le_field(b, 32, 8) as int,
        le_field(b, 54, 2) as int,
        le_field(b, 24, 8) as int,
        le_field(b, 56, 2),
    );
}

proof fn lemma_init_scan_never_type_error(b: Seq<u8>, phoff: int, phentsize: int, entry: int, n: nat)
    ensures
        init_scan(b, phoff, phentsize, entry, n) != Err::<InitScan, BootError>(
            BootError::Unsupported("luna-init must be ET_EXEC or ET_DYN"),
        ),
    decreases n,
{
    reveal_strlit("luna-init must be ET_EXEC or ET_DYN");
    reveal_strlit("luna-init must not require a dynamic linker");
    reveal_strlit("luna-init segment alignment is invalid");
    reveal_strlit("luna-init violates W^X");
    if n > 0 {
        lemma_init_scan_never_type_error(b, phoff, phentsize, entry, (n - 1) as nat);
    }
}

/// An `ET_EXEC` or `ET_DYN` image is never refused for its type: whatever
/// else is wrong with it, the reason given is another one.
pub proof fn lemma_luna_init_exec_and_dyn_admitted(b: Seq<u8>)
    requires
        b.len() >= 16 + 2,
        le_field(b, 16, 2) == 2 || le_field(b, 16, 2) == 3,
    ensures
        luna_init_result(b) != Err::<(), BootError>(BootError::Unsupported("luna-init must be ET_EXEC or ET_DYN")),
{
    reveal_strlit("luna-init must be ET_EXEC or ET_DYN");
    reveal_strlit("luna-init must be ELF64 little-endian");
    reveal_strlit("luna-init must target x86_64");
    reveal_strlit("luna-init loadable memory exceeds safety limit");
    lemma_init_scan_never_type_error(
        b,
        le_field(b, 32, 8) as int,
        le_field(b, 54, 2) as int,
        le_field(b, 24, 8) as int,
        le_field(b, 56, 2),
    );
}

/// Every other `e_type` than `ET_EXEC` and `ET_DYN` is refused, whatever
/// the rest of a well-formed ELF64 little-endian header says.
pub proof fn lemma_luna_init_other_types_refused(b: Seq<u8>)
    requires
        b.len() >= 64,
        b.subrange(0, 4) == elf_magic(),
        b[4] == 2 && b[5] == 1 && b[6] == 1,
        le_field(b, 16, 2) != 2 && le_field(b, 16, 2) != 3,
    ensures
        luna_init_result(b) is Err,
{
}

fn read_u64_at(b: &[u8], off: usize) -> (res: u64)
    requires
        off + 8 <= b@.len(),
    ensures
        res as nat == le_field(b@, off as int, 8),
{
    read_le(b, off, 8)
}

/// Checks a luna-init image before the kernel is started with it.
pub fn validate_luna_init(bytes: &[u8]) -> (res: Result<(), BootError>)
    ensures
        res == luna_init_result(bytes@),
{
    let len = bytes.len();
    if len < 64 {
        return Err(BootError::InvalidKernel);
    }
    if bytes[0] != 0x7f || bytes[1] != 0x45 || bytes[2] != 0x4c || bytes[3] != 0x46 {
        assert(bytes@.subrange(0, 4) != elf_magic()) by {
            if bytes@.subrange(0, 4) == elf_magic() {
                assert(bytes@[0] == bytes@.subrange(0, 4)[0]);
                assert(bytes@[1] == bytes@.subrange(0, 4)[1]);
                assert(bytes@[2] == bytes@.subrange(0, 4)[2]);
                assert(bytes@[3] == bytes@.subrange(0, 4)[3]);
            }
        }
        return Err(BootError::InvalidKernel);
    }
    assert(bytes@.subrange(0, 4) =~= elf_magic());
    if bytes[4] != 2 || bytes[5] != 1 || bytes[6] != 1 {
        return Err(BootError::Unsupported("luna-init must be ELF64 little-endian"));
    }
    let elf_type = read_u16_le(bytes, 16);
    if elf_type != 2 && elf_type != 3 {
        return Err(BootError::Unsupported("luna-init must be ET_EXEC or ET_DYN"));
    }
    if read_u16_le(bytes, 18) != 0x3e {
        return Err(BootError::Unsupported("luna-init must target x86_64"));
    }
    let entry = read_u64_at(bytes, 24);
    let phoff = read_u64_at(bytes, 32);
    let phentsize = read_u16_le(bytes, 54) as u64;
    let phnum = read_u16_le(bytes, 56) as u64;
    if phnum == 0 || phentsize < 56 {
        return Err(BootError::InvalidKernel);
    }
    assert(phnum * phentsize < 0x1_0000_0000) by (nonlinear_arith)
        requires
            phnum < 0x1_0000,
            phentsize < 0x1_0000,
    ;
    let table_size: u64 = phnum * phentsize;
    if phoff > len as u64 || table_size > len as u64 - phoff {
        return Err(BootError::InvalidKernel);
    }
    let ghost b = bytes@;
    let mut loadable: u64 = 0;
    let mut entry_executable = false;
    let mut load_low: u64 = u64::MAX;
    let mut load_high: u64 = 0;
    let mut index: u64 = 0;
    while index < phnum
        invariant
            b == bytes@,
            len == b.len(),
            len >= 64,
            b.subrange(0, 4) == elf_magic(),
            b[4] == 2 && b[5] == 1 && b[6] == 1,
            le_field(b, 16, 2) == 2 || le_field(b, 16, 2) == 3,
            le_field(b, 18, 2) == 0x3e,
            entry as nat == le_field(b, 24, 8),
            phoff as nat == le_field(b, 32, 8),
            phentsize as nat == le_field(b, 54, 2),
            phnum as nat == le_field(b, 56, 2),
            56 <= phentsize,
            0 < phnum < 0x1_0000,
            phentsize < 0x1_0000,
            phoff + phnum * phentsize <= len,
            index <= phnum,
            loadable <= index,
            init_scan(b, phoff as int, phentsize as int, entry as int, index as nat) == Ok::<
                InitScan,
                BootError,
            >(
                InitScan {
                    loadable: loadable as nat,
                    entry_executable,
                    low: load_low as int,
                    high: load_high as int,
                },
            ),
        decreases phnum - index,
    {
        assert(index * phentsize + phentsize <= phnum * phentsize) by (nonlinear_arith)
            requires
                index < phnum,
        ;
        let off: u64 = phoff + index * phentsize;
        assert(off as int == phoff + index * phentsize);
        let o = off as usize;
        let typ = read_u32_le(bytes, o);
        let flags = read_u32_le(bytes, o + 4);
        let p_offset = read_u64_at(bytes, o + 8);
        let vaddr = read_u64_at(bytes, o + 16);
        let paddr = read_u64_at(bytes, o + 24);
        let filesz = read_u64_at(bytes, o + 32);
        let memsz = read_u64_at(bytes, o + 40);
        let align = read_u64_at(bytes, o + 48);
        if typ == 3 {
            proof {
                lemma_init_scan_err_persists(b, phoff as int, phentsize as int, entry as int, (index + 1) as nat, phnum as nat);
            }
            return Err(BootError::Unsupported("luna-init must not require a dynamic linker"));
        }
        if typ == 1 {
            if p_offset > u64::MAX - filesz {
                proof {
                lemma_init_scan_err_persists(b, phoff as int, phentsize as int, entry as int, (index + 1) as nat, phnum as nat);
            }
            return Err(BootError::InvalidKernel);
            }
            let file_end = p_offset + filesz;
            if file_end > len as u64 || filesz > memsz {
                proof {
                lemma_init_scan_err_persists(b, phoff as int, phentsize as int, entry as int, (index + 1) as nat, phnum as nat);
            }
            return Err(BootError::InvalidKernel);
            }
            if vaddr > u64::MAX - memsz || paddr > u64::MAX - memsz {
                proof {
                lemma_init_scan_err_persists(b, phoff as int, phentsize as int, entry as int, (index + 1) as nat, phnum as nat);
            }
            return Err(BootError::InvalidKernel);
            }
            let mem_end = vaddr + memsz;
            if align != 0 {
                if !is_power_of_two(align) || p_offset % align != vaddr % align {
                    proof {
                lemma_init_scan_err_persists(b, phoff as int, phentsize as int, entry as int, (index + 1) as nat, phnum as nat);
            }
            return Err(BootError::Unsupported("luna-init segment alignment is invalid"));
                }
            }
            if (flags & 2 != 0) && (flags & 1 != 0) {
                proof {
                lemma_init_scan_err_persists(b, phoff as int, phentsize as int, entry as int, (index + 1) as nat, phnum as nat);
            }
            return Err(BootError::Unsupported("luna-init violates W^X"));
            }
            if vaddr < load_low {
                load_low = vaddr;
            }
            if mem_end > load_high {
                load_high = mem_end;
            }
            if (flags & 1 != 0) && entry >= vaddr && entry < mem_end {
                entry_executable = true;
            }
            loadable = loadable + 1;
        }
        index = index + 1;
    }
    if loadable == 0 || !entry_executable || load_low == u64::MAX {
        return Err(BootError::InvalidKernel);
    }
    if load_high < load_low {
        return Err(BootError::InvalidKernel);
    }
    if load_high - load_low > 512 * 1024 * 1024 {
        return Err(BootError::Unsupported("luna-init loadable memory exceeds safety limit"));
    }
    Ok(())
}

/// What the loader derives from a kernel and a luna-init image before it
/// places them in memory.
pub struct KernelImagePlan {
    pub setup: LinuxSetupHeader,
    /// BLAKE3 digest of the whole kernel image.
    pub kernel_digest: [u8; 32],
    /// Offset in the kernel image where the protected-mode part starts.
    pub protected_offset: usize,
    /// Bytes of memory to reserve for the kernel (`init_size`).
    pub kernel_size: usize,
    /// BLAKE3 digest of luna-init.
    pub init_digest: [u8; 32],
    /// The zero page, complete but for the command line pointer.
    pub boot_params: BootParams,
}

/// The checks on a kernel and init image, in the loader's order: the setup
/// header parses, the kernel advertises the 64-bit entry, its protected
/// part fits in `init_size`, luna-init validates, the setup header can be
/// copied, and the command line plus its terminator fits `cmdline_size`.
pub open spec fn kernel_plan_error(kernel: Seq<u8>, init: Seq<u8>, cmdline_len: nat) -> Option<
    BootError,
> {
    match setup_header_result(kernel) {
        Err(e) => Some(e),
        Ok(h) => if h.xloadflags & 1 == 0 {
            Some(BootError::Unsupported("kernel does not advertise XLF_KERNEL_64"))
        } else if kernel.len() - setup_size_spec(h.setup_sects) > h.init_size {
            Some(BootError::InvalidKernel)
        } else if luna_init_result(init) is Err {
            Some(luna_init_result(init)->Err_0)
        } else if kernel.len() < 0x290 {
            Some(BootError::InvalidKernel)
        } else if cmdline_len + 1 > h.cmdline_size {
            Some(BootError::Unsupported("kernel command line exceeds Linux cmdline_size"))
        } else {
            None
        },
    }
}

impl KernelImagePlan {
    /// Checks the images and prepares the zero page: the setup header
    /// copied in, loader type `0xff`, `LOADED_HIGH` added to `loadflags`,
    /// the setup heap enabled and an empty E820 table.
    pub fn new(kernel: &[u8], init: &[u8], cmdline: &[u8]) -> (res: Result<KernelImagePlan, BootError>)
        ensures
            match kernel_plan_error(kernel@, init@, cmdline@.len()) {
                Some(e) => res == Err::<KernelImagePlan, BootError>(e),
                None => res matches Ok(p) && {
                    &&& setup_header_result(kernel@) == Ok::<LinuxSetupHeader, BootError>(p.setup)
                    &&& p.kernel_digest@ == blake3_digest(kernel@)
                    &&& p.init_digest@ == blake3_digest(init@)
                    &&& p.protected_offset as int == setup_size_spec(p.setup.setup_sects)
                    &&& p.kernel_size == p.setup.init_size
                    &&& p.boot_params@.len() == 4096
                },
            },
    {
        let kernel_digest = hash32(kernel);
        let setup = match LinuxSetupHeader::parse(kernel) {
            Ok(h) => h,
            Err(e) => return Err(e),
        };
        if setup.xloadflags & 1 == 0 {
            return Err(BootError::Unsupported("kernel does not advertise XLF_KERNEL_64"));
        }
        let protected_offset = setup.protected_mode_offset();
        if protected_offset > kernel.len() {
            return Err(BootError::InvalidKernel);
        }
        let kernel_size = setup.init_size as usize;
        if kernel.len() - protected_offset > kernel_size {
            return Err(BootError::InvalidKernel);
        }
        match validate_luna_init(init) {
            Ok(()) => {},
            Err(e) => return Err(e),
        }
        let init_digest = hash32(init);
        let mut boot_params = BootParams::zeroed();
        match boot_params.copy_setup_header(kernel) {
            Ok(()) => {},
            Err(e) => return Err(e),
        }
        boot_params.set_loader_type(0xff);
        boot_params.set_loadflags(setup.loadflags | 0x01);
        boot_params.enable_setup_heap();
        if cmdline.len() >= setup.cmdline_size as usize {
            return Err(BootError::Unsupported("kernel command line exceeds Linux cmdline_size"));
        }
        let empty: Vec<crate::linux_boot::E820Entry> = Vec::new();
        let _ = boot_params.set_e820(empty.as_slice());
        Ok(KernelImagePlan { setup, kernel_digest, protected_offset, kernel_size, init_digest, boot_params })
    }
}

} // verus!
