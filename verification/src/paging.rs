//! Identity page tables for the Linux 64-bit boot protocol: 2 MiB pages
//! mapping every address below the covered range to itself, under a
//! 4-level root or, when the CPU runs with 5-level paging, a 5-level root
//! whose first entry leads to the same tables.
//!
//! The tables are built as bytes for the pages the firmware allocated at
//! `base`; the root is the first of them.

use vstd::prelude::*;
use crate::boot_target::BootError;
use crate::bytes::{le_encode, push_le, lemma_le_encode_len};

verus! {

/// Page directories mapped at least: 64 GiB.
pub const BASE_PD_COUNT: usize = 64;

pub const ENTRIES_PER_TABLE: usize = 512;

pub const PAGE_SIZE: u64 = 4096;

pub const PAGE_2M: u64 = 0x20_0000;

pub const PAGE_1G: u64 = 0x4000_0000;

/// What the first PML4 entry covers: 512 GiB.
pub const MAX_PML4_ZERO_REGION: u64 = 0x80_0000_0000;

/// Room kept mapped after the transition code and after the stack.
pub const TRANSITION_CUSHION: u64 = 0x20_0000;

/// The CR4 bit of 5-level paging.
pub const CR4_LA57: u64 = 0x1000;

/// Present and writable.
pub const TABLE_FLAGS: u64 = 0x3;

/// Present, writable, 2 MiB page.
pub const LARGE_PAGE_FLAGS: u64 = 0x83;

/// Shape of the identity tables.
#[derive(Clone, Copy, Debug, PartialEq, Eq, Structural)]
pub struct IdentityMapLayout {
    /// Page directories, each mapping 1 GiB.
    pub pd_count: usize,
    /// Whether the root is a PML5 table.
    pub five_level: bool,
}

impl IdentityMapLayout {
    /// Pages the tables take: the optional PML5, the PML4, the PDPT and the
    /// page directories.
    pub open spec fn spec_pages(self) -> nat {
        ((if self.five_level {
            1nat
        } else {
            0nat
        }) + 2 + self.pd_count) as nat
    }

    pub fn table_pages(&self) -> (res: usize)
        requires
            self.pd_count <= ENTRIES_PER_TABLE,
        ensures
            res == self.spec_pages(),
    {
        (if self.five_level {
            1
        } else {
            0
        }) + 2 + self.pd_count
    }
}

pub open spec fn max_nat(a: nat, b: nat) -> nat {
    if a >= b {
        a
    } else {
        b
    }
}

/// The layout that covers 64 GiB, the transition code and the stack, each
/// with its 2 MiB cushion, within the first 512 GiB; the root's depth
/// follows CR4.LA57.
pub open spec fn identity_layout(entry_address: u64, stack: u64, cr4: u64) -> Result<IdentityMapLayout, BootError> {
    if entry_address + TRANSITION_CUSHION > u64::MAX || stack + TRANSITION_CUSHION > u64::MAX {
        Err(BootError::MemoryAllocationFailed)
    } else {
        let required = max_nat(
            max_nat((BASE_PD_COUNT * PAGE_1G) as nat, (entry_address + TRANSITION_CUSHION) as nat),
            (stack + TRANSITION_CUSHION) as nat,
        );
        if required > MAX_PML4_ZERO_REGION {
            Err(BootError::Unsupported("loader transition address exceeds the low identity-map region"))
        } else {
            let gib = ((required + PAGE_1G - 1) as nat) / (PAGE_1G as nat);
            Ok(
                IdentityMapLayout {
                    pd_count: max_nat(BASE_PD_COUNT as nat, gib) as usize,
                    five_level: cr4 & CR4_LA57 != 0,
                },
            )
        }
    }
}

/// Chooses the layout (see [`identity_layout`]).
pub fn identity_map_layout(entry_address: u64, stack: u64, cr4: u64) -> (res: Result<IdentityMapLayout, BootError>)
    ensures
        res == identity_layout(entry_address, stack, cr4),
        res matches Ok(l) ==> BASE_PD_COUNT <= l.pd_count <= ENTRIES_PER_TABLE,
{
    let transition_end = match entry_address.checked_add(TRANSITION_CUSHION) {
        Some(v) => v,
        None => return Err(BootError::MemoryAllocationFailed),
    };
    let stack_end = match stack.checked_add(TRANSITION_CUSHION) {
        Some(v) => v,
        None => return Err(BootError::MemoryAllocationFailed),
    };
    let base_end = BASE_PD_COUNT as u64 * PAGE_1G;
    let mut required = base_end;
    if transition_end > required {
        required = transition_end;
    }
    if stack_end > required {
        required = stack_end;
    }
    if required > MAX_PML4_ZERO_REGION {
        return Err(BootError::Unsupported("loader transition address exceeds the low identity-map region"));
    }
    let gib = ((required + PAGE_1G - 1) / PAGE_1G) as usize;
    assert(gib <= 512) by (nonlinear_arith)
        requires
            gib == (required + PAGE_1G - 1) / (PAGE_1G as int),
            required <= MAX_PML4_ZERO_REGION,
    ;
    let pd_count = if gib > BASE_PD_COUNT {
        gib
    } else {
        BASE_PD_COUNT
    };
    Ok(IdentityMapLayout { pd_count, five_level: cr4 & CR4_LA57 != 0 })
}

/// Page holding the PML4.
pub open spec fn pml4_page(l: IdentityMapLayout) -> nat {
    if l.five_level {
        1
    } else {
        0
    }
}

/// Page holding the first page directory.
pub open spec fn first_pd_page(l: IdentityMapLayout) -> nat {
    pml4_page(l) + 2
}

/// Word `k` of the tables placed at `base`: the PML5 (if any) and the PML4
/// each have one entry, for the next table; the PDPT has one entry per
/// page directory; page directory `i` maps 2 MiB page `j` of its GiB to
/// itself.
pub open spec fn table_word(base: u64, l: IdentityMapLayout, k: nat) -> u64 {
    let page = k / 512;
    let idx = k % 512;
    if l.five_level && page == 0 {
        if idx == 0 {
            ((base + PAGE_SIZE) as u64) | TABLE_FLAGS
        } else {
            0
        }
    } else if page == pml4_page(l) {
        if idx == 0 {
            ((base + (pml4_page(l) + 1) * PAGE_SIZE) as u64) | TABLE_FLAGS
        } else {
            0
        }
    } else if page == pml4_page(l) + 1 {
        if idx < l.pd_count {
            ((base + (first_pd_page(l) + idx) * PAGE_SIZE) as u64) | TABLE_FLAGS
        } else {
            0
        }
    } else {
        ((((page - first_pd_page(l)) * 512 + idx) * PAGE_2M) as u64) | LARGE_PAGE_FLAGS
    }
}

/// The little-endian bytes of words `0..n`.
pub open spec fn words_bytes(base: u64, l: IdentityMapLayout, n: nat) -> Seq<u8>
    decreases n,
{
    if n == 0 {
        Seq::empty()
    } else {
        words_bytes(base, l, (n - 1) as nat) + le_encode(table_word(base, l, (n - 1) as nat) as nat, 8)
    }
}

/// Tables that fit below 4 GiB, where the firmware allocates them.
pub open spec fn tables_fit(base: u64, l: IdentityMapLayout) -> bool {
    &&& base % PAGE_SIZE == 0
    &&& base + l.spec_pages() * PAGE_SIZE <= 0x1_0000_0000
    &&& BASE_PD_COUNT <= l.pd_count <= ENTRIES_PER_TABLE
}

/// The bytes of the identity tables for pages at `base` (see
/// [`table_word`]).
pub fn identity_tables(base: u64, layout: &IdentityMapLayout) -> (res: Vec<u8>)
    requires
        tables_fit(base, *layout),
    ensures
        res@ == words_bytes(base, *layout, layout.spec_pages() * 512),
        res@.len() == layout.spec_pages() * PAGE_SIZE,
{
    let pages = layout.table_pages();
    let words = pages * 512;
    let five = layout.five_level;
    let pml4: usize = if five {
        1
    } else {
        0
    };
    let first_pd = pml4 + 2;
    let mut out: Vec<u8> = Vec::new();
    let mut k: usize = 0;
    while k < words
        invariant
            tables_fit(base, *layout),
            words == layout.spec_pages() * 512,
            pml4 == pml4_page(*layout),
            first_pd == first_pd_page(*layout),
            five == layout.five_level,
            k <= words,
            out@ == words_bytes(base, *layout, k as nat),
            out@.len() == k * 8,
        decreases words - k,
    {
        let page = k / 512;
        let idx = k % 512;
        assert(page < layout.spec_pages()) by (nonlinear_arith)
            requires
                page == k / 512,
                k < layout.spec_pages() * 512,
        ;
        let word: u64 = if five && page == 0 {
            if idx == 0 {
                (base + PAGE_SIZE) | TABLE_FLAGS
            } else {
                0
            }
        } else if page == pml4 {
            if idx == 0 {
                (base + (pml4 as u64 + 1) * PAGE_SIZE) | TABLE_FLAGS
            } else {
                0
            }
        } else if page == pml4 + 1 {
            if idx < layout.pd_count {
                (base + (first_pd + idx) as u64 * PAGE_SIZE) | TABLE_FLAGS
            } else {
                0
            }
        } else {
            assert((page - first_pd) * 512 + idx < 512 * 512) by (nonlinear_arith)
                requires
                    page < first_pd + 512,
                    page >= first_pd,
                    idx < 512,
            ;
            (((page - first_pd) * 512 + idx) as u64 * PAGE_2M) | LARGE_PAGE_FLAGS
        };
        assert(word == table_word(base, *layout, k as nat));
        push_le(&mut out, word, 8);
        proof {
            lemma_le_encode_len(word as nat, 8);
        }
        k = k + 1;
    }
    proof {
        assert(words * 8 == layout.spec_pages() * PAGE_SIZE) by (nonlinear_arith)
            requires
                words == layout.spec_pages() * 512,
        ;
    }
    out
}

/// Address bits of a table entry.
pub const ADDR_MASK: u64 = 0x000f_ffff_ffff_f000;

/// Address bits of a 2 MiB page entry.
pub const LARGE_ADDR_MASK: u64 = 0x000f_ffff_ffe0_0000;

/// Entry `idx` of the table at physical address `table`, the tables being
/// placed at `base`.
pub open spec fn entry_at(base: u64, l: IdentityMapLayout, table: u64, idx: u64) -> u64 {
    table_word(base, l, (((table - base) / (PAGE_SIZE as int)) * 512 + idx) as nat)
}

/// The physical address the tables at `base` give the virtual address `v`
/// (root at `base`): a present entry at each level, ending in a present
/// 2 MiB page.
pub open spec fn translate(base: u64, l: IdentityMapLayout, v: u64) -> Option<u64> {
    let top = if l.five_level {
        let e5 = entry_at(base, l, base, (v >> 48u64) & 511);
        if e5 & 1 == 0 {
            None
        } else {
            Some(e5 & ADDR_MASK)
        }
    } else {
        Some(base)
    };
    match top {
        None => None,
        Some(t4) => {
            let e4 = entry_at(base, l, t4, (v >> 39u64) & 511);
            if e4 & 1 == 0 {
                None
            } else {
                let e3 = entry_at(base, l, e4 & ADDR_MASK, (v >> 30u64) & 511);
                if e3 & 1 == 0 || e3 & 0x80 != 0 {
                    None
                } else {
                    let e2 = entry_at(base, l, e3 & ADDR_MASK, (v >> 21u64) & 511);
                    if e2 & 1 == 0 || e2 & 0x80 == 0 {
                        None
                    } else {
                        Some((e2 & LARGE_ADDR_MASK) | (v & 0x1f_ffff))
                    }
                }
            }
        },
    }
}

proof fn lemma_table_entry_bits(a: u64)
    requires
        a % 4096 == 0,
        a < 0x1_0000_0000,
    ensures
        (a | TABLE_FLAGS) & 1 != 0,
        (a | TABLE_FLAGS) & 0x80 == 0,
        (a | TABLE_FLAGS) & ADDR_MASK == a,
{
    assert((a | 3u64) & 1u64 != 0) by (bit_vector);
    assert((a | 3u64) & 0x80u64 == 0) by (bit_vector)
        requires
            a % 4096 == 0,
    ;
    assert((a | 3u64) & 0x000f_ffff_ffff_f000u64 == a) by (bit_vector)
        requires
            a % 4096 == 0,
            a < 0x1_0000_0000,
    ;
}

proof fn lemma_low_address_bits(v: u64)
    requires
        v < 0x80_0000_0000,
    ensures
        (v >> 48u64) & 511 == 0,
        (v >> 39u64) & 511 == 0,
        (v >> 30u64) & 511 == v / 0x4000_0000,
        (v >> 21u64) & 511 == (v / 0x20_0000) % 512,
        v / 0x20_0000 == (v / 0x4000_0000) * 512 + (v / 0x20_0000) % 512,
        (((v / 0x20_0000) * 0x20_0000) as u64 | LARGE_PAGE_FLAGS) & 1 != 0,
        (((v / 0x20_0000) * 0x20_0000) as u64 | LARGE_PAGE_FLAGS) & 0x80 != 0,
        ((((v / 0x20_0000) * 0x20_0000) as u64 | LARGE_PAGE_FLAGS) & LARGE_ADDR_MASK) | (v & 0x1f_ffff) == v,
{
    assert((v >> 48u64) & 511u64 == 0) by (bit_vector)
        requires
            v < 0x80_0000_0000u64,
    ;
    assert((v >> 39u64) & 511u64 == 0) by (bit_vector)
        requires
            v < 0x80_0000_0000u64,
    ;
    assert((v >> 30u64) & 511u64 == v / 0x4000_0000u64) by (bit_vector)
        requires
            v < 0x80_0000_0000u64,
    ;
    assert((v >> 21u64) & 511u64 == (v / 0x20_0000u64) % 512u64) by (bit_vector);
    assert(v / 0x20_0000u64 == (v / 0x4000_0000u64) * 512u64 + (v / 0x20_0000u64) % 512u64) by (bit_vector)
        requires
            v < 0x80_0000_0000u64,
    ;
    assert(((((v / 0x20_0000u64) * 0x20_0000u64) as u64) | 0x83u64) & 1u64 != 0) by (bit_vector)
        requires
            v < 0x80_0000_0000u64,
    ;
    assert(((((v / 0x20_0000u64) * 0x20_0000u64) as u64) | 0x83u64) & 0x80u64 != 0) by (bit_vector)
        requires
            v < 0x80_0000_0000u64,
    ;
    assert((((((v / 0x20_0000u64) * 0x20_0000u64) as u64) | 0x83u64) & 0x000f_ffff_ffe0_0000u64) | (v & 0x1f_ffffu64)
        == v) by (bit_vector)
        requires
            v < 0x80_0000_0000u64,
    ;
}

/// The tables map every address they cover to itself: each virtual
/// address below `pd_count` GiB translates to the same physical address.
pub proof fn lemma_identity_mapping(base: u64, l: IdentityMapLayout, v: u64)
    requires
        tables_fit(base, l),
        v < l.pd_count * PAGE_1G,
    ensures
        translate(base, l, v) == Some(v),
{
    let p4 = pml4_page(l);
    let fp = first_pd_page(l);
    assert(v < 0x80_0000_0000) by (nonlinear_arith)
        requires
            v < l.pd_count * PAGE_1G,
            l.pd_count <= 512,
    ;
    lemma_low_address_bits(v);
    let t4 = (base + p4 * PAGE_SIZE) as u64;
    assert(t4 % 4096 == 0 && t4 < 0x1_0000_0000);
    if l.five_level {
        let e5 = entry_at(base, l, base, (v >> 48u64) & 511);
        assert(e5 == table_word(base, l, 0));
        lemma_table_entry_bits((base + PAGE_SIZE) as u64);
        assert(e5 & ADDR_MASK == t4);
    }
    let e4 = entry_at(base, l, t4, (v >> 39u64) & 511);
    assert((t4 - base) / (PAGE_SIZE as int) == p4);
    assert(e4 == table_word(base, l, p4 * 512));
    assert((p4 * 512) / 512 == p4 && (p4 * 512) % 512 == 0) by (nonlinear_arith);
    let t3 = (base + (p4 + 1) * PAGE_SIZE) as u64;
    lemma_table_entry_bits(t3);
    assert(e4 == t3 | TABLE_FLAGS);
    let i = v / 0x4000_0000;
    assert(i < l.pd_count) by (nonlinear_arith)
        requires
            v < l.pd_count * PAGE_1G,
            i == v / 0x4000_0000,
    ;
    let e3 = entry_at(base, l, e4 & ADDR_MASK, (v >> 30u64) & 511);
    assert((t3 - base) / (PAGE_SIZE as int) == p4 + 1);
    let k3 = ((p4 + 1) * 512 + i) as nat;
    assert(k3 / 512 == p4 + 1 && k3 % 512 == i) by (nonlinear_arith)
        requires
            k3 == (p4 + 1) * 512 + i,
            i < 512,
    ;
    let t2 = (base + (fp + i) * PAGE_SIZE) as u64;
    assert((fp + i) * PAGE_SIZE + base <= base + l.spec_pages() * PAGE_SIZE) by (nonlinear_arith)
        requires
            fp + i < l.spec_pages(),
    ;
    assert(t2 % 4096 == 0) by (nonlinear_arith)
        requires
            base % 4096 == 0,
            t2 == base + (fp + i) * 4096,
    ;
    lemma_table_entry_bits(t2);
    assert(e3 == t2 | TABLE_FLAGS);
    let j = (v / 0x20_0000) % 512;
    let e2 = entry_at(base, l, e3 & ADDR_MASK, (v >> 21u64) & 511);
    assert((t2 - base) / (PAGE_SIZE as int) == fp + i) by (nonlinear_arith)
        requires
            t2 - base == (fp + i) * 4096,
    ;
    let k2 = ((fp + i) * 512 + j) as nat;
    assert(k2 / 512 == fp + i && k2 % 512 == j) by (nonlinear_arith)
        requires
            k2 == (fp + i) * 512 + j,
            j < 512,
    ;
    assert(e2 == ((((fp + i - fp) * 512 + j) * PAGE_2M) as u64) | LARGE_PAGE_FLAGS);
    assert((i * 512 + j) * 0x20_0000 == (v / 0x20_0000) * 0x20_0000);
}

} // verus!
