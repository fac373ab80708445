use luna::boot_target::BootError;
use luna::paging::{identity_map_layout, identity_tables, IdentityMapLayout};

fn word(table: &[u8], index: usize) -> u64 {
    u64::from_le_bytes(table[index * 8..index * 8 + 8].try_into().unwrap())
}

/// Walks the tables placed at `base` for the virtual address `v`.
fn walk(table: &[u8], base: u64, five_level: bool, v: u64) -> Option<u64> {
    let entry = |t: u64, idx: u64| word(table, (((t - base) / 4096) * 512 + idx) as usize);
    let mut t = base;
    if five_level {
        let e5 = entry(t, (v >> 48) & 511);
        if e5 & 1 == 0 {
            return None;
        }
        t = e5 & 0x000f_ffff_ffff_f000;
    }
    let e4 = entry(t, (v >> 39) & 511);
    if e4 & 1 == 0 {
        return None;
    }
    let e3 = entry(e4 & 0x000f_ffff_ffff_f000, (v >> 30) & 511);
    if e3 & 1 == 0 || e3 & 0x80 != 0 {
        return None;
    }
    let e2 = entry(e3 & 0x000f_ffff_ffff_f000, (v >> 21) & 511);
    if e2 & 1 == 0 || e2 & 0x80 == 0 {
        return None;
    }
    Some((e2 & 0x000f_ffff_ffe0_0000) | (v & 0x1f_ffff))
}

#[test]
fn layout_covers_the_base_range_and_the_transition() {
    let l = identity_map_layout(0x1000, 0x2000, 0).unwrap();
    assert_eq!(l, IdentityMapLayout { pd_count: 64, five_level: false });
    assert_eq!(l.table_pages(), 66);
    let high = identity_map_layout(100 << 30, 0x2000, 1 << 12).unwrap();
    assert_eq!(high, IdentityMapLayout { pd_count: 101, five_level: true });
    assert_eq!(high.table_pages(), 104);
    assert_eq!(identity_map_layout(0x2000, (64 << 30) - 0x20_0000, 0).unwrap().pd_count, 64);
    assert_eq!(identity_map_layout(0x2000, (64 << 30) - 0x1f_ffff, 0).unwrap().pd_count, 65);
}

#[test]
fn layout_errors_are_reported() {
    assert_eq!(identity_map_layout(u64::MAX - 5, 0, 0), Err(BootError::MemoryAllocationFailed));
    assert_eq!(identity_map_layout(0, u64::MAX, 0), Err(BootError::MemoryAllocationFailed));
    assert_eq!(
        identity_map_layout(512 << 30, 0, 0),
        Err(BootError::Unsupported("loader transition address exceeds the low identity-map region"))
    );
}

#[test]
fn four_level_tables_map_addresses_to_themselves() {
    let base = 0x0010_0000u64;
    let layout = identity_map_layout(0x1000, 0x2000, 0).unwrap();
    let table = identity_tables(base, &layout);
    assert_eq!(table.len(), 66 * 4096);
    assert_eq!(word(&table, 0), (base + 4096) | 3);
    assert_eq!(word(&table, 1), 0);
    assert_eq!(word(&table, 512), (base + 2 * 4096) | 3);
    assert_eq!(word(&table, 512 + 63), (base + 65 * 4096) | 3);
    assert_eq!(word(&table, 512 + 64), 0);
    assert_eq!(word(&table, 1024), 0x83);
    assert_eq!(word(&table, 1025), 0x20_0000 | 0x83);
    for v in [0u64, 0x1234, 0x20_0000, 0x7fff_ffff, 0x4000_0000, (64 << 30) - 1, 0xdead_beef] {
        assert_eq!(walk(&table, base, false, v), Some(v));
    }
}

#[test]
fn five_level_root_leads_to_the_same_tables() {
    let base = 0x0020_0000u64;
    let layout = IdentityMapLayout { pd_count: 64, five_level: true };
    let table = identity_tables(base, &layout);
    assert_eq!(table.len(), 67 * 4096);
    assert_eq!(word(&table, 0), (base + 4096) | 3);
    assert_eq!(word(&table, 512), (base + 2 * 4096) | 3);
    assert_eq!(word(&table, 1024), (base + 3 * 4096) | 3);
    for v in [0u64, 0x1_2345_6789, (64 << 30) - 1] {
        assert_eq!(walk(&table, base, true, v), Some(v));
    }
}
