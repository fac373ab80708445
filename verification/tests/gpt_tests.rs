use luna::boot_target::BootError;
use luna::gpt::{crc32_ieee, find_data_partition, find_named_partition, find_system_partition, GptHeader, MemoryDisk};

fn name_utf16(name: &str) -> Vec<u8> {
    let mut out = Vec::new();
    for unit in name.encode_utf16() {
        out.extend_from_slice(&unit.to_le_bytes());
    }
    out
}

fn entry(guid_byte: u8, first: u64, last: u64, name: &str) -> Vec<u8> {
    let mut e = vec![0u8; 128];
    e[0..16].fill(0xaa);
    e[16..32].fill(guid_byte);
    e[32..40].copy_from_slice(&first.to_le_bytes());
    e[40..48].copy_from_slice(&last.to_le_bytes());
    let n = name_utf16(name);
    e[56..56 + n.len()].copy_from_slice(&n);
    e
}

fn disk(entries: &[Vec<u8>], count: u32) -> Vec<u8> {
    let bs = 512usize;
    let mut table = vec![0u8; count as usize * 128];
    for (i, e) in entries.iter().enumerate() {
        table[i * 128..(i + 1) * 128].copy_from_slice(e);
    }
    let mut header = vec![0u8; bs];
    header[0..8].copy_from_slice(b"EFI PART");
    header[0x0c..0x10].copy_from_slice(&92u32.to_le_bytes());
    header[0x38..0x48].fill(0x5d);
    header[0x48..0x50].copy_from_slice(&2u64.to_le_bytes());
    header[0x50..0x54].copy_from_slice(&count.to_le_bytes());
    header[0x54..0x58].copy_from_slice(&128u32.to_le_bytes());
    header[0x58..0x5c].copy_from_slice(&crc32_ieee(&table).to_le_bytes());
    let crc = crc32_ieee(&header[..92]);
    header[0x10..0x14].copy_from_slice(&crc.to_le_bytes());
    let mut image = vec![0u8; 2 * bs];
    image[bs..2 * bs].copy_from_slice(&header);
    image.extend_from_slice(&table);
    image
}

#[test]
fn crc32_matches_the_standard_check_value() {
    assert_eq!(crc32_ieee(b"123456789"), 0xcbf4_3926);
    assert_eq!(crc32_ieee(b""), 0);
}

#[test]
fn partitions_are_found_by_name_ignoring_case() {
    let entries = vec![entry(1, 34, 2047, "EFI"), entry(2, 2048, 4095, "System"), entry(3, 4096, 8191, "data")];
    let mut d = MemoryDisk { block_size: 512, bytes: disk(&entries, 16) };
    let sys = find_system_partition(&mut d).unwrap();
    assert_eq!(sys.first_lba, 2048);
    assert_eq!(sys.last_lba, 4095);
    assert_eq!(sys.partition_guid, [2u8; 16]);
    assert_eq!(sys.disk_guid, [0x5d; 16]);
    assert_eq!(sys.label, "System");
    let data = find_data_partition(&mut d).unwrap();
    assert_eq!(data.first_lba, 4096);
    assert!(matches!(find_named_partition(&mut d, "swap"), Err(BootError::TargetNotFound)));
}

#[test]
fn later_match_in_the_same_block_wins() {
    let entries = vec![entry(1, 10, 20, "data"), entry(2, 30, 40, "DATA")];
    let mut d = MemoryDisk { block_size: 512, bytes: disk(&entries, 8) };
    let p = find_named_partition(&mut d, "data").unwrap();
    assert_eq!(p.first_lba, 30);
}

#[test]
fn corrupted_tables_and_block_sizes_are_rejected() {
    let entries = vec![entry(2, 2048, 4095, "system")];
    let mut image = disk(&entries, 4);
    let last = image.len() - 1;
    image[last] ^= 1;
    let mut d = MemoryDisk { block_size: 512, bytes: image };
    assert!(matches!(find_system_partition(&mut d), Err(BootError::InvalidFilesystem)));
    let mut odd = MemoryDisk { block_size: 520, bytes: disk(&entries, 4) };
    assert!(matches!(find_system_partition(&mut odd), Err(BootError::Unsupported(_))));
    let mut header_bad = disk(&entries, 4);
    header_bad[512 + 0x20] ^= 1;
    let mut d2 = MemoryDisk { block_size: 512, bytes: header_bad };
    assert!(matches!(find_system_partition(&mut d2), Err(BootError::InvalidFilesystem)));
}

#[test]
fn header_fields_are_taken_from_lba_one() {
    let image = disk(&[entry(2, 1, 2, "system")], 4);
    let h = GptHeader::parse(&image[512..1024]).unwrap();
    assert_eq!(h.entries_lba, 2);
    assert_eq!(h.entry_count, 4);
    assert_eq!(h.entry_size, 128);
    assert_eq!(h.disk_guid, [0x5d; 16]);
    assert!(matches!(GptHeader::parse(&[0u8; 512]), Err(BootError::InvalidFilesystem)));
}
