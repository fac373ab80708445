use luna::boot_target::BootError;
use luna::kernel_image::{validate_luna_init, KernelImagePlan};
use luna::linux_boot::{
    e820_entries, BootParams, E820Entry, E820Extension, LinuxSetupHeader, MemoryDescriptor, MAX_E820_EXT_ENTRIES,
};

fn bzimage(len: usize) -> Vec<u8> {
    let mut image = vec![0u8; len];
    image[0x1f1] = 2; // setup_sects
    image[0x1fe..0x200].copy_from_slice(&0xaa55u16.to_le_bytes());
    image[0x202..0x206].copy_from_slice(&0x5372_6448u32.to_le_bytes());
    image[0x206..0x208].copy_from_slice(&0x020fu16.to_le_bytes());
    image[0x211] = 0x01;
    image[0x230..0x234].copy_from_slice(&0x20_0000u32.to_le_bytes());
    image[0x234] = 1;
    image[0x236..0x238].copy_from_slice(&0x3u16.to_le_bytes());
    image[0x238..0x23c].copy_from_slice(&2048u32.to_le_bytes());
    image[0x248..0x24c].copy_from_slice(&0x10u32.to_le_bytes());
    image[0x24c..0x250].copy_from_slice(&0x20u32.to_le_bytes());
    image[0x258..0x260].copy_from_slice(&0x100_0000u64.to_le_bytes());
    image[0x260..0x264].copy_from_slice(&0x40_0000u32.to_le_bytes());
    image
}

fn static_init(flags: u32, typ: u32) -> Vec<u8> {
    let mut b = vec![0u8; 0x200];
    b[0..4].copy_from_slice(b"\x7fELF");
    b[4] = 2;
    b[5] = 1;
    b[6] = 1;
    b[16..18].copy_from_slice(&2u16.to_le_bytes());
    b[18..20].copy_from_slice(&0x3eu16.to_le_bytes());
    b[24..32].copy_from_slice(&0x401000u64.to_le_bytes());
    b[32..40].copy_from_slice(&64u64.to_le_bytes());
    b[54..56].copy_from_slice(&56u16.to_le_bytes());
    b[56..58].copy_from_slice(&1u16.to_le_bytes());
    let ph = 64;
    b[ph..ph + 4].copy_from_slice(&typ.to_le_bytes());
    b[ph + 4..ph + 8].copy_from_slice(&flags.to_le_bytes());
    b[ph + 8..ph + 16].copy_from_slice(&0u64.to_le_bytes());
    b[ph + 16..ph + 24].copy_from_slice(&0x400000u64.to_le_bytes());
    b[ph + 24..ph + 32].copy_from_slice(&0x400000u64.to_le_bytes());
    b[ph + 32..ph + 40].copy_from_slice(&0x200u64.to_le_bytes());
    b[ph + 40..ph + 48].copy_from_slice(&0x2000u64.to_le_bytes());
    b[ph + 48..ph + 56].copy_from_slice(&0x1000u64.to_le_bytes());
    b
}

#[test]
fn setup_header_is_read_from_the_documented_offsets() {
    let image = bzimage(0x1000);
    let h = LinuxSetupHeader::parse(&image).unwrap();
    assert_eq!(h.version, 0x020f);
    assert_eq!(h.kernel_alignment, 0x20_0000);
    assert_eq!(h.cmdline_size, 2048);
    assert_eq!(h.pref_address, 0x100_0000);
    assert_eq!(h.setup_size(), 3 * 512);
    assert_eq!(h.protected_mode_offset(), 3 * 512);
    assert_eq!(h.entry_offset(), 0x200);
    assert!(h.supports_above_4g());
    assert_eq!(LinuxSetupHeader::setup_size_from(0), 5 * 512);
}

#[test]
fn malformed_kernels_are_rejected() {
    assert!(matches!(LinuxSetupHeader::parse(&[0u8; 0x100]), Err(BootError::InvalidKernel)));
    let mut old = bzimage(0x1000);
    old[0x206..0x208].copy_from_slice(&0x020bu16.to_le_bytes());
    assert!(matches!(LinuxSetupHeader::parse(&old), Err(BootError::Unsupported(_))));
    let mut odd_align = bzimage(0x1000);
    odd_align[0x230..0x234].copy_from_slice(&3u32.to_le_bytes());
    assert!(matches!(LinuxSetupHeader::parse(&odd_align), Err(BootError::InvalidKernel)));
    let mut fixed = bzimage(0x1000);
    fixed[0x234] = 0;
    assert!(matches!(LinuxSetupHeader::parse(&fixed), Err(BootError::InvalidKernel)));
    // payload ends past the image
    assert!(matches!(LinuxSetupHeader::parse(&bzimage(0x620)), Err(BootError::InvalidKernel)));
}

#[test]
fn zero_page_fields_are_written_in_place() {
    let kernel = bzimage(0x1000);
    let mut p = BootParams::zeroed();
    p.copy_setup_header(&kernel).unwrap();
    assert_eq!(&p.as_bytes()[0x1f1..0x290], &kernel[0x1f1..0x290]);
    p.set_loader_type(0xff);
    p.enable_setup_heap();
    assert_eq!(p.as_bytes()[0x210], 0xff);
    assert_eq!(p.as_bytes()[0x211], 0x81);
    assert_eq!(&p.as_bytes()[0x224..0x226], &0xde00u16.to_le_bytes());
    p.set_cmdline(0x9_0000).unwrap();
    assert_eq!(&p.as_bytes()[0x228..0x22c], &0x9_0000u32.to_le_bytes());
    assert!(matches!(p.set_cmdline(0xA_0000), Err(BootError::Unsupported(_))));
    p.set_setup_data(0x1234_5678).unwrap();
    assert_eq!(&p.as_bytes()[0x250..0x258], &0x1234_5678u64.to_le_bytes());
    assert!(p.set_setup_data(0x1_0000_0000).is_err());
    let entries = [E820Entry { addr: 0x1000, size: 0x2000, typ: 1, reserved: 0 }];
    p.set_e820(&entries).unwrap();
    assert_eq!(p.as_bytes()[0x1e8], 1);
    assert_eq!(&p.as_bytes()[0x2d0..0x2d8], &0x1000u64.to_le_bytes());
    assert_eq!(&p.as_bytes()[0x2d8..0x2e0], &0x2000u64.to_le_bytes());
    assert_eq!(&p.as_bytes()[0x2e0..0x2e4], &1u32.to_le_bytes());
    assert!(p.set_e820(&vec![E820Entry::default(); 129]).is_err());
    assert_eq!(p.as_bytes().len(), 4096);
}

#[test]
fn static_luna_init_is_accepted() {
    assert!(validate_luna_init(&static_init(5, 1)).is_ok());
}

#[test]
fn luna_init_with_interpreter_or_wx_segment_is_rejected() {
    assert!(matches!(validate_luna_init(&static_init(5, 3)), Err(BootError::Unsupported(_))));
    assert!(matches!(validate_luna_init(&static_init(7, 1)), Err(BootError::Unsupported(_))));
    // entry outside every executable segment
    assert!(matches!(validate_luna_init(&static_init(4, 1)), Err(BootError::InvalidKernel)));
    let mut not_elf = static_init(5, 1);
    not_elf[0] = 0;
    assert!(matches!(validate_luna_init(&not_elf), Err(BootError::InvalidKernel)));
    let mut arm = static_init(5, 1);
    arm[18..20].copy_from_slice(&0xb7u16.to_le_bytes());
    assert!(matches!(validate_luna_init(&arm), Err(BootError::Unsupported(_))));
}

#[test]
fn kernel_plan_checks_images_and_prepares_the_zero_page() {
    let kernel = bzimage(0x1000);
    let init = static_init(5, 1);
    let plan = KernelImagePlan::new(&kernel, &init, b"console=ttyS0").ok().unwrap();
    assert_eq!(plan.kernel_digest, *blake3::hash(&kernel).as_bytes());
    assert_eq!(plan.init_digest, *blake3::hash(&init).as_bytes());
    assert_eq!(plan.protected_offset, 3 * 512);
    assert_eq!(plan.kernel_size, 0x40_0000);
    assert_eq!(plan.boot_params.as_bytes()[0x210], 0xff);
    assert_eq!(plan.boot_params.as_bytes()[0x211] & 0x81, 0x81);
    let long = vec![b'x'; 2048];
    assert!(matches!(KernelImagePlan::new(&kernel, &init, &long), Err(BootError::Unsupported(_))));
    let mut no64 = kernel.clone();
    no64[0x236..0x238].copy_from_slice(&0u16.to_le_bytes());
    assert!(matches!(KernelImagePlan::new(&no64, &init, b""), Err(BootError::Unsupported(_))));
}

#[test]
fn e820_extension_node_is_filled_and_finalized() {
    let mut ext = E820Extension::allocate();
    assert_eq!(ext.allocation_pages(), 21);
    assert_eq!(ext.bytes().len(), 21 * 4096);
    assert!(ext.bytes().iter().all(|b| *b == 0));
    let entry = luna::linux_boot::E820Entry { addr: 0x1000, size: 0x2000, typ: 1, reserved: 9 };
    ext.write_entry(1, &entry).unwrap();
    let b = ext.bytes();
    assert_eq!(&b[36..44], &0x1000u64.to_le_bytes());
    assert_eq!(&b[44..52], &0x2000u64.to_le_bytes());
    assert_eq!(&b[52..56], &1u32.to_le_bytes());
    assert!(b[16..36].iter().all(|x| *x == 0));
    assert_eq!(
        ext.write_entry(MAX_E820_EXT_ENTRIES, &entry),
        Err(luna::boot_target::BootError::Unsupported("too many extended E820 entries"))
    );
    ext.finalize(2, 0xdead_beef).unwrap();
    let b = ext.bytes();
    assert_eq!(&b[0..8], &0xdead_beefu64.to_le_bytes());
    assert_eq!(&b[8..12], &1u32.to_le_bytes());
    assert_eq!(&b[12..16], &40u32.to_le_bytes());
    assert_eq!(
        ext.finalize(MAX_E820_EXT_ENTRIES + 1, 0),
        Err(luna::boot_target::BootError::Unsupported("too many extended E820 entries"))
    );
}

fn region(ty: u32, phys_start: u64, page_count: u64) -> MemoryDescriptor {
    MemoryDescriptor { ty, phys_start, page_count }
}

fn e820(addr: u64, size: u64, typ: u32) -> E820Entry {
    E820Entry { addr, size, typ, reserved: 0 }
}

#[test]
fn memory_map_becomes_e820_table() {
    let map = [region(7, 0, 0x9f), region(0, 0x9f000, 1), region(2, 0x100000, 0x100), region(7, 0x200000, 0)];
    assert_eq!(
        e820_entries(&map, &[]).unwrap(),
        vec![e820(0, 0x9f000, 1), e820(0x9f000, 0x1000, 2), e820(0x100000, 0x100000, 1)]
    );
}

#[test]
fn reservations_mark_covered_usable_regions() {
    let map = [region(7, 0x100000, 16)];
    assert_eq!(e820_entries(&map, &[(0x100000, 16)]).unwrap(), vec![e820(0x100000, 0x10000, 2)]);
    assert_eq!(e820_entries(&map, &[(0x104000, 0)]).unwrap(), vec![e820(0x100000, 0x10000, 1)]);
    // A reservation inside the region is carved out of it as reserved memory.
    assert_eq!(
        e820_entries(&map, &[(0x104000, 2)]).unwrap(),
        vec![e820(0x100000, 0x4000, 1), e820(0x104000, 0x2000, 2), e820(0x106000, 0xa000, 1)]
    );
    assert_eq!(
        e820_entries(&map, &[(0x101000, 1)]).unwrap(),
        vec![e820(0x100000, 0x1000, 1), e820(0x101000, 0x1000, 2), e820(0x102000, 0xe000, 1)]
    );
    // Overlapping the start or the end of the region keeps the rest usable.
    assert_eq!(
        e820_entries(&map, &[(0x0ff000, 2), (0x10f000, 4)]).unwrap(),
        vec![e820(0x100000, 0x1000, 2), e820(0x101000, 0xe000, 1), e820(0x10f000, 0x1000, 2)]
    );
    // Reserved firmware memory is never re-marked.
    assert_eq!(e820_entries(&[region(0, 0x100000, 16)], &[(0x100000, 16)]).unwrap(), vec![e820(0x100000, 0x10000, 2)]);
}

#[test]
fn e820_construction_limits_are_reported() {
    let map = [region(7, 0x100000, 16)];
    let big = [region(7, 0x100000, 64)];
    let cuts: Vec<(u64, usize)> = (0..8u64).map(|i| (0x101000 + i * 0x2000, 1usize)).collect();
    assert_eq!(e820_entries(&big, &cuts[..7]).unwrap().len(), 15);
    assert_eq!(
        e820_entries(&big, &cuts),
        Err(BootError::Unsupported("too many E820 reservation splits"))
    );
    let cut = (0x104000u64, 1usize);
    assert_eq!(e820_entries(&map, &[cut, cut, cut]).unwrap().len(), 3);
    assert_eq!(e820_entries(&map, &[(u64::MAX - 10, 1)]), Err(BootError::InvalidKernel));
    assert_eq!(e820_entries(&[region(7, u64::MAX - 4095, 2)], &[]), Err(BootError::InvalidKernel));
    let many: Vec<MemoryDescriptor> = (0..129u64).map(|i| region(7, i * 0x1000, 1)).collect();
    assert_eq!(e820_entries(&many, &[]), Err(BootError::Unsupported("too many E820 entries")));
    assert_eq!(e820_entries(&many[..128], &[]).unwrap().len(), 128);
}

#[test]
fn zero_page_receives_memory_map() {
    let mut params = BootParams::zeroed();
    params.set_e820_from_map_reserved(&[region(7, 0x1000, 2), region(0, 0x3000, 1)], &[]).unwrap();
    let bytes = params.as_bytes();
    assert_eq!(bytes[0x1e8], 2);
    assert_eq!(&bytes[0x2d0..0x2d8], &0x1000u64.to_le_bytes());
    assert_eq!(&bytes[0x2d8..0x2e0], &0x2000u64.to_le_bytes());
    assert_eq!(&bytes[0x2e0..0x2e4], &1u32.to_le_bytes());
    assert_eq!(&bytes[0x2e4..0x2ec], &0x3000u64.to_le_bytes());
    assert_eq!(&bytes[0x2f4..0x2f8], &2u32.to_le_bytes());
    let before = params.as_bytes().to_vec();
    assert!(params.set_e820_from_map_reserved(&[region(7, 0x1000, 1)], &[(u64::MAX, 1)]).is_err());
    assert_eq!(params.as_bytes(), before.as_slice());
}
