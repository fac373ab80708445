use luna::boot_target::{BootError, BootTarget};
use luna::gpt::Partition;
use luna::handoff::LunaBootProgress;
use luna::handoff::{
    handoff_node, handoff_payload, progress_node, BootMode, BootProgressStage, BootState, HandoffInputs,
    KernelHandoff, PreparedIdentity,
};
use luna::linux_boot::BootParams;

fn target() -> BootTarget {
    BootTarget::new(
        "Luna 0.1.0".to_string(),
        "luna".to_string(),
        "0.1.0".to_string(),
        "/images/luna-0.1.0.squashfs".to_string(),
        "/images/luna-0.1.0.toml".to_string(),
        "/cores/luna-1.0.init".to_string(),
        "/kernels/6.1/bzImage".to_string(),
        "6.1".to_string(),
    )
}

fn partition(label: &str) -> Partition {
    Partition { first_lba: 1, last_lba: 2, partition_guid: [1; 16], disk_guid: [2; 16], label: label.to_string() }
}

fn u32_at(b: &[u8], off: usize) -> u32 {
    u32::from_le_bytes(b[off..off + 4].try_into().unwrap())
}

fn u64_at(b: &[u8], off: usize) -> u64 {
    u64::from_le_bytes(b[off..off + 8].try_into().unwrap())
}

#[test]
fn payload_has_header_records_and_checksum() {
    let t = target();
    let sys = partition("system");
    let inputs = HandoffInputs {
        target: &t,
        mode: BootMode::Normal,
        state: BootState { fallback_depth: 1, previous_attempt_failed: true, previous_attempt_id: 7, failure_code: 3 },
        attempt_id: 99,
        system: &sys,
        data: None,
        manifest_bytes: b"manifest",
        image_digest: [4; 32],
        kernel: PreparedIdentity { kernel_digest: [5; 32] },
        init_address: 0x2000,
        init_size: 0x300,
        init_digest: [6; 32],
    };
    let bytes = handoff_payload(&inputs).unwrap();
    assert_eq!(&bytes[0..8], b"LUNAHD01");
    assert_eq!(u32_at(&bytes, 12), 84);
    assert_eq!(u32_at(&bytes, 16) as usize, bytes.len());
    assert_eq!(u64_at(&bytes, 28), 99);
    assert_eq!(u64_at(&bytes, 36), 88);
    assert_eq!(u64_at(&bytes, 44) as usize, bytes.len() - 88);
    assert_eq!(bytes.len() % 8, 0);
    let mut unsigned = bytes.clone();
    unsigned[52..84].fill(0);
    assert_eq!(&bytes[52..84], blake3::hash(&unsigned).as_bytes());
    // first record: system partition
    assert_eq!(u16::from_le_bytes([bytes[88], bytes[89]]), 1);
    assert_eq!(u32_at(&bytes, 92), 36 + 6);
    assert_eq!(&bytes[96..112], &[2u8; 16]);
    assert_eq!(&bytes[132..138], b"system");
    // walk the records and collect their types
    let mut off = 88;
    let mut types = Vec::new();
    while off < bytes.len() {
        let ty = u16::from_le_bytes([bytes[off], bytes[off + 1]]);
        let len = u32_at(&bytes, off + 4) as usize;
        types.push(ty);
        off += (8 + len + 7) / 8 * 8;
    }
    assert_eq!(off, bytes.len());
    assert_eq!(types, vec![1, 2, 3, 4, 5, 6, 7]);
}

#[test]
fn recovery_target_needs_its_data_image() {
    let t = target().recovery();
    let sys = partition("system");
    let data = partition("data");
    let inputs = HandoffInputs {
        target: &t,
        mode: BootMode::Recovery,
        state: BootState::default(),
        attempt_id: 1,
        system: &sys,
        data: Some(&data),
        manifest_bytes: b"",
        image_digest: [0; 32],
        kernel: PreparedIdentity { kernel_digest: [0; 32] },
        init_address: 1,
        init_size: 1,
        init_digest: [0; 32],
    };
    assert!(matches!(handoff_payload(&inputs), Err(BootError::RecoveryUnavailable)));
    let mut with_data = target().recovery();
    with_data.recovery_data_path = Some("/recovery/data-0.1.0.img".to_string());
    with_data.recovery_data_digest = Some([8; 32]);
    let inputs = HandoffInputs { target: &with_data, ..inputs };
    let bytes = handoff_payload(&inputs).unwrap();
    assert!(bytes.windows(b"data-0.1.0.img".len()).any(|w| w == b"data-0.1.0.img"));
}

#[test]
fn image_outside_images_directory_is_a_config_error() {
    let mut t = target();
    t.system_image_path = "/other/luna.squashfs".to_string();
    let sys = partition("system");
    let inputs = HandoffInputs {
        target: &t,
        mode: BootMode::Normal,
        state: BootState::default(),
        attempt_id: 1,
        system: &sys,
        data: None,
        manifest_bytes: b"",
        image_digest: [0; 32],
        kernel: PreparedIdentity { kernel_digest: [0; 32] },
        init_address: 1,
        init_size: 1,
        init_digest: [0; 32],
    };
    assert!(matches!(handoff_payload(&inputs), Err(BootError::InvalidConfig)));
}

#[test]
fn setup_data_nodes_carry_type_and_length() {
    let node = handoff_node(b"abc");
    assert_eq!(u64_at(&node, 0), 0);
    assert_eq!(u32_at(&node, 8), 0x4c55_4e41);
    assert_eq!(u32_at(&node, 12), 3);
    assert_eq!(&node[16..], b"abc");
    let progress = progress_node(77);
    assert_eq!(u32_at(&progress, 8), 0x4c55_4e50);
    assert_eq!(u32_at(&progress, 12), 32);
    assert_eq!(&progress[16..24], b"LUNAPR01");
    assert_eq!(progress[25], BootProgressStage::KernelHandoff.code());
    assert_eq!(u64_at(&progress, 28), 77);
    assert_eq!(BootMode::Factory.code(), 3);
}

#[test]
fn kernel_handoff_is_ready_only_when_complete() {
    let mut h = KernelHandoff {
        kernel_load_address: 1,
        kernel_entry: 2,
        init_address: 3,
        init_size: 4,
        boot_params_address: 5,
        boot_params: BootParams::zeroed(),
        page_table: 6,
        luna_handoff_address: 7,
        luna_handoff_size: 8,
    };
    assert!(h.is_ready());
    h.page_table = 0;
    assert!(!h.is_ready());
}

#[test]
fn progress_page_holds_the_node_and_links_onward() {
    let mut page = LunaBootProgress::allocate(0x0102_0304_0506_0708);
    assert_eq!(page.allocation_pages(), 1);
    let node = progress_node(0x0102_0304_0506_0708);
    assert_eq!(page.bytes().len(), 4096);
    assert_eq!(&page.bytes()[..48], node.as_slice());
    assert!(page.bytes()[48..].iter().all(|b| *b == 0));
    assert_eq!(&page.bytes()[16..24], b"LUNAPR01");
    assert_eq!(page.bytes()[25], 3);
    page.link_next(0x5000);
    assert_eq!(&page.bytes()[0..8], &0x5000u64.to_le_bytes());
    assert_eq!(&page.bytes()[8..48], &node[8..]);
}
