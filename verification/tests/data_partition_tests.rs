use luna::boot_target::BootError;
use luna::data_partition::{parse_guid, select_data_partition, DataConfig, DataStatus};
use luna::gpt::Partition;

fn chars(s: &str) -> Vec<char> {
    s.chars().collect()
}

fn part(disk: u8, guid: u8) -> Partition {
    Partition { first_lba: 1, last_lba: 9, partition_guid: [guid; 16], disk_guid: [disk; 16], label: "data".to_string() }
}

#[test]
fn guid_text_becomes_on_disk_byte_order() {
    let g = parse_guid(&chars("00112233-4455-6677-8899-aabbccddeeff")).unwrap();
    assert_eq!(g, [0x33, 0x22, 0x11, 0x00, 0x55, 0x44, 0x77, 0x66, 0x88, 0x99, 0xaa, 0xbb, 0xcc, 0xdd, 0xee, 0xff]);
    assert_eq!(parse_guid(&chars("00112233-4455-6677-8899-AABBCCDDEEFF")), Some(g));
    assert_eq!(parse_guid(&chars("00112233-4455-6677-8899-aabbccddeef")), None);
    assert_eq!(parse_guid(&chars("0011223344556677-8899-aabbccddeeff-")), None);
    assert_eq!(parse_guid(&chars("00112233-4455-6677-8899-aabbccddeegg")), None);
}

#[test]
fn data_config_needs_both_guids_or_neither() {
    let both = "[data]\npreferred_disk_guid = \"00112233-4455-6677-8899-aabbccddeeff\"\npreferred_partition_guid = \"ffeeddcc-bbaa-9988-7766-554433221100\"\n";
    let c = DataConfig::parse(both.as_bytes()).unwrap();
    assert_eq!(c.preferred_disk_guid.unwrap()[0], 0x33);
    assert_eq!(c.preferred_partition_guid.unwrap()[15], 0x00);
    let none = "[data]\npreferred_disk_guid = \"\"\npreferred_partition_guid = \"\"\n";
    let c = DataConfig::parse(none.as_bytes()).unwrap();
    assert_eq!(c.preferred_disk_guid, None);
    let one = "[data]\npreferred_disk_guid = \"00112233-4455-6677-8899-aabbccddeeff\"\n";
    assert!(matches!(DataConfig::parse(one.as_bytes()), Err(BootError::InvalidConfig)));
    let bad = "[data]\npreferred_disk_guid = \"xyz\"\npreferred_partition_guid = \"\"\n";
    assert!(matches!(DataConfig::parse(bad.as_bytes()), Err(BootError::InvalidConfig)));
    let unquoted = "[data]\npreferred_disk_guid = 1\n";
    assert!(matches!(DataConfig::parse(unquoted.as_bytes()), Err(BootError::InvalidConfig)));
}

#[test]
fn single_data_partition_is_found_and_duplicates_count_once() {
    let (p, s) = select_data_partition(None, &vec![part(1, 2), part(1, 2)]);
    assert_eq!(s, DataStatus::Found);
    assert_eq!(p.unwrap().partition_guid, [2; 16]);
    let (p, s) = select_data_partition(None, &vec![]);
    assert_eq!((p, s), (None, DataStatus::Missing));
    let (p, s) = select_data_partition(None, &vec![part(1, 2), part(3, 4)]);
    assert_eq!((p, s), (None, DataStatus::Ambiguous));
}

#[test]
fn preference_selects_among_several() {
    let config = DataConfig { preferred_disk_guid: Some([3; 16]), preferred_partition_guid: Some([4; 16]) };
    let (p, s) = select_data_partition(Some(config), &vec![part(1, 2), part(3, 4)]);
    assert_eq!(s, DataStatus::Found);
    assert_eq!(p.unwrap().disk_guid, [3; 16]);
    let missing = DataConfig { preferred_disk_guid: Some([7; 16]), preferred_partition_guid: Some([7; 16]) };
    let (p, s) = select_data_partition(Some(missing), &vec![part(1, 2)]);
    assert_eq!(s, DataStatus::Found);
    assert_eq!(p.unwrap().disk_guid, [1; 16]);
}
