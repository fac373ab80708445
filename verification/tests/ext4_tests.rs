use luna::boot_target::BootError;
use luna::catalog::SystemFiles;
use luna::ext4::Ext4;
use luna::gpt::MemoryDisk;

const BS: usize = 1024;
const LARGE_SIZE: usize = 70000;

fn put16(img: &mut [u8], at: usize, v: u16) {
    img[at..at + 2].copy_from_slice(&v.to_le_bytes());
}

fn put32(img: &mut [u8], at: usize, v: u32) {
    img[at..at + 4].copy_from_slice(&v.to_le_bytes());
}

fn inode_at(ino: usize) -> usize {
    5 * BS + (ino - 1) * 128
}

fn legacy_inode(img: &mut [u8], ino: usize, mode: u16, size: u32, blocks: &[u32]) {
    let at = inode_at(ino);
    put16(img, at, mode);
    put32(img, at + 4, size);
    for (i, b) in blocks.iter().enumerate() {
        put32(img, at + 40 + 4 * i, *b);
    }
}

fn dir_record(img: &mut [u8], at: usize, ino: u32, rec_len: u16, kind: u8, name: &[u8]) {
    put32(img, at, ino);
    put16(img, at + 4, rec_len);
    img[at + 6] = name.len() as u8;
    img[at + 7] = kind;
    img[at + 8..at + 8 + name.len()].copy_from_slice(name);
}

/// A small filesystem: `/hello.txt` (one extent), `/boot/k` (a block and a
/// hole), `/big` (past the direct block pointers).
fn image() -> Vec<u8> {
    let mut img = vec![0u8; 100 * BS];
    let sb = BS;
    put32(&mut img, sb, 16);
    put32(&mut img, sb + 0x04, 100);
    put32(&mut img, sb + 0x14, 1);
    put32(&mut img, sb + 0x18, 0);
    put32(&mut img, sb + 0x20, 8192);
    put32(&mut img, sb + 0x28, 16);
    put16(&mut img, sb + 0x38, 0xEF53);
    put16(&mut img, sb + 0x58, 128);
    put32(&mut img, 2 * BS + 8, 5);

    legacy_inode(&mut img, 2, 0x41ED, BS as u32, &[10]);
    let hello = inode_at(12);
    put16(&mut img, hello, 0x81A4);
    put32(&mut img, hello + 4, 13);
    put32(&mut img, hello + 32, 0x0008_0000);
    put16(&mut img, hello + 40, 0xf30a);
    put16(&mut img, hello + 42, 1);
    put16(&mut img, hello + 44, 4);
    put16(&mut img, hello + 46, 0);
    put32(&mut img, hello + 52, 0);
    put16(&mut img, hello + 56, 1);
    put16(&mut img, hello + 58, 0);
    put32(&mut img, hello + 60, 11);
    legacy_inode(&mut img, 13, 0x41ED, BS as u32, &[12]);
    legacy_inode(&mut img, 14, 0x81A4, 1500, &[13, 0]);
    legacy_inode(&mut img, 15, 0x81A4, 12 * BS as u32 + 1, &[14, 14, 14, 14, 14, 14, 14, 14, 14, 14, 14, 14]);

    let root = 10 * BS;
    dir_record(&mut img, root, 2, 12, 2, b".");
    dir_record(&mut img, root + 12, 2, 12, 2, b"..");
    dir_record(&mut img, root + 24, 12, 20, 1, b"hello.txt");
    dir_record(&mut img, root + 44, 13, 12, 2, b"boot");
    dir_record(&mut img, root + 56, 15, 12, 1, b"big");
    dir_record(&mut img, root + 68, 16, (BS - 68) as u16, 1, b"large");
    let large = inode_at(16);
    put16(&mut img, large, 0x81A4);
    put32(&mut img, large + 4, LARGE_SIZE as u32);
    put32(&mut img, large + 32, 0x0008_0000);
    put16(&mut img, large + 40, 0xf30a);
    put16(&mut img, large + 42, 1);
    put16(&mut img, large + 44, 4);
    put32(&mut img, large + 52, 0);
    put16(&mut img, large + 56, 69);
    put32(&mut img, large + 60, 20);
    for i in 0..LARGE_SIZE {
        img[20 * BS + i] = (i * 7 % 251) as u8;
    }
    img[11 * BS..11 * BS + 13].copy_from_slice(b"Hello, Luna!\n");
    let boot = 12 * BS;
    dir_record(&mut img, boot, 13, 12, 2, b".");
    dir_record(&mut img, boot + 12, 2, 12, 2, b"..");
    dir_record(&mut img, boot + 24, 14, (BS - 24) as u16, 1, b"k");
    img[13 * BS..14 * BS].fill(0xAB);
    img
}

fn open(img: Vec<u8>) -> Ext4<MemoryDisk> {
    Ext4::open(MemoryDisk { block_size: 512, bytes: img }).unwrap()
}

#[test]
fn superblock_layout_is_read() {
    let fs = open(image());
    let g = fs.geometry();
    assert_eq!(g.block_size, 1024);
    assert_eq!(g.inode_size, 128);
    assert_eq!(g.inodes_per_group, 16);
    assert_eq!(g.inode_count, 16);
    assert_eq!(g.descriptor_size, 32);
    assert_eq!(g.groups, 1);
}

#[test]
fn extent_mapped_file_is_read() {
    let mut fs = open(image());
    assert_eq!(fs.read_file("/hello.txt").unwrap(), b"Hello, Luna!\n".to_vec());
    assert_eq!(fs.read_file("//hello.txt").unwrap(), b"Hello, Luna!\n".to_vec());
}

#[test]
fn legacy_file_reads_holes_as_zeros() {
    let mut fs = open(image());
    let data = fs.read_file("/boot/k").unwrap();
    assert_eq!(data.len(), 1500);
    assert!(data[..1024].iter().all(|b| *b == 0xAB));
    assert!(data[1024..].iter().all(|b| *b == 0));
}

#[test]
fn directory_listing_skips_dot_entries() {
    let mut fs = open(image());
    let entries = fs.read_dir("/").unwrap();
    let names: Vec<(&str, u32, bool)> = entries.iter().map(|e| (e.name.as_str(), e.inode, e.is_dir())).collect();
    assert_eq!(names, vec![("hello.txt", 12, false), ("boot", 13, true), ("big", 15, false), ("large", 16, false)]);
    let boot = fs.read_dir("/boot").unwrap();
    assert_eq!(boot.len(), 1);
    assert_eq!(boot[0].name, "k");
    assert!(boot[0].is_file());
}

#[test]
fn file_existence_distinguishes_files_directories_and_missing_paths() {
    let mut fs = open(image());
    assert_eq!(fs.file_exists("/hello.txt"), Ok(true));
    assert_eq!(fs.file_exists("/boot"), Ok(false));
    assert_eq!(fs.file_exists("/missing"), Ok(false));
    assert_eq!(fs.file_exists("/boot/k"), Ok(true));
}

#[test]
fn path_errors_are_reported() {
    let mut fs = open(image());
    assert_eq!(fs.read_file("hello.txt"), Err(BootError::FilesystemError));
    assert_eq!(fs.read_file("/missing"), Err(BootError::TargetNotFound));
    assert_eq!(fs.read_file("/boot"), Err(BootError::FilesystemError));
    assert_eq!(fs.read_dir("/hello.txt"), Err(BootError::FilesystemError));
    assert_eq!(fs.read_file("/hello.txt/x"), Err(BootError::FilesystemError));
}

#[test]
fn indirect_block_maps_are_unsupported() {
    let mut fs = open(image());
    assert_eq!(fs.read_file("/big"), Err(BootError::Unsupported("ext4 indirect block maps")));
}

#[test]
fn bad_superblocks_and_devices_are_refused() {
    let mut img = image();
    img[BS + 0x38] = 0;
    assert!(matches!(Ext4::open(MemoryDisk { block_size: 512, bytes: img }), Err(BootError::InvalidFilesystem)));
    assert!(matches!(Ext4::open(MemoryDisk { block_size: 0, bytes: image() }), Err(BootError::InvalidFilesystem)));
    assert!(matches!(Ext4::open(MemoryDisk { block_size: 384, bytes: image() }), Err(BootError::InvalidFilesystem)));
    assert!(matches!(Ext4::open(MemoryDisk { block_size: 512, bytes: vec![0u8; 1500] }), Err(BootError::FilesystemError)));
    let mut big_blocks = image();
    big_blocks[BS + 0x18] = 7;
    assert!(matches!(Ext4::open(MemoryDisk { block_size: 512, bytes: big_blocks }), Err(BootError::InvalidFilesystem)));
}

#[test]
fn ext4_serves_boot_discovery() {
    let mut fs = open(image());
    let files: &mut dyn SystemFiles = &mut fs;
    assert_eq!(files.read_file("/hello.txt").unwrap().len(), 13);
    assert_eq!(files.file_exists("/boot/k"), Ok(true));
    assert_eq!(files.read_dir("/boot").unwrap().len(), 1);
}

#[test]
fn file_digests_stream_the_whole_file() {
    let mut fs = open(image());
    assert_eq!(fs.hash_file("/hello.txt").unwrap(), *blake3::hash(b"Hello, Luna!\n").as_bytes());
    let k = fs.read_file("/boot/k").unwrap();
    assert_eq!(fs.hash_file("/boot/k").unwrap(), *blake3::hash(&k).as_bytes());
    let large = fs.read_file("/large").unwrap();
    assert_eq!(large.len(), LARGE_SIZE);
    assert_eq!(large[65536], (65536 * 7 % 251) as u8);
    assert_eq!(fs.hash_file("/large").unwrap(), *blake3::hash(&large).as_bytes());
    assert_ne!(fs.hash_file("/large").unwrap(), *blake3::hash(&large[..65536]).as_bytes());
}

#[test]
fn file_digest_errors_follow_lookup() {
    let mut fs = open(image());
    assert_eq!(fs.hash_file("/missing"), Err(BootError::TargetNotFound));
    assert_eq!(fs.hash_file("/boot"), Err(BootError::FilesystemError));
    assert_eq!(fs.hash_file("/big"), Err(BootError::Unsupported("ext4 indirect block maps")));
}
