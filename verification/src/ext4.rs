//! Read-only ext4 access for the boot loader: regular-file lookup,
//! directory listing and file reads over a [`BlockDevice`]. Journaling,
//! checksums and extended attributes are not interpreted; file data is
//! found through extent trees or the twelve direct block pointers.
//!
//! Every operation is stated over the device's bytes: the spec functions of
//! this module compute what a reading of those bytes gives. A read that
//! succeeds gives exactly that; on a reliable device every read does.

use vstd::prelude::*;
use crate::boot_target::BootError;
use crate::bytes::{le_field, power_of_two, is_power_of_two, read_u16_le, read_u32_le};
use crate::catalog::{DirEntry, SystemFiles};
use crate::gpt::{BlockDevice, disk_read, follows, slice_copy};
use crate::path::{SLASH, split_seq, split_bytes, bytes_eq};
use crate::text::{utf8_to_string, str_eq};
use crate::attempt::zero_bytes;
use crate::digest::{blake3_digest, hasher_finalize, hasher_input, hasher_new, hasher_update};

verus! {

pub const EXT4_SUPER_MAGIC: u16 = 0xEF53;

pub const EXTENT_MAGIC: u16 = 0xf30a;

pub const EXTENTS_FLAG: u32 = 0x0008_0000;

pub const ROOT_INODE: u32 = 2;

/// The layout numbers read from the superblock.
#[derive(Clone, Copy, Debug)]
pub struct Ext4Geometry {
    pub block_size: u32,
    pub inode_size: u16,
    pub inodes_per_group: u32,
    pub inode_count: u32,
    pub descriptor_size: u16,
    pub groups: u32,
}

/// Layout numbers an open filesystem always has.
pub open spec fn geometry_ok(g: Ext4Geometry) -> bool {
    &&& 1024 <= g.block_size <= 65536
    &&& 65536int % (g.block_size as int) == 0
    &&& 128 <= g.inode_size <= g.block_size
    &&& 32 <= g.descriptor_size <= g.block_size
    &&& g.inodes_per_group > 0
    &&& g.inode_count > 0
}

/// What an open filesystem reads from: the device's bytes and the layout.
pub ghost struct Ext4View {
    pub disk: Seq<u8>,
    pub geometry: Ext4Geometry,
    pub has_64bit: bool,
}

/// `2^32`.
pub open spec fn two32() -> nat {
    0x1_0000_0000
}

pub open spec fn bytes_result(r: Result<Vec<u8>, BootError>) -> Result<Seq<u8>, BootError> {
    match r {
        Ok(v) => Ok(v@),
        Err(e) => Err(e),
    }
}

/// The block size `1024 << log`.
pub open spec fn block_size_for(log: nat) -> nat
    decreases log,
{
    if log == 0 {
        1024
    } else {
        2 * block_size_for((log - 1) as nat)
    }
}

/// The number of block groups: the blocks after the first data block,
/// rounded up to whole groups.
pub open spec fn group_count(blocks: nat, first: nat, per_group: nat) -> nat {
    let span: nat = if blocks > first {
        (blocks - first) as nat
    } else {
        0
    };
    span / per_group + (if span % per_group != 0 {
        1nat
    } else {
        0nat
    })
}

/// The layout that a 1024-byte superblock describes, and whether the
/// 64-bit feature is on.
pub open spec fn superblock_geometry(sb: Seq<u8>) -> Result<(Ext4Geometry, bool), BootError> {
    let log = le_field(sb, 0x18, 4);
    let inode_count = le_field(sb, 0x00, 4);
    let blocks = le_field(sb, 0x04, 4);
    let first = le_field(sb, 0x14, 4);
    let per_group = le_field(sb, 0x20, 4);
    let inodes_per_group = le_field(sb, 0x28, 4);
    let inode_size = le_field(sb, 0x58, 2);
    let incompat = le_field(sb, 0x60, 4) as u32;
    let has_64bit = incompat & 0x80 != 0;
    let descriptor_size = if has_64bit {
        le_field(sb, 0xfe, 2)
    } else {
        32
    };
    if le_field(sb, 0x38, 2) != EXT4_SUPER_MAGIC {
        Err(BootError::InvalidFilesystem)
    } else if log > 6 {
        Err(BootError::InvalidFilesystem)
    } else if inode_count == 0 || per_group == 0 || inodes_per_group == 0 {
        Err(BootError::InvalidFilesystem)
    } else if inode_size < 128 || inode_size > block_size_for(log) || !power_of_two(inode_size as int) {
        Err(BootError::InvalidFilesystem)
    } else if descriptor_size < 32 || descriptor_size > block_size_for(log) {
        Err(BootError::InvalidFilesystem)
    } else {
        Ok(
            (
                Ext4Geometry {
                    block_size: block_size_for(log) as u32,
                    inode_size: inode_size as u16,
                    inodes_per_group: inodes_per_group as u32,
                    inode_count: inode_count as u32,
                    descriptor_size: descriptor_size as u16,
                    groups: group_count(blocks, first, per_group) as u32,
                },
                has_64bit,
            ),
        )
    }
}

/// Opening: the device's block size must be a power of two; the superblock
/// is the 1024 bytes at offset 1024.
pub open spec fn ext4_open(device_block_size: u64, d: Seq<u8>) -> Result<(Ext4Geometry, bool), BootError> {
    if !power_of_two(device_block_size as int) {
        Err(BootError::InvalidFilesystem)
    } else {
        match disk_read(d, 1024, 1024) {
            Err(e) => Err(e),
            Ok(sb) => superblock_geometry(sb),
        }
    }
}

/// An inode, as far as reading needs it.
pub ghost struct InodeView {
    pub mode: u16,
    pub size: nat,
    pub flags: u32,
    pub blocks: Seq<u8>,
}

/// The fields of an on-disk inode record.
pub open spec fn inode_of(raw: Seq<u8>) -> InodeView {
    InodeView {
        mode: le_field(raw, 0, 2) as u16,
        size: le_field(raw, 4, 4) + (if raw.len() >= 112 {
            le_field(raw, 108, 4)
        } else {
            0
        }) * two32(),
        flags: le_field(raw, 32, 4) as u32,
        blocks: raw.subrange(40, 100),
    }
}

/// The descriptor of block group `group`, in the table that starts in the
/// block after the superblock.
pub open spec fn group_descriptor(v: Ext4View, group: nat) -> Result<Seq<u8>, BootError> {
    let g = v.geometry;
    if group >= g.groups {
        Err(BootError::FilesystemError)
    } else {
        disk_read(
            v.disk,
            (if g.block_size == 1024 {
                2int
            } else {
                1int
            }) * g.block_size + group * g.descriptor_size,
            g.descriptor_size as int,
        )
    }
}

/// The first block of the inode table of `group` (its high half only on a
/// 64-bit filesystem with descriptors of at least 44 bytes).
pub open spec fn inode_table(v: Ext4View, group: nat) -> Result<nat, BootError> {
    match group_descriptor(v, group) {
        Err(e) => Err(e),
        Ok(desc) => Ok(
            le_field(desc, 8, 4) + (if v.has_64bit && desc.len() >= 44 {
                le_field(desc, 40, 4)
            } else {
                0
            }) * two32(),
        ),
    }
}

/// Inode number `ino` (numbered from 1).
pub open spec fn read_inode(v: Ext4View, ino: nat) -> Result<InodeView, BootError> {
    let g = v.geometry;
    if ino == 0 || ino > g.inode_count {
        Err(BootError::FilesystemError)
    } else {
        let index = (ino - 1) as nat;
        match inode_table(v, index / (g.inodes_per_group as nat)) {
            Err(e) => Err(e),
            Ok(table) => {
                let off = table * g.block_size + (index % (g.inodes_per_group as nat)) * g.inode_size;
                if off > u64::MAX {
                    Err(BootError::FilesystemError)
                } else {
                    match disk_read(v.disk, off, g.inode_size as int) {
                        Err(e) => Err(e),
                        Ok(raw) => Ok(inode_of(raw)),
                    }
                }
            },
        }
    }
}

/// Bytes `[in_block, in_block + len)` of file block `index` where the
/// inode maps its data with the twelve direct block pointers; a zero
/// pointer is a hole and reads as zeros.
pub open spec fn legacy_range(v: Ext4View, blocks: Seq<u8>, index: nat, in_block: nat, len: nat) -> Result<Seq<u8>, BootError> {
    if index >= 12 {
        Err(BootError::Unsupported("ext4 indirect block maps"))
    } else {
        let block = le_field(blocks, 4 * index as int, 4);
        if block == 0 {
            Ok(zero_bytes(len))
        } else {
            disk_read(v.disk, block * v.geometry.block_size + in_block, len as int)
        }
    }
}

/// The depth recorded in an extent node header.
pub open spec fn node_depth(node: Seq<u8>) -> nat {
    le_field(node, 6, 2)
}

/// The index entry to descend into (as its byte position): the last one,
/// in order, whose first logical block is at most `wanted`, looking no
/// further than the first one beyond it.
pub open spec fn index_scan(node: Seq<u8>, entries: nat, i: nat, wanted: nat, sel: Option<nat>) -> Option<nat>
    decreases entries - i,
{
    if i >= entries {
        sel
    } else if le_field(node, 12 + 12 * i as int, 4) <= wanted {
        index_scan(node, entries, i + 1, wanted, Some(12 + 12 * i))
    } else {
        sel
    }
}

/// The bytes of block `wanted` from the leaf entries `i..entries`: the
/// first extent holding it gives them (zeros for an uninitialized
/// extent); no extent holding it is a hole.
pub open spec fn leaf_scan(v: Ext4View, node: Seq<u8>, entries: nat, i: nat, wanted: nat, in_block: nat, len: nat) -> Result<Seq<u8>, BootError>
    decreases entries - i,
{
    if i >= entries {
        Ok(zero_bytes(len))
    } else {
        let p: int = 12 + 12 * i as int;
        let logical = le_field(node, p, 4);
        let raw = le_field(node, p + 4, 2) as u16;
        let count = (raw & 0x7fffu16) as nat;
        if wanted < logical || wanted >= logical + count {
            leaf_scan(v, node, entries, i + 1, wanted, in_block, len)
        } else if raw & 0x8000u16 != 0 {
            Ok(zero_bytes(len))
        } else {
            let physical = le_field(node, p + 8, 4) + le_field(node, p + 6, 2) * two32();
            let off = (physical + (wanted - logical)) * v.geometry.block_size + in_block;
            if off > u64::MAX {
                Err(BootError::FilesystemError)
            } else {
                disk_read(v.disk, off, len as int)
            }
        }
    }
}

/// Bytes `[in_block, in_block + len)` of file block `wanted` under the
/// extent tree whose node is `node`. A child node must be shallower than
/// its parent.
pub open spec fn extent_range(v: Ext4View, node: Seq<u8>, wanted: nat, in_block: nat, len: nat) -> Result<Seq<u8>, BootError>
    decreases node_depth(node),
{
    let entries = le_field(node, 2, 2);
    let depth = node_depth(node);
    if le_field(node, 0, 2) != EXTENT_MAGIC {
        Err(BootError::InvalidFilesystem)
    } else if entries > 4 || 12 + entries * 12 > node.len() {
        Err(BootError::InvalidFilesystem)
    } else if depth == 0 {
        leaf_scan(v, node, entries, 0, wanted, in_block, len)
    } else {
        match index_scan(node, entries, 0, wanted, None) {
            None => Err(BootError::FilesystemError),
            Some(p) => {
                let child = le_field(node, p as int + 4, 4) + le_field(node, p as int + 8, 2) * two32();
                let bs = v.geometry.block_size as nat;
                if child * bs > u64::MAX {
                    Err(BootError::FilesystemError)
                } else {
                    match disk_read(v.disk, (child * bs) as int, bs as int) {
                        Err(e) => Err(e),
                        Ok(cd) => if node_depth(cd) >= depth {
                            Err(BootError::InvalidFilesystem)
                        } else {
                            extent_range(v, cd, wanted, in_block, len)
                        },
                    }
                }
            },
        }
    }
}

/// Bytes `[in_block, in_block + len)` of file block `index` of an inode.
pub open spec fn block_range(v: Ext4View, inode: InodeView, index: nat, in_block: nat, len: nat) -> Result<Seq<u8>, BootError> {
    if inode.flags & EXTENTS_FLAG != 0 {
        extent_range(v, inode.blocks, index, in_block, len)
    } else {
        legacy_range(v, inode.blocks, index, in_block, len)
    }
}

/// The data bytes `offset + written .. offset + len` of an inode, read one
/// block-sized piece at a time.
pub open spec fn range_from(v: Ext4View, inode: InodeView, offset: nat, len: nat, written: nat) -> Result<Seq<u8>, BootError>
    decreases len - written,
{
    let bs = v.geometry.block_size as nat;
    if written >= len || bs == 0 {
        Ok(Seq::empty())
    } else {
        let at = offset + written;
        let in_block = at % bs;
        let chunk: nat = if len - written < bs - in_block {
            (len - written) as nat
        } else {
            (bs - in_block) as nat
        };
        match block_range(v, inode, at / bs, in_block, chunk) {
            Err(e) => Err(e),
            Ok(data) => prepend(data, range_from(v, inode, offset, len, written + chunk)),
        }
    }
}

/// `p` in front of a successful result.
pub open spec fn prepend<T>(p: Seq<T>, r: Result<Seq<T>, BootError>) -> Result<Seq<T>, BootError> {
    match r {
        Ok(x) => Ok(p + x),
        Err(e) => Err(e),
    }
}

/// The data bytes `offset .. offset + len` of an inode; the range must lie
/// inside the file.
pub open spec fn inode_range(v: Ext4View, inode: InodeView, offset: nat, len: nat) -> Result<Seq<u8>, BootError> {
    if offset + len > u64::MAX || offset + len > inode.size {
        Err(BootError::FilesystemError)
    } else {
        range_from(v, inode, offset, len, 0)
    }
}

/// All data bytes of an inode.
pub open spec fn inode_data(v: Ext4View, inode: InodeView) -> Result<Seq<u8>, BootError> {
    if inode.size > usize::MAX {
        Err(BootError::FilesystemError)
    } else {
        inode_range(v, inode, 0, inode.size)
    }
}

/// A directory record at `off`: inode number, record length, name length
/// and file type; the record must lie inside the data and hold its name.
pub open spec fn record_ok(data: Seq<u8>, off: int) -> bool {
    let rec = le_field(data, off + 4, 2);
    rec >= 8 && off + rec <= data.len() && data[off + 6] as nat <= rec - 8
}

pub open spec fn record_name(data: Seq<u8>, off: int) -> Seq<u8> {
    data.subrange(off + 8, off + 8 + data[off + 6] as nat)
}

/// The inode number of the entry named `wanted` (a directory, a regular
/// file, or of unrecorded type) among the directory records from `off`.
pub open spec fn find_entry(data: Seq<u8>, wanted: Seq<u8>, off: int) -> Result<u32, BootError>
    decreases data.len() - off,
{
    if off + 8 > data.len() {
        Err(BootError::TargetNotFound)
    } else if !record_ok(data, off) {
        Err(BootError::InvalidFilesystem)
    } else {
        let ino = le_field(data, off, 4);
        let kind = data[off + 7];
        if ino != 0 && record_name(data, off) == wanted && (kind == 2 || kind == 1 || kind == 0) {
            Ok(ino as u32)
        } else {
            find_entry(data, wanted, off + le_field(data, off + 4, 2))
        }
    }
}

/// The inode number of the entry `wanted` of directory `dir`.
pub open spec fn find_in_directory(v: Ext4View, dir: InodeView, wanted: Seq<u8>) -> Result<u32, BootError> {
    match inode_data(v, dir) {
        Err(e) => Err(e),
        Ok(data) => find_entry(data, wanted, 0),
    }
}

pub open spec fn is_directory(inode: InodeView) -> bool {
    inode.mode & 0xf000u16 == 0x4000u16
}

pub open spec fn is_regular(inode: InodeView) -> bool {
    inode.mode & 0xf000u16 == 0x8000u16
}

/// Walks the path pieces from `i` on, starting at `inode`; empty pieces are
/// skipped and every other one is looked up in the directory reached so far.
pub open spec fn resolve_from(v: Ext4View, pieces: Seq<Seq<u8>>, i: nat, inode: InodeView) -> Result<InodeView, BootError>
    decreases pieces.len() - i,
{
    if i >= pieces.len() {
        Ok(inode)
    } else if pieces[i as int].len() == 0 {
        resolve_from(v, pieces, i + 1, inode)
    } else if !is_directory(inode) {
        Err(BootError::FilesystemError)
    } else {
        match find_in_directory(v, inode, pieces[i as int]) {
            Err(e) => Err(e),
            Ok(next) => match read_inode(v, next as nat) {
                Err(e) => Err(e),
                Ok(n) => resolve_from(v, pieces, i + 1, n),
            },
        }
    }
}

/// The inode an absolute path names, from the root directory (inode 2),
/// the path's bytes split at `/`.
pub open spec fn resolve_path(v: Ext4View, path: Seq<u8>) -> Result<InodeView, BootError> {
    if path.len() == 0 || path[0] != SLASH {
        Err(BootError::FilesystemError)
    } else {
        match read_inode(v, ROOT_INODE as nat) {
            Err(e) => Err(e),
            Ok(root) => resolve_from(v, split_seq(path, SLASH), 0, root),
        }
    }
}

/// The contents of the regular file at `path`.
pub open spec fn ext4_read_file(v: Ext4View, path: Seq<u8>) -> Result<Seq<u8>, BootError> {
    match resolve_path(v, path) {
        Err(e) => Err(e),
        Ok(inode) => if !is_regular(inode) {
            Err(BootError::FilesystemError)
        } else {
            inode_data(v, inode)
        },
    }
}

/// Whether `path` names a regular file; a missing entry is no error.
pub open spec fn ext4_file_exists(v: Ext4View, path: Seq<u8>) -> Result<bool, BootError> {
    match resolve_path(v, path) {
        Ok(inode) => Ok(is_regular(inode)),
        Err(BootError::TargetNotFound) => Ok(false),
        Err(e) => Err(e),
    }
}

/// The entries (name, inode number, file type) of the directory records
/// from `off`: records with inode 0 or an empty name, and `.` and `..`, are
/// left out; a name must be UTF-8.
pub open spec fn dir_entries(data: Seq<u8>, off: int) -> Result<Seq<(Seq<char>, u32, u8)>, BootError>
    decreases data.len() - off,
{
    if off + 8 > data.len() {
        Ok(Seq::empty())
    } else if !record_ok(data, off) {
        Err(BootError::InvalidFilesystem)
    } else {
        let ino = le_field(data, off, 4);
        let name = record_name(data, off);
        let rest = dir_entries(data, off + le_field(data, off + 4, 2));
        if ino == 0 || name.len() == 0 {
            rest
        } else if !vstd::utf8::valid_utf8(name) {
            Err(BootError::FilesystemError)
        } else if vstd::utf8::decode_utf8(name) == seq!['.'] || vstd::utf8::decode_utf8(name) == seq!['.', '.'] {
            rest
        } else {
            prepend(seq![(vstd::utf8::decode_utf8(name), ino as u32, data[off + 7])], rest)
        }
    }
}

/// The entries of the directory at `path`.
pub open spec fn ext4_read_dir(v: Ext4View, path: Seq<u8>) -> Result<Seq<(Seq<char>, u32, u8)>, BootError> {
    match resolve_path(v, path) {
        Err(e) => Err(e),
        Ok(inode) => if !is_directory(inode) {
            Err(BootError::FilesystemError)
        } else {
            match inode_data(v, inode) {
                Err(e) => Err(e),
                Ok(data) => dir_entries(data, 0),
            }
        },
    }
}

pub open spec fn entry_views(v: Seq<DirEntry>) -> Seq<(Seq<char>, u32, u8)> {
    Seq::new(v.len(), |i: int| (v[i].name@, v[i].inode, v[i].file_type))
}

pub open spec fn entries_result(r: Result<Vec<DirEntry>, BootError>) -> Result<Seq<(Seq<char>, u32, u8)>, BootError> {
    match r {
        Ok(v) => Ok(entry_views(v@)),
        Err(e) => Err(e),
    }
}

proof fn lemma_prepend_empty<T>(r: Result<Seq<T>, BootError>)
    ensures
        prepend(Seq::empty(), r) == r,
        prepend(Seq::empty(), Ok::<Seq<T>, BootError>(Seq::empty())) == Ok::<Seq<T>, BootError>(Seq::empty()),
{
    if let Ok(x) = r {
        assert(Seq::<T>::empty() + x =~= x);
    }
    assert(Seq::<T>::empty() + Seq::<T>::empty() =~= Seq::<T>::empty());
}

proof fn lemma_prepend_assoc<T>(a: Seq<T>, b: Seq<T>, r: Result<Seq<T>, BootError>)
    ensures
        prepend(a, prepend(b, r)) == prepend(a + b, r),
{
    if let Ok(x) = r {
        assert(a + (b + x) =~= (a + b) + x);
    }
}

/// The bytes `hash_file` takes in for `path`: the whole data of the
/// regular file there, read from offset 0.
pub open spec fn ext4_hash_source(v: Ext4View, path: Seq<u8>) -> Result<Seq<u8>, BootError> {
    match resolve_path(v, path) {
        Err(e) => Err(e),
        Ok(inode) => if !is_regular(inode) {
            Err(BootError::FilesystemError)
        } else {
            range_from(v, inode, 0, inode.size, 0)
        },
    }
}

/// Result `a` followed by result `b`: the first error, else both.
pub open spec fn join(a: Result<Seq<u8>, BootError>, b: Result<Seq<u8>, BootError>) -> Result<Seq<u8>, BootError> {
    match a {
        Err(e) => Err(e),
        Ok(x) => prepend(x, b),
    }
}

/// Reading from `written` on depends only on the position reached and the
/// length left.
proof fn lemma_range_shift(v: Ext4View, inode: InodeView, offset: nat, len: nat, written: nat)
    requires
        written <= len,
    ensures
        range_from(v, inode, offset, len, written) == range_from(v, inode, offset + written, (len - written) as nat, 0),
    decreases len - written,
{
    let bs = v.geometry.block_size as nat;
    if written < len && bs > 0 {
        let at = offset + written;
        let in_block = at % bs;
        let chunk: nat = if len - written < bs - in_block {
            (len - written) as nat
        } else {
            (bs - in_block) as nat
        };
        lemma_range_shift(v, inode, offset, len, written + chunk);
        lemma_range_shift(v, inode, offset + written, (len - written) as nat, chunk);
        assert(offset + written + chunk == offset + (written + chunk));
        assert((len - written - chunk) as nat == (len - (written + chunk)) as nat);
    }
}

proof fn lemma_join_prepend(d: Seq<u8>, x: Result<Seq<u8>, BootError>, b: Result<Seq<u8>, BootError>)
    ensures
        join(prepend(d, x), b) == prepend(d, join(x, b)),
{
    if let Ok(y) = x {
        lemma_prepend_assoc(d, y, b);
    }
}

proof fn lemma_block_end(a: nat, b: nat, bs: nat)
    requires
        bs > 0,
        a < b,
        b % bs == 0,
    ensures
        bs - a % bs <= b - a,
{
    let q = a / bs;
    let r = a % bs;
    assert(a == q * bs + r) by (nonlinear_arith)
        requires
            bs > 0,
            q == a / bs,
            r == a % bs,
    ;
    let m = b / bs;
    assert(b == m * bs) by (nonlinear_arith)
        requires
            bs > 0,
            m == b / bs,
            b % bs == 0,
    ;
    assert(m >= q + 1) by (nonlinear_arith)
        requires
            a == q * bs + r,
            b == m * bs,
            a < b,
            0 <= r < bs,
    ;
    assert(b - a >= bs - r) by (nonlinear_arith)
        requires
            a == q * bs + r,
            b == m * bs,
            m >= q + 1,
    ;
}

/// Reading a range whole is reading it in two parts, split at a block
/// boundary (or at its end).
proof fn lemma_range_split(v: Ext4View, inode: InodeView, offset: nat, len: nat, split: nat, written: nat)
    requires
        written <= split <= len,
        split == len || (v.geometry.block_size > 0 && (offset + split) % (v.geometry.block_size as nat) == 0),
    ensures
        range_from(v, inode, offset, len, written) == join(
            range_from(v, inode, offset, split, written),
            range_from(v, inode, offset + split, (len - split) as nat, 0),
        ),
    decreases split - written,
{
    let bs = v.geometry.block_size as nat;
    let rest = range_from(v, inode, offset + split, (len - split) as nat, 0);
    if written == split {
        lemma_range_shift(v, inode, offset, len, written);
        lemma_prepend_empty(rest);
    } else if bs == 0 {
        lemma_prepend_empty(rest);
        assert(split == len);
        assert(rest == Ok::<Seq<u8>, BootError>(Seq::empty()));
        assert(Seq::<u8>::empty() + Seq::<u8>::empty() =~= Seq::<u8>::empty());
    } else {
        let at = offset + written;
        let in_block = at % bs;
        if split < len {
            lemma_block_end(at, offset + split, bs);
        }
        let chunk: nat = (if split - written < bs - in_block {
            split - written
        } else {
            bs - in_block
        }) as nat;
        assert(chunk == (if len - written < bs - in_block {
            len - written
        } else {
            bs - in_block
        }));
        lemma_range_split(v, inode, offset, len, split, written + chunk);
        match block_range(v, inode, at / bs, in_block, chunk) {
            Err(e) => {},
            Ok(d) => {
                lemma_join_prepend(d, range_from(v, inode, offset, split, written + chunk), rest);
            },
        }
    }
}

proof fn lemma_aligned_step(offset: int, bs: int)
    requires
        offset >= 0,
        offset % 65536 == 0,
        bs > 0,
        65536int % bs == 0,
    ensures
        (offset + 65536) % bs == 0,
{
    let a = offset / 65536;
    let b = 65536int / bs;
    assert(offset == a * 65536) by (nonlinear_arith)
        requires
            a == offset / 65536,
            offset % 65536 == 0,
    ;
    assert(65536int == b * bs) by (nonlinear_arith)
        requires
            b == 65536int / bs,
            65536int % bs == 0,
            bs > 0,
    ;
    assert(offset + 65536 == ((a + 1) * b) * bs) by (nonlinear_arith)
        requires
            offset == a * 65536,
            65536int == b * bs,
    ;
    vstd::arithmetic::div_mod::lemma_mod_multiples_basic((a + 1) * b, bs);
}

/// What `hash_file` hashes is what `read_file` reads, where that succeeds.
pub proof fn lemma_hash_source_is_file_contents(v: Ext4View, path: Seq<u8>)
    ensures
        ext4_read_file(v, path) matches Ok(data) ==> ext4_hash_source(v, path) == Ok::<Seq<u8>, BootError>(data),
{
}

pub open spec fn nat_result(r: Result<u64, BootError>) -> Result<nat, BootError> {
    match r {
        Ok(v) => Ok(v as nat),
        Err(e) => Err(e),
    }
}

/// An inode in memory.
struct Inode {
    mode: u16,
    size: u64,
    flags: u32,
    blocks: Vec<u8>,
}

impl View for Inode {
    type V = InodeView;

    closed spec fn view(&self) -> InodeView {
        InodeView { mode: self.mode, size: self.size as nat, flags: self.flags, blocks: self.blocks@ }
    }
}

spec fn inode_result(r: Result<Inode, BootError>) -> Result<InodeView, BootError> {
    match r {
        Ok(i) => Ok(i@),
        Err(e) => Err(e),
    }
}

proof fn lemma_block_size_bound(log: nat)
    requires
        log <= 6,
    ensures
        1024 <= block_size_for(log) <= 65536,
        65536int % (block_size_for(log) as int) == 0,
{
    assert(block_size_for(0) == 1024);
    assert(block_size_for(1) == 2048);
    assert(block_size_for(2) == 4096);
    assert(block_size_for(3) == 8192);
    assert(block_size_for(4) == 16384);
    assert(block_size_for(5) == 32768);
    assert(block_size_for(6) == 65536);
    if log == 0 {
        assert(65536int % 1024 == 0);
    } else if log == 1 {
        assert(65536int % 2048 == 0);
    } else if log == 2 {
        assert(65536int % 4096 == 0);
    } else if log == 3 {
        assert(65536int % 8192 == 0);
    } else if log == 4 {
        assert(65536int % 16384 == 0);
    } else if log == 5 {
        assert(65536int % 32768 == 0);
    } else {
        assert(65536int % 65536 == 0);
    }
}

/// Reads the layout from a superblock.
pub fn parse_superblock(sb: &[u8]) -> (res: Result<(Ext4Geometry, bool), BootError>)
    requires
        sb@.len() == 1024,
    ensures
        res == superblock_geometry(sb@),
        res matches Ok((g, _)) ==> geometry_ok(g),
{
    let log = read_u32_le(sb, 0x18);
    let inode_count = read_u32_le(sb, 0x00);
    let blocks = read_u32_le(sb, 0x04);
    let first = read_u32_le(sb, 0x14);
    let per_group = read_u32_le(sb, 0x20);
    let inodes_per_group = read_u32_le(sb, 0x28);
    let inode_size = read_u16_le(sb, 0x58);
    let incompat = read_u32_le(sb, 0x60);
    let has_64bit = incompat & 0x80 != 0;
    let descriptor_size: u16 = if has_64bit {
        read_u16_le(sb, 0xfe)
    } else {
        32
    };
    if read_u16_le(sb, 0x38) != EXT4_SUPER_MAGIC {
        return Err(BootError::InvalidFilesystem);
    }
    if log > 6 {
        return Err(BootError::InvalidFilesystem);
    }
    let mut block_size: u32 = 1024;
    let mut k: u32 = 0;
    while k < log
        invariant
            k <= log <= 6,
            block_size == block_size_for(k as nat),
        decreases log - k,
    {
        proof {
            lemma_block_size_bound(k as nat);
        }
        block_size = block_size * 2;
        k = k + 1;
    }
    proof {
        lemma_block_size_bound(log as nat);
    }
    if inode_count == 0 || per_group == 0 || inodes_per_group == 0 {
        return Err(BootError::InvalidFilesystem);
    }
    if inode_size < 128 || inode_size as u32 > block_size || !is_power_of_two(inode_size as u64) {
        return Err(BootError::InvalidFilesystem);
    }
    if descriptor_size < 32 || descriptor_size as u32 > block_size {
        return Err(BootError::InvalidFilesystem);
    }
    let span: u32 = if blocks > first {
        blocks - first
    } else {
        0
    };
    let q = span / per_group;
    let groups: u32 = if span % per_group != 0 {
        assert(span / per_group + 1 <= u32::MAX) by (nonlinear_arith)
            requires
                per_group >= 2,
                span <= u32::MAX,
        ;
        q + 1
    } else {
        q
    };
    Ok(
        (
            Ext4Geometry {
                block_size,
                inode_size,
                inodes_per_group,
                inode_count,
                descriptor_size,
                groups,
            },
            has_64bit,
        ),
    )
}

/// A read-only ext4 filesystem on a block device.
pub struct Ext4<D: BlockDevice> {
    device: D,
    layout: Layout,
}

/// The layout of an open filesystem.
struct Layout {
    geometry: Ext4Geometry,
    has_64bit: bool,
}

impl Layout {
    #[verifier::type_invariant]
    spec fn layout_ok(&self) -> bool {
        geometry_ok(self.geometry)
    }
}

impl<D: BlockDevice> View for Ext4<D> {
    type V = Ext4View;

    closed spec fn view(&self) -> Ext4View {
        Ext4View {
            disk: self.device.spec_contents(),
            geometry: self.layout.geometry,
            has_64bit: self.layout.has_64bit,
        }
    }
}

impl<D: BlockDevice> Ext4<D> {
    /// Whether the underlying device is reliable.
    pub closed spec fn spec_reliable(&self) -> bool {
        self.device.spec_reliable()
    }

    /// The layout is one that [`parse_superblock`] accepts.
    pub open spec fn wf(&self) -> bool {
        geometry_ok(self@.geometry)
    }

    /// Opens the filesystem on `device` (see [`ext4_open`]).
    pub fn open(device: D) -> (res: Result<Ext4<D>, BootError>)
        ensures
            match res {
                Ok(fs) => {
                    &&& fs.wf()
                    &&& fs@.disk == device.spec_contents()
                    &&& fs.spec_reliable() == device.spec_reliable()
                    &&& ext4_open(device.spec_block_size(), device.spec_contents()) == Ok::<
                        (Ext4Geometry, bool),
                        BootError,
                    >((fs@.geometry, fs@.has_64bit))
                },
                Err(e) => (device.spec_reliable() || !power_of_two(device.spec_block_size() as int))
                    ==> ext4_open(device.spec_block_size(), device.spec_contents()) == Err::<
                    (Ext4Geometry, bool),
                    BootError,
                >(e),
            },
    {
        let mut device = device;
        let bs = device.block_size();
        if bs == 0 || !is_power_of_two(bs) {
            return Err(BootError::InvalidFilesystem);
        }
        let sb = match device.read_at(1024, 1024) {
            Ok(v) => v,
            Err(e) => return Err(e),
        };
        match parse_superblock(sb.as_slice()) {
            Ok((geometry, has_64bit)) => Ok(Ext4 { device, layout: Layout { geometry, has_64bit } }),
            Err(e) => Err(e),
        }
    }

    /// The layout read from the superblock.
    pub fn geometry(&self) -> (res: Ext4Geometry)
        ensures
            res == self@.geometry,
    {
        self.layout.geometry
    }

    fn dev_read(&mut self, off: u64, len: usize) -> (res: Result<Vec<u8>, BootError>)
        ensures
            final(self)@ == old(self)@,
            final(self).spec_reliable() == old(self).spec_reliable(),
            follows(bytes_result(res), disk_read(old(self)@.disk, off as int, len as int), old(self).spec_reliable()),
            res matches Ok(v) ==> v@.len() == len,
    {
        self.device.read_at(off, len)
    }
    fn read_group_descriptor(&mut self, group: u32) -> (res: Result<Vec<u8>, BootError>)
        requires
            old(self).wf(),
        ensures
            final(self)@ == old(self)@,
            final(self).spec_reliable() == old(self).spec_reliable(),
            follows(bytes_result(res), group_descriptor(old(self)@, group as nat), old(self).spec_reliable()),
            res matches Ok(v) ==> v@.len() == old(self)@.geometry.descriptor_size,
    {
        if group >= self.layout.geometry.groups {
            return Err(BootError::FilesystemError);
        }
        let bs = self.layout.geometry.block_size as u64;
        let ds = self.layout.geometry.descriptor_size as u64;
        let table_block: u64 = if self.layout.geometry.block_size == 1024 {
            2
        } else {
            1
        };
        assert(group as u64 * ds <= 0x1_0000_0000 * 0x1_0000) by (nonlinear_arith)
            requires
                group <= u32::MAX,
                ds <= 65536,
        ;
        let offset = table_block * bs + group as u64 * ds;
        self.dev_read(offset, ds as usize)
    }

    fn inode_table_block(&mut self, group: u32) -> (res: Result<u64, BootError>)
        requires
            old(self).wf(),
        ensures
            final(self)@ == old(self)@,
            final(self).spec_reliable() == old(self).spec_reliable(),
            follows(nat_result(res), inode_table(old(self)@, group as nat), old(self).spec_reliable()),
    {
        let desc = match self.read_group_descriptor(group) {
            Ok(d) => d,
            Err(e) => return Err(e),
        };
        let lo = read_u32_le(desc.as_slice(), 8) as u64;
        let hi: u64 = if self.layout.has_64bit && desc.len() >= 44 {
            read_u32_le(desc.as_slice(), 40) as u64
        } else {
            0
        };
        assert(lo + hi * 0x1_0000_0000 <= u64::MAX) by (nonlinear_arith)
            requires
                lo <= u32::MAX,
                hi <= u32::MAX,
        ;
        Ok(lo + hi * 0x1_0000_0000)
    }

    fn read_inode(&mut self, ino: u32) -> (res: Result<Inode, BootError>)
        requires
            old(self).wf(),
        ensures
            final(self)@ == old(self)@,
            final(self).spec_reliable() == old(self).spec_reliable(),
            follows(inode_result(res), read_inode(old(self)@, ino as nat), old(self).spec_reliable()),
            res matches Ok(i) ==> i.blocks@.len() == 60,
    {
        if ino == 0 || ino > self.layout.geometry.inode_count {
            return Err(BootError::FilesystemError);
        }
        let index = ino - 1;
        let per_group = self.layout.geometry.inodes_per_group;
        let group = index / per_group;
        let local = index % per_group;
        let table = match self.inode_table_block(group) {
            Ok(t) => t,
            Err(e) => return Err(e),
        };
        let bs = self.layout.geometry.block_size as u64;
        let isz = self.layout.geometry.inode_size as u64;
        assert(local as u64 * isz <= 0x1_0000_0000 * 0x1_0000) by (nonlinear_arith)
            requires
                local <= u32::MAX,
                isz <= 65536,
        ;
        let within = local as u64 * isz;
        let base = match table.checked_mul(bs) {
            Some(b) => b,
            None => {
                assert(table * bs + within > u64::MAX) by (nonlinear_arith)
                    requires
                        table * bs > u64::MAX,
                ;
                return Err(BootError::FilesystemError);
            },
        };
        let offset = match base.checked_add(within) {
            Some(o) => o,
            None => return Err(BootError::FilesystemError),
        };
        let raw = match self.dev_read(offset, isz as usize) {
            Ok(r) => r,
            Err(e) => return Err(e),
        };
        let mode = read_u16_le(raw.as_slice(), 0);
        let size_lo = read_u32_le(raw.as_slice(), 4) as u64;
        let size_hi: u64 = if raw.len() >= 112 {
            read_u32_le(raw.as_slice(), 108) as u64
        } else {
            0
        };
        let flags = read_u32_le(raw.as_slice(), 32);
        let blocks = slice_copy(raw.as_slice(), 40, 100);
        assert(size_lo + size_hi * 0x1_0000_0000 <= u64::MAX) by (nonlinear_arith)
            requires
                size_lo <= u32::MAX,
                size_hi <= u32::MAX,
        ;
        Ok(Inode { mode, size: size_lo + size_hi * 0x1_0000_0000, flags, blocks })
    }
    fn read_legacy(&mut self, blocks: &[u8], index: u64, in_block: usize, len: usize) -> (res: Result<Vec<u8>, BootError>)
        requires
            old(self).wf(),
            blocks@.len() == 60,
            in_block < old(self)@.geometry.block_size,
        ensures
            final(self)@ == old(self)@,
            final(self).spec_reliable() == old(self).spec_reliable(),
            follows(
                bytes_result(res),
                legacy_range(old(self)@, blocks@, index as nat, in_block as nat, len as nat),
                old(self).spec_reliable(),
            ),
            res matches Ok(v) ==> v@.len() == len,
    {
        if index >= 12 {
            return Err(BootError::Unsupported("ext4 indirect block maps"));
        }
        let block = read_u32_le(blocks, index as usize * 4) as u64;
        if block == 0 {
            return Ok(zero_vec(len));
        }
        let bs = self.layout.geometry.block_size as u64;
        assert(block * bs <= 0x1_0000_0000 * 0x1_0000) by (nonlinear_arith)
            requires
                block <= u32::MAX,
                bs <= 65536,
        ;
        self.dev_read(block * bs + in_block as u64, len)
    }

    fn read_leaf(&mut self, node: &[u8], entries: usize, wanted: u64, in_block: usize, len: usize) -> (res: Result<Vec<u8>, BootError>)
        requires
            old(self).wf(),
            entries <= 4,
            12 + 12 * entries <= node@.len(),
        ensures
            final(self)@ == old(self)@,
            final(self).spec_reliable() == old(self).spec_reliable(),
            follows(
                bytes_result(res),
                leaf_scan(old(self)@, node@, entries as nat, 0, wanted as nat, in_block as nat, len as nat),
                old(self).spec_reliable(),
            ),
            res matches Ok(v) ==> v@.len() == len,
    {
        let bs = self.layout.geometry.block_size as u64;
        let mut i: usize = 0;
        while i < entries
            invariant
                self@ == old(self)@,
                self.spec_reliable() == old(self).spec_reliable(),
                self.wf(),
                bs == self@.geometry.block_size,
                entries <= 4,
                12 + 12 * entries <= node@.len(),
                i <= entries,
                leaf_scan(old(self)@, node@, entries as nat, 0, wanted as nat, in_block as nat, len as nat)
                    == leaf_scan(old(self)@, node@, entries as nat, i as nat, wanted as nat, in_block as nat, len as nat),
            decreases entries - i,
        {
            let p = 12 + 12 * i;
            let logical = read_u32_le(node, p) as u64;
            let raw = read_u16_le(node, p + 4);
            let count = (raw & 0x7fff) as u64;
            if wanted < logical || wanted >= logical + count {
                i = i + 1;
            } else {
                if raw & 0x8000 != 0 {
                    return Ok(zero_vec(len));
                }
                let physical = read_u32_le(node, p + 8) as u64 + read_u16_le(node, p + 6) as u64 * 0x1_0000_0000;
                let block = physical + (wanted - logical);
                let base = match block.checked_mul(bs) {
                    Some(b) => b,
                    None => {
                        assert(block * bs + in_block > u64::MAX) by (nonlinear_arith)
                            requires
                                block * bs > u64::MAX,
                        ;
                        return Err(BootError::FilesystemError);
                    },
                };
                let off = match base.checked_add(in_block as u64) {
                    Some(o) => o,
                    None => return Err(BootError::FilesystemError),
                };
                return self.dev_read(off, len);
            }
        }
        Ok(zero_vec(len))
    }

    fn select_index(node: &[u8], entries: usize, wanted: u64) -> (res: Option<usize>)
        requires
            entries <= 4,
            12 + 12 * entries <= node@.len(),
        ensures
            match res {
                Some(p) => index_scan(node@, entries as nat, 0, wanted as nat, None) == Some(p as nat)
                    && 12 <= p && p + 12 <= node@.len(),
                None => index_scan(node@, entries as nat, 0, wanted as nat, None) is None,
            },
    {
        let mut sel: Option<usize> = None;
        let mut i: usize = 0;
        while i < entries
            invariant
                entries <= 4,
                12 + 12 * entries <= node@.len(),
                i <= entries,
                index_scan(node@, entries as nat, 0, wanted as nat, None) == index_scan(
                    node@,
                    entries as nat,
                    i as nat,
                    wanted as nat,
                    match sel {
                        Some(p) => Some(p as nat),
                        None => None,
                    },
                ),
                sel matches Some(p) ==> 12 <= p && p + 12 <= 12 + 12 * i,
            decreases entries - i,
        {
            let p = 12 + 12 * i;
            if read_u32_le(node, p) as u64 <= wanted {
                sel = Some(p);
            } else {
                return sel;
            }
            i = i + 1;
        }
        sel
    }

    fn read_extent(&mut self, node: &[u8], wanted: u64, in_block: usize, len: usize) -> (res: Result<Vec<u8>, BootError>)
        requires
            old(self).wf(),
            node@.len() >= 60,
        ensures
            final(self)@ == old(self)@,
            final(self).spec_reliable() == old(self).spec_reliable(),
            follows(
                bytes_result(res),
                extent_range(old(self)@, node@, wanted as nat, in_block as nat, len as nat),
                old(self).spec_reliable(),
            ),
            res matches Ok(v) ==> v@.len() == len,
        decreases node_depth(node@),
    {
        if read_u16_le(node, 0) != EXTENT_MAGIC {
            return Err(BootError::InvalidFilesystem);
        }
        let entries = read_u16_le(node, 2) as usize;
        let depth = read_u16_le(node, 6);
        if entries > 4 || 12 + entries * 12 > node.len() {
            return Err(BootError::InvalidFilesystem);
        }
        if depth == 0 {
            return self.read_leaf(node, entries, wanted, in_block, len);
        }
        let p = match Self::select_index(node, entries, wanted) {
            Some(p) => p,
            None => return Err(BootError::FilesystemError),
        };
        let child = read_u32_le(node, p + 4) as u64 + read_u16_le(node, p + 8) as u64 * 0x1_0000_0000;
        let bs = self.layout.geometry.block_size as u64;
        let off = match child.checked_mul(bs) {
            Some(o) => o,
            None => return Err(BootError::FilesystemError),
        };
        let child_node = match self.dev_read(off, bs as usize) {
            Ok(c) => c,
            Err(e) => return Err(e),
        };
        if read_u16_le(child_node.as_slice(), 6) >= depth {
            return Err(BootError::InvalidFilesystem);
        }
        self.read_extent(child_node.as_slice(), wanted, in_block, len)
    }

    fn read_block_range(&mut self, inode: &Inode, index: u64, in_block: usize, len: usize) -> (res: Result<Vec<u8>, BootError>)
        requires
            old(self).wf(),
            inode.blocks@.len() == 60,
            in_block < old(self)@.geometry.block_size,
        ensures
            final(self)@ == old(self)@,
            final(self).spec_reliable() == old(self).spec_reliable(),
            follows(
                bytes_result(res),
                block_range(old(self)@, inode@, index as nat, in_block as nat, len as nat),
                old(self).spec_reliable(),
            ),
            res matches Ok(v) ==> v@.len() == len,
    {
        if inode.flags & EXTENTS_FLAG != 0 {
            self.read_extent(inode.blocks.as_slice(), index, in_block, len)
        } else {
            self.read_legacy(inode.blocks.as_slice(), index, in_block, len)
        }
    }
    fn read_inode_range(&mut self, inode: &Inode, offset: u64, len: usize) -> (res: Result<Vec<u8>, BootError>)
        requires
            old(self).wf(),
            inode.blocks@.len() == 60,
        ensures
            final(self)@ == old(self)@,
            final(self).spec_reliable() == old(self).spec_reliable(),
            follows(
                bytes_result(res),
                inode_range(old(self)@, inode@, offset as nat, len as nat),
                old(self).spec_reliable(),
            ),
            res matches Ok(v) ==> v@.len() == len,
    {
        let end = match offset.checked_add(len as u64) {
            Some(e) => e,
            None => return Err(BootError::FilesystemError),
        };
        if end > inode.size {
            return Err(BootError::FilesystemError);
        }
        let bs = self.layout.geometry.block_size as u64;
        let ghost v = old(self)@;
        let ghost total = range_from(v, inode@, offset as nat, len as nat, 0);
        let mut out: Vec<u8> = Vec::new();
        let mut written: usize = 0;
        proof {
            lemma_prepend_empty(total);
            assert(inode_range(v, inode@, offset as nat, len as nat) == total);
        }
        while written < len
            invariant
                self@ == v,
                v == old(self)@,
                self.spec_reliable() == old(self).spec_reliable(),
                self.wf(),
                bs == v.geometry.block_size,
                inode.blocks@.len() == 60,
                written <= len,
                out@.len() == written,
                offset + len <= u64::MAX,
                total == range_from(v, inode@, offset as nat, len as nat, 0),
                inode_range(v, inode@, offset as nat, len as nat) == total,
                total == prepend(out@, range_from(v, inode@, offset as nat, len as nat, written as nat)),
            decreases len - written,
        {
            let at = offset + written as u64;
            let in_block = (at % bs) as usize;
            let room = bs as usize - in_block;
            let chunk = if len - written < room {
                len - written
            } else {
                room
            };
            assert(range_from(v, inode@, offset as nat, len as nat, written as nat) == match block_range(
                v,
                inode@,
                (at / bs) as nat,
                in_block as nat,
                chunk as nat,
            ) {
                Err(e) => Err(e),
                Ok(data) => prepend(data, range_from(v, inode@, offset as nat, len as nat, (written + chunk) as nat)),
            });
            let mut data = match self.read_block_range(inode, at / bs, in_block, chunk) {
                Ok(d) => d,
                Err(e) => {
                    proof {
                        if old(self).spec_reliable() {
                            assert(block_range(v, inode@, (at / bs) as nat, in_block as nat, chunk as nat)
                                == Err::<Seq<u8>, BootError>(e));
                            assert(total == Err::<Seq<u8>, BootError>(e));
                        }
                    }
                    return Err(e);
                },
            };
            proof {
                lemma_prepend_assoc(
                    out@,
                    data@,
                    range_from(v, inode@, offset as nat, len as nat, (written + chunk) as nat),
                );
            }
            out.append(&mut data);
            written = written + chunk;
        }
        proof {
            lemma_prepend_empty(total);
            assert(out@ + Seq::<u8>::empty() =~= out@);
        }
        Ok(out)
    }

    fn read_inode_data(&mut self, inode: &Inode) -> (res: Result<Vec<u8>, BootError>)
        requires
            old(self).wf(),
            inode.blocks@.len() == 60,
        ensures
            final(self)@ == old(self)@,
            final(self).spec_reliable() == old(self).spec_reliable(),
            follows(bytes_result(res), inode_data(old(self)@, inode@), old(self).spec_reliable()),
    {
        if inode.size > usize::MAX as u64 {
            return Err(BootError::FilesystemError);
        }
        self.read_inode_range(inode, 0, inode.size as usize)
    }

    fn find_in_dir(&mut self, dir: &Inode, wanted: &[u8]) -> (res: Result<u32, BootError>)
        requires
            old(self).wf(),
            dir.blocks@.len() == 60,
        ensures
            final(self)@ == old(self)@,
            final(self).spec_reliable() == old(self).spec_reliable(),
            follows(res, find_in_directory(old(self)@, dir@, wanted@), old(self).spec_reliable()),
    {
        let data = match self.read_inode_data(dir) {
            Ok(d) => d,
            Err(e) => return Err(e),
        };
        find_record(data.as_slice(), wanted)
    }

    fn resolve(&mut self, path: &[u8]) -> (res: Result<Inode, BootError>)
        requires
            old(self).wf(),
        ensures
            final(self)@ == old(self)@,
            final(self).spec_reliable() == old(self).spec_reliable(),
            follows(inode_result(res), resolve_path(old(self)@, path@), old(self).spec_reliable()),
            res matches Ok(i) ==> i.blocks@.len() == 60,
    {
        if path.len() == 0 || path[0] != SLASH {
            return Err(BootError::FilesystemError);
        }
        let ghost v = old(self)@;
        let mut inode = match self.read_inode(ROOT_INODE) {
            Ok(i) => i,
            Err(e) => return Err(e),
        };
        let pieces = split_bytes(path, SLASH);
        let ghost ps = split_seq(path@, SLASH);
        let mut i: usize = 0;
        while i < pieces.len()
            invariant
                self@ == v,
                v == old(self)@,
                self.spec_reliable() == old(self).spec_reliable(),
                self.wf(),
                pieces.deep_view() == ps,
                ps == split_seq(path@, SLASH),
                i <= pieces@.len(),
                inode.blocks@.len() == 60,
                path@.len() > 0 && path@[0] == SLASH,
                resolve_path(v, path@) == resolve_from(v, ps, i as nat, inode@),
            decreases pieces@.len() - i,
        {
            let piece = &pieces[i];
            assert(piece@ == ps[i as int]);
            if piece.len() != 0 {
                if inode.mode & 0xf000 != 0x4000 {
                    return Err(BootError::FilesystemError);
                }
                let next = match self.find_in_dir(&inode, piece.as_slice()) {
                    Ok(n) => n,
                    Err(e) => return Err(e),
                };
                inode = match self.read_inode(next) {
                    Ok(n) => n,
                    Err(e) => return Err(e),
                };
            }
            i = i + 1;
        }
        Ok(inode)
    }

    /// The contents of the regular file at the absolute `path`.
    pub fn read_file(&mut self, path: &str) -> (res: Result<Vec<u8>, BootError>)
        ensures
            final(self)@ == old(self)@,
            final(self).spec_reliable() == old(self).spec_reliable(),
            follows(
                bytes_result(res),
                ext4_read_file(old(self)@, vstd::utf8::encode_utf8(path@)),
                old(self).spec_reliable(),
            ),
    {
        proof {
            use_type_invariant(&self.layout);
        }
        let inode = match self.resolve(path.as_bytes()) {
            Ok(i) => i,
            Err(e) => return Err(e),
        };
        if inode.mode & 0xf000 != 0x8000 {
            return Err(BootError::FilesystemError);
        }
        self.read_inode_data(&inode)
    }

    /// The BLAKE3 digest of the regular file at the absolute `path`, read
    /// 64 KiB at a time.
    pub fn hash_file(&mut self, path: &str) -> (res: Result<[u8; 32], BootError>)
        ensures
            final(self)@ == old(self)@,
            final(self).spec_reliable() == old(self).spec_reliable(),
            res matches Ok(d) ==> ext4_hash_source(old(self)@, vstd::utf8::encode_utf8(path@)) matches Ok(
                data,
            ) && d@ == blake3_digest(data),
            old(self).spec_reliable() ==> match ext4_hash_source(old(self)@, vstd::utf8::encode_utf8(path@)) {
                Ok(data) => res matches Ok(d) && d@ == blake3_digest(data),
                Err(e) => res == Err::<[u8; 32], BootError>(e),
            },
    {
        proof {
            use_type_invariant(&self.layout);
        }
        let inode = match self.resolve(path.as_bytes()) {
            Ok(i) => i,
            Err(e) => return Err(e),
        };
        if inode.mode & 0xf000 != 0x8000 {
            return Err(BootError::FilesystemError);
        }
        let ghost v = old(self)@;
        let ghost total = range_from(v, inode@, 0, inode.size as nat, 0);
        let size = inode.size;
        let mut hasher = hasher_new();
        let mut offset: u64 = 0;
        proof {
            lemma_range_shift(v, inode@, 0, inode.size as nat, 0);
            lemma_prepend_empty(total);
        }
        while offset < size
            invariant
                self@ == v,
                v == old(self)@,
                self.spec_reliable() == old(self).spec_reliable(),
                self.wf(),
                inode.blocks@.len() == 60,
                size == inode.size,
                offset <= size,
                offset % 65536 == 0 || offset == size,
                total == range_from(v, inode@, 0, inode.size as nat, 0),
                ext4_hash_source(v, vstd::utf8::encode_utf8(path@)) == total,
                total == prepend(hasher_input(hasher), range_from(v, inode@, offset as nat, (size - offset) as nat, 0)),
            decreases size - offset,
        {
            let remaining = size - offset;
            let chunk: usize = if remaining < 65536 {
                remaining as usize
            } else {
                65536
            };
            proof {
                let bs = v.geometry.block_size as int;
                if chunk < remaining {
                    lemma_aligned_step(offset as int, bs);
                }
                lemma_range_split(v, inode@, offset as nat, remaining as nat, chunk as nat, 0);
            }
            let data = match self.read_inode_range(&inode, offset, chunk) {
                Ok(d) => d,
                Err(e) => {
                    proof {
                        if old(self).spec_reliable() {
                            assert(inode_range(v, inode@, offset as nat, chunk as nat) == Err::<Seq<u8>, BootError>(e));
                            assert(range_from(v, inode@, offset as nat, chunk as nat, 0) == Err::<Seq<u8>, BootError>(e));
                            assert(total == Err::<Seq<u8>, BootError>(e));
                        }
                    }
                    return Err(e);
                },
            };
            proof {
                lemma_prepend_assoc(
                    hasher_input(hasher),
                    data@,
                    range_from(v, inode@, (offset + chunk) as nat, (size - offset - chunk) as nat, 0),
                );
            }
            hasher_update(&mut hasher, data.as_slice());
            offset = offset + chunk as u64;
        }
        proof {
            assert(hasher_input(hasher) + Seq::<u8>::empty() =~= hasher_input(hasher));
        }
        Ok(hasher_finalize(&hasher))
    }

    /// Whether the absolute `path` names a regular file.
    pub fn file_exists(&mut self, path: &str) -> (res: Result<bool, BootError>)
        ensures
            final(self)@ == old(self)@,
            final(self).spec_reliable() == old(self).spec_reliable(),
            old(self).spec_reliable() ==> res == ext4_file_exists(old(self)@, vstd::utf8::encode_utf8(path@)),
            res == Ok::<bool, BootError>(true) ==> ext4_file_exists(old(self)@, vstd::utf8::encode_utf8(path@))
                == Ok::<bool, BootError>(true),
    {
        proof {
            use_type_invariant(&self.layout);
        }
        match self.resolve(path.as_bytes()) {
            Ok(inode) => Ok(inode.mode & 0xf000 == 0x8000),
            Err(BootError::TargetNotFound) => Ok(false),
            Err(e) => Err(e),
        }
    }

    /// The entries of the directory at the absolute `path`, `.` and `..`
    /// left out.
    pub fn read_dir(&mut self, path: &str) -> (res: Result<Vec<DirEntry>, BootError>)
        ensures
            final(self)@ == old(self)@,
            final(self).spec_reliable() == old(self).spec_reliable(),
            follows(
                entries_result(res),
                ext4_read_dir(old(self)@, vstd::utf8::encode_utf8(path@)),
                old(self).spec_reliable(),
            ),
    {
        proof {
            use_type_invariant(&self.layout);
        }
        let inode = match self.resolve(path.as_bytes()) {
            Ok(i) => i,
            Err(e) => return Err(e),
        };
        if inode.mode & 0xf000 != 0x4000 {
            return Err(BootError::FilesystemError);
        }
        let data = match self.read_inode_data(&inode) {
            Ok(d) => d,
            Err(e) => return Err(e),
        };
        list_records(data.as_slice())
    }
}

impl<D: BlockDevice> SystemFiles for Ext4<D> {
    open spec fn spec_listing(&self, path: Seq<char>) -> Result<Seq<(Seq<char>, u32, u8)>, BootError> {
        ext4_read_dir(self@, vstd::utf8::encode_utf8(path))
    }

    open spec fn spec_contents(&self, path: Seq<char>) -> Result<Seq<u8>, BootError> {
        ext4_read_file(self@, vstd::utf8::encode_utf8(path))
    }

    open spec fn spec_exists(&self, path: Seq<char>) -> Result<bool, BootError> {
        ext4_file_exists(self@, vstd::utf8::encode_utf8(path))
    }

    open spec fn spec_files_reliable(&self) -> bool {
        self.spec_reliable()
    }

    fn read_dir(&mut self, path: &str) -> (res: Result<Vec<DirEntry>, BootError>)
        ensures
            final(self)@ == old(self)@,
            final(self).spec_reliable() == old(self).spec_reliable(),
            follows(
                entries_result(res),
                ext4_read_dir(old(self)@, vstd::utf8::encode_utf8(path@)),
                old(self).spec_reliable(),
            ),
    {
        Ext4::<D>::read_dir(self, path)
    }

    fn read_file(&mut self, path: &str) -> (res: Result<Vec<u8>, BootError>)
        ensures
            final(self)@ == old(self)@,
            final(self).spec_reliable() == old(self).spec_reliable(),
            follows(
                bytes_result(res),
                ext4_read_file(old(self)@, vstd::utf8::encode_utf8(path@)),
                old(self).spec_reliable(),
            ),
    {
        Ext4::<D>::read_file(self, path)
    }

    fn file_exists(&mut self, path: &str) -> (res: Result<bool, BootError>)
        ensures
            final(self)@ == old(self)@,
            final(self).spec_reliable() == old(self).spec_reliable(),
            old(self).spec_reliable() ==> res == ext4_file_exists(old(self)@, vstd::utf8::encode_utf8(path@)),
            res == Ok::<bool, BootError>(true) ==> ext4_file_exists(old(self)@, vstd::utf8::encode_utf8(path@))
                == Ok::<bool, BootError>(true),
    {
        Ext4::<D>::file_exists(self, path)
    }
}

/// The inode number of the entry `wanted` among directory records.
fn find_record(data: &[u8], wanted: &[u8]) -> (res: Result<u32, BootError>)
    ensures
        res == find_entry(data@, wanted@, 0),
{
    let mut off: usize = 0;
    while off <= data.len() && data.len() - off >= 8
        invariant
            off <= data@.len(),
            find_entry(data@, wanted@, 0) == find_entry(data@, wanted@, off as int),
        decreases data@.len() - off,
    {
        let ino = read_u32_le(data, off);
        let rec = read_u16_le(data, off + 4) as usize;
        let name_len = data[off + 6] as usize;
        let kind = data[off + 7];
        if rec < 8 || rec > data.len() - off || name_len > rec - 8 {
            return Err(BootError::InvalidFilesystem);
        }
        let name = slice_copy(data, off + 8, off + 8 + name_len);
        if ino != 0 && bytes_eq(name.as_slice(), wanted) && (kind == 2 || kind == 1 || kind == 0) {
            return Ok(ino);
        }
        off = off + rec;
    }
    Err(BootError::TargetNotFound)
}

/// The entries of directory records, `.` and `..` left out.
fn list_records(data: &[u8]) -> (res: Result<Vec<DirEntry>, BootError>)
    ensures
        entries_result(res) == dir_entries(data@, 0),
{
    let mut out: Vec<DirEntry> = Vec::new();
    let mut off: usize = 0;
    proof {
        lemma_prepend_empty(dir_entries(data@, 0));
        assert(entry_views(out@) =~= Seq::empty());
        reveal_strlit(".");
        reveal_strlit("..");
    }
    while off <= data.len() && data.len() - off >= 8
        invariant
            off <= data@.len(),
            dir_entries(data@, 0) == prepend(entry_views(out@), dir_entries(data@, off as int)),
            "."@ == seq!['.'],
            ".."@ == seq!['.', '.'],
        decreases data@.len() - off,
    {
        let ino = read_u32_le(data, off);
        let rec = read_u16_le(data, off + 4) as usize;
        let name_len = data[off + 6] as usize;
        let kind = data[off + 7];
        if rec < 8 || rec > data.len() - off || name_len > rec - 8 {
            return Err(BootError::InvalidFilesystem);
        }
        if ino != 0 && name_len != 0 {
            let bytes = slice_copy(data, off + 8, off + 8 + name_len);
            let name = match utf8_to_string(bytes.as_slice()) {
                Some(n) => n,
                None => return Err(BootError::FilesystemError),
            };
            if !(str_eq(name.as_str(), ".") || str_eq(name.as_str(), "..")) {
                let ghost before = entry_views(out@);
                let ghost item = (name@, ino, kind);
                out.push(DirEntry { name, inode: ino, file_type: kind });
                proof {
                    assert(entry_views(out@) =~= before + seq![item]);
                    lemma_prepend_assoc(before, seq![item], dir_entries(data@, off + rec));
                }
            }
        }
        off = off + rec;
    }
    proof {
        assert(entry_views(out@) + Seq::empty() =~= entry_views(out@));
    }
    Ok(out)
}

fn zero_vec(n: usize) -> (res: Vec<u8>)
    ensures
        res@ == zero_bytes(n as nat),
{
    let mut out: Vec<u8> = Vec::new();
    let mut i: usize = 0;
    while i < n
        invariant
            i <= n,
            out@ == zero_bytes(i as nat),
        decreases n - i,
    {
        out.push(0);
        i = i + 1;
        assert(out@ =~= zero_bytes(i as nat));
    }
    out
}

} // verus!
