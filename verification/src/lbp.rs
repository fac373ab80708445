//! LBP1 (`.lbp`) bundle container codec.
//!
//! Layout: a 64-byte header (magic `LBP1`, format version, flags, section
//! count, section-table offset and length, header length, and the BLAKE3
//! digest of the header with the digest field zeroed), followed by a table
//! of 64-byte section entries and the section data. Every structural bound is
//! checked before any section is exposed.

use vstd::prelude::*;
use crate::bytes::{le_field, le_value, pow256, read_le, push_le, le_encode, lemma_le_value_bound, lemma_pow256_values, lemma_le_encode_decode, lemma_le_encode_len, lemma_le_field_of};
use crate::digest::{blake3_digest, hash32};
use crate::path::{bytes_eq, path_parts, path_parts_of, parts_eq, parts_starts_with, parts_prefix, has_unsafe_relative_part, ExecPart, PathPart};
use crate::tarball::{list_tar, tar_listing, tar_entries_view, TarEntry, TAR_REGULAR, TAR_DIRECTORY};
use crate::manifest::{LbpManifest, manifest_rules_ok, is_dep_source, parts_have_unsafe};
use crate::text::{chars_of, has_prefix_at, utf8_to_string};
use crate::text::{prefixed, prefixed_lossy, prefixed_lossy_string, decimal, hexadecimal, push_decimal, push_hex};
use crate::compress::{zstd_decoded, zstd_decode, zstd_encoded, zstd_encode};

verus! {

pub const FORMAT_VERSION: u16 = 1;
pub const HEADER_SIZE: usize = 64;
pub const SECTION_ENTRY_SIZE: usize = 64;
pub const HEADER_HASH_OFFSET: usize = 32;
pub const MAX_SECTION_SIZE: u64 = 1073741824;
pub const COMPRESSION_NONE: u32 = 0;
pub const COMPRESSION_ZSTD: u32 = 1;

/// The four magic bytes `LBP1`.
pub fn magic() -> (res: [u8; 4])
    ensures
        res@ == magic_seq(),
{
    let m = [76u8, 66u8, 80u8, 49u8];
    assert(m@ =~= magic_seq());
    m
}

pub open spec fn magic_seq() -> Seq<u8> {
    seq![76u8, 66u8, 80u8, 49u8]
}

/// Kind of a container section.
#[derive(Clone, Copy, Debug, PartialEq, Eq, Structural)]
pub enum SectionKind {
    Manifest,
    Payload,
    Resources,
    Signature,
}

/// The section kind stored under a type code.
pub open spec fn kind_of_code(code: nat) -> Option<SectionKind> {
    if code == 1 {
        Some(SectionKind::Manifest)
    } else if code == 2 {
        Some(SectionKind::Payload)
    } else if code == 3 {
        Some(SectionKind::Resources)
    } else if code == 4 {
        Some(SectionKind::Signature)
    } else {
        None
    }
}

/// The type code of a section kind.
pub open spec fn code_of_kind(kind: SectionKind) -> nat {
    match kind {
        SectionKind::Manifest => 1,
        SectionKind::Payload => 2,
        SectionKind::Resources => 3,
        SectionKind::Signature => 4,
    }
}

impl SectionKind {
    pub fn code(self) -> (res: u32)
        ensures
            res as nat == code_of_kind(self),
    {
        match self {
            SectionKind::Manifest => 1,
            SectionKind::Payload => 2,
            SectionKind::Resources => 3,
            SectionKind::Signature => 4,
        }
    }

    pub fn from_code(value: u32) -> (res: Result<SectionKind, LbpError>)
        ensures
            match kind_of_code(value as nat) {
                Some(k) => res == Ok::<SectionKind, LbpError>(k),
                None => res matches Err(LbpError::UnknownSectionType(v)) && v == value,
            },
    {
        if value == 1 {
            Ok(SectionKind::Manifest)
        } else if value == 2 {
            Ok(SectionKind::Payload)
        } else if value == 3 {
            Ok(SectionKind::Resources)
        } else if value == 4 {
            Ok(SectionKind::Signature)
        } else {
            Err(LbpError::UnknownSectionType(value))
        }
    }
}

/// One entry of the section table.
#[derive(Clone, Copy, Debug, PartialEq, Eq)]
pub struct SectionInfo {
    pub kind: SectionKind,
    pub compression: u32,
    pub offset: u64,
    pub compressed_length: u64,
    pub uncompressed_length: u64,
    pub content_hash: [u8; 32],
}

/// Mathematical content of a section entry.
pub ghost struct SectionView {
    pub kind: SectionKind,
    pub compression: u32,
    pub offset: u64,
    pub compressed_length: u64,
    pub uncompressed_length: u64,
    pub content_hash: Seq<u8>,
}

impl View for SectionInfo {
    type V = SectionView;

    open spec fn view(&self) -> SectionView {
        SectionView {
            kind: self.kind,
            compression: self.compression,
            offset: self.offset,
            compressed_length: self.compressed_length,
            uncompressed_length: self.uncompressed_length,
            content_hash: self.content_hash@,
        }
    }
}

pub open spec fn sections_view(v: Seq<SectionInfo>) -> Seq<SectionView> {
    Seq::new(v.len(), |i: int| v[i]@)
}

/// Errors of the container codec and manifest validation.
#[derive(Clone, Debug, PartialEq, Eq)]
pub enum LbpError {
    Io(String),
    InvalidHeader,
    UnsupportedVersion(u16),
    UnsupportedFlags(u16),
    InvalidSectionTable,
    InvalidSection,
    UnknownSectionType(u32),
    UnsupportedCompression(u32),
    HashMismatch,
    ManifestFormat(String),
    PayloadFormat(String),
    PayloadPath(Vec<u8>),
    DuplicatePayloadPath(Vec<u8>),
    UnsupportedEntry(Vec<u8>),
    MissingPayloadFile(String),
    NumericOverflow,
    ResourceLimit,
}

/// The kind of an `LbpError`, without its message text.
pub ghost enum LbpFault {
    Io,
    InvalidHeader,
    UnsupportedVersion(u16),
    UnsupportedFlags(u16),
    InvalidSectionTable,
    InvalidSection,
    UnknownSectionType(u32),
    UnsupportedCompression(u32),
    HashMismatch,
    ManifestFormat,
    PayloadFormat,
    PayloadPath,
    DuplicatePayloadPath,
    UnsupportedEntry,
    MissingPayloadFile,
    NumericOverflow,
    ResourceLimit,
}

pub open spec fn fault_of(e: LbpError) -> LbpFault {
    match e {
        LbpError::Io(_) => LbpFault::Io,
        LbpError::InvalidHeader => LbpFault::InvalidHeader,
        LbpError::UnsupportedVersion(v) => LbpFault::UnsupportedVersion(v),
        LbpError::UnsupportedFlags(v) => LbpFault::UnsupportedFlags(v),
        LbpError::InvalidSectionTable => LbpFault::InvalidSectionTable,
        LbpError::InvalidSection => LbpFault::InvalidSection,
        LbpError::UnknownSectionType(v) => LbpFault::UnknownSectionType(v),
        LbpError::UnsupportedCompression(v) => LbpFault::UnsupportedCompression(v),
        LbpError::HashMismatch => LbpFault::HashMismatch,
        LbpError::ManifestFormat(_) => LbpFault::ManifestFormat,
        LbpError::PayloadFormat(_) => LbpFault::PayloadFormat,
        LbpError::PayloadPath(_) => LbpFault::PayloadPath,
        LbpError::DuplicatePayloadPath(_) => LbpFault::DuplicatePayloadPath,
        LbpError::UnsupportedEntry(_) => LbpFault::UnsupportedEntry,
        LbpError::MissingPayloadFile(_) => LbpFault::MissingPayloadFile,
        LbpError::NumericOverflow => LbpFault::NumericOverflow,
        LbpError::ResourceLimit => LbpFault::ResourceLimit,
    }
}

/// The description of an `LbpError`, held against `text`: fixed words,
/// then the value the error carries (numbers in decimal, flags as `0x` and
/// lowercase hexadecimal, paths decoded from their bytes).
pub open spec fn describes_lbp_error(e: LbpError, text: Seq<char>) -> bool {
    match e {
        LbpError::Io(m) => text == "I/O error: "@ + m@,
        LbpError::InvalidHeader => text == "invalid LBP1 header"@,
        LbpError::UnsupportedVersion(v) => text == "unsupported LBP version: "@ + decimal(v as nat),
        LbpError::UnsupportedFlags(f) => text == "unsupported LBP flags: 0x"@ + hexadecimal(f as nat),
        LbpError::InvalidSectionTable => text == "invalid LBP section table"@,
        LbpError::InvalidSection => text == "invalid LBP section"@,
        LbpError::UnknownSectionType(v) => text == "unknown LBP section type: "@ + decimal(v as nat),
        LbpError::UnsupportedCompression(v) => text == "unsupported LBP compression: "@ + decimal(v as nat),
        LbpError::HashMismatch => text == "LBP content hash mismatch"@,
        LbpError::ManifestFormat(m) => text == "invalid manifest: "@ + m@,
        LbpError::PayloadFormat(m) => text == "invalid payload archive: "@ + m@,
        LbpError::PayloadPath(p) => prefixed_lossy(text, "unsafe payload path: "@, p@),
        LbpError::DuplicatePayloadPath(p) => prefixed_lossy(text, "duplicate payload path: "@, p@),
        LbpError::UnsupportedEntry(p) => prefixed_lossy(text, "unsupported payload entry: "@, p@),
        LbpError::MissingPayloadFile(p) => text == "manifest references missing payload file: "@ + p@,
        LbpError::NumericOverflow => text == "numeric overflow"@,
        LbpError::ResourceLimit => text == "resource limit exceeded"@,
    }
}

impl LbpError {
    /// Human-readable description.
    pub fn message(&self) -> (res: String)
        ensures
            describes_lbp_error(*self, res@),
    {
        match self {
            LbpError::Io(e) => prefixed("I/O error: ", e.as_str()),
            LbpError::InvalidHeader => String::from_str("invalid LBP1 header"),
            LbpError::UnsupportedVersion(v) => {
                let mut s = String::from_str("unsupported LBP version: ");
                push_decimal(&mut s, *v as u64);
                s
            },
            LbpError::UnsupportedFlags(f) => {
                let mut s = String::from_str("unsupported LBP flags: 0x");
                push_hex(&mut s, *f as u64);
                s
            },
            LbpError::InvalidSectionTable => String::from_str("invalid LBP section table"),
            LbpError::InvalidSection => String::from_str("invalid LBP section"),
            LbpError::UnknownSectionType(v) => {
                let mut s = String::from_str("unknown LBP section type: ");
                push_decimal(&mut s, *v as u64);
                s
            },
            LbpError::UnsupportedCompression(v) => {
                let mut s = String::from_str("unsupported LBP compression: ");
                push_decimal(&mut s, *v as u64);
                s
            },
            LbpError::HashMismatch => String::from_str("LBP content hash mismatch"),
            LbpError::ManifestFormat(e) => prefixed("invalid manifest: ", e.as_str()),
            LbpError::PayloadFormat(e) => prefixed("invalid payload archive: ", e.as_str()),
            LbpError::PayloadPath(p) => prefixed_lossy_string("unsafe payload path: ", p.as_slice()),
            LbpError::DuplicatePayloadPath(p) => prefixed_lossy_string("duplicate payload path: ", p.as_slice()),
            LbpError::UnsupportedEntry(p) => prefixed_lossy_string("unsupported payload entry: ", p.as_slice()),
            LbpError::MissingPayloadFile(p) => prefixed("manifest references missing payload file: ", p.as_str()),
            LbpError::NumericOverflow => String::from_str("numeric overflow"),
            LbpError::ResourceLimit => String::from_str("resource limit exceeded"),
        }
    }
}

// ---------------------------------------------------------------------------
// Header
// ---------------------------------------------------------------------------

/// The header with its digest field (bytes 32..64) zeroed.
pub open spec fn normalized_header(b: Seq<u8>) -> Seq<u8> {
    b.subrange(0, 32) + Seq::new(32, |i: int| 0u8)
}

/// Decoded header fields: section count, table offset, table end.
pub ghost struct HeaderView {
    pub count: nat,
    pub table_offset: nat,
    pub table_end: nat,
}

/// Header validation, in the order the codec checks it.
pub open spec fn header_result(b: Seq<u8>) -> Result<HeaderView, LbpFault> {
    if b.len() < 64 || b.subrange(0, 4) != magic_seq() {
        Err(LbpFault::InvalidHeader)
    } else if le_field(b, 4, 2) != 1 {
        Err(LbpFault::UnsupportedVersion(le_field(b, 4, 2) as u16))
    } else if le_field(b, 6, 2) != 0 {
        Err(LbpFault::UnsupportedFlags(le_field(b, 6, 2) as u16))
    } else if le_field(b, 12, 8) > usize::MAX || le_field(b, 20, 8) > usize::MAX {
        Err(LbpFault::NumericOverflow)
    } else if le_field(b, 8, 4) * 64 > usize::MAX {
        Err(LbpFault::NumericOverflow)
    } else if le_field(b, 28, 4) != 64 || le_field(b, 20, 8) != le_field(b, 8, 4) * 64
        || le_field(b, 12, 8) < 64 {
        Err(LbpFault::InvalidSectionTable)
    } else if blake3_digest(normalized_header(b)) != b.subrange(32, 64) {
        Err(LbpFault::HashMismatch)
    } else if le_field(b, 12, 8) + le_field(b, 20, 8) > usize::MAX {
        Err(LbpFault::NumericOverflow)
    } else if le_field(b, 12, 8) + le_field(b, 20, 8) > b.len() {
        Err(LbpFault::InvalidSectionTable)
    } else {
        Ok(
            HeaderView {
                count: le_field(b, 8, 4),
                table_offset: le_field(b, 12, 8),
                table_end: le_field(b, 12, 8) + le_field(b, 20, 8),
            },
        )
    }
}

proof fn lemma_field_bounds(b: Seq<u8>, off: int, n: int)
    requires
        0 <= off,
        0 <= n,
        off + n <= b.len(),
    ensures
        le_field(b, off, n) < pow256(n as nat),
{
    lemma_le_value_bound(b.subrange(off, off + n));
}

/// Validates the 64-byte header and returns (count, table offset, table end).
fn decode_header(bytes: &[u8]) -> (res: Result<(usize, usize, usize), LbpError>)
    ensures
        match header_result(bytes@) {
            Ok(h) => res matches Ok((c, o, e)) && c == h.count && o == h.table_offset && e
                == h.table_end,
            Err(f) => res matches Err(e) && fault_of(e) == f,
        },
{
    proof {
        lemma_pow256_values();
    }
    if bytes.len() < HEADER_SIZE {
        return Err(LbpError::InvalidHeader);
    }
    let m = magic();
    if !bytes_eq(&bytes[0..4], m.as_slice()) {
        return Err(LbpError::InvalidHeader);
    }
    proof {
        lemma_field_bounds(bytes@, 4, 2);
        lemma_field_bounds(bytes@, 6, 2);
        lemma_field_bounds(bytes@, 8, 4);
        lemma_field_bounds(bytes@, 28, 4);
    }
    let version = read_le(bytes, 4, 2) as u16;
    if version != FORMAT_VERSION {
        return Err(LbpError::UnsupportedVersion(version));
    }
    let flags = read_le(bytes, 6, 2) as u16;
    if flags != 0 {
        return Err(LbpError::UnsupportedFlags(flags));
    }
    let count64 = read_le(bytes, 8, 4);
    let offset64 = read_le(bytes, 12, 8);
    let length64 = read_le(bytes, 20, 8);
    let header_length = read_le(bytes, 28, 4);
    if offset64 > usize::MAX as u64 || length64 > usize::MAX as u64 {
        return Err(LbpError::NumericOverflow);
    }
    let count = count64 as usize;
    let table_offset = offset64 as usize;
    let table_length = length64 as usize;
    if count > usize::MAX / SECTION_ENTRY_SIZE {
        return Err(LbpError::NumericOverflow);
    }
    let expected = count * SECTION_ENTRY_SIZE;
    if header_length != 64 || table_length != expected || table_offset < HEADER_SIZE {
        return Err(LbpError::InvalidSectionTable);
    }
    let mut normalized: Vec<u8> = Vec::new();
    let mut i: usize = 0;
    while i < 64
        invariant
            i <= 64 <= bytes@.len(),
            normalized@ == (if i <= 32 {
                bytes@.subrange(0, i as int)
            } else {
                bytes@.subrange(0, 32) + Seq::new((i - 32) as nat, |k: int| 0u8)
            }),
        decreases 64 - i,
    {
        let ghost before = normalized@;
        if i < 32 {
            normalized.push(bytes[i]);
            proof {
                assert(normalized@ =~= bytes@.subrange(0, i + 1));
            }
        } else {
            normalized.push(0u8);
            proof {
                if i == 32 {
                    assert(normalized@ =~= bytes@.subrange(0, 32) + Seq::new(1, |k: int| 0u8));
                } else {
                    assert(normalized@ =~= bytes@.subrange(0, 32) + Seq::new(
                        (i + 1 - 32) as nat,
                        |k: int| 0u8,
                    ));
                }
            }
        }
        i = i + 1;
    }
    let digest = hash32(normalized.as_slice());
    proof {
        assert(normalized@ =~= normalized_header(bytes@));
    }
    if !bytes_eq(digest.as_slice(), &bytes[32..64]) {
        return Err(LbpError::HashMismatch);
    }
    if table_offset > usize::MAX - table_length {
        return Err(LbpError::NumericOverflow);
    }
    let table_end = table_offset + table_length;
    if table_end > bytes.len() {
        return Err(LbpError::InvalidSectionTable);
    }
    Ok((count, table_offset, table_end))
}


// ---------------------------------------------------------------------------
// Section table
// ---------------------------------------------------------------------------

/// One section-table entry starting at `s`, validated against the image
/// length and the end of the table.
pub open spec fn entry_result(b: Seq<u8>, s: int, table_end: nat) -> Result<SectionView, LbpFault> {
    let code = le_field(b, s, 4);
    let compression = le_field(b, s + 4, 4);
    let offset = le_field(b, s + 8, 8);
    let clen = le_field(b, s + 16, 8);
    let ulen = le_field(b, s + 24, 8);
    if kind_of_code(code) is None {
        Err(LbpFault::UnknownSectionType(code as u32))
    } else if compression != 0 && compression != 1 {
        Err(LbpFault::UnsupportedCompression(compression as u32))
    } else if offset + clen > u64::MAX {
        Err(LbpFault::NumericOverflow)
    } else if offset + clen > b.len() {
        Err(LbpFault::InvalidSection)
    } else if offset < table_end {
        Err(LbpFault::InvalidSectionTable)
    } else if ulen > MAX_SECTION_SIZE {
        Err(LbpFault::ResourceLimit)
    } else {
        Ok(
            SectionView {
                kind: kind_of_code(code)->0,
                compression: compression as u32,
                offset: offset as u64,
                compressed_length: clen as u64,
                uncompressed_length: ulen as u64,
                content_hash: b.subrange(s + 32, s + 64),
            },
        )
    }
}

/// The first `n` entries of the table at `table_offset`.
pub open spec fn entries_result(b: Seq<u8>, table_offset: nat, table_end: nat, n: nat) -> Result<
    Seq<SectionView>,
    LbpFault,
>
    decreases n,
{
    if n == 0 {
        Ok(Seq::empty())
    } else {
        match entries_result(b, table_offset, table_end, (n - 1) as nat) {
            Err(f) => Err(f),
            Ok(prev) => match entry_result(b, table_offset + (n - 1) * 64, table_end) {
                Err(f) => Err(f),
                Ok(e) => Ok(prev.push(e)),
            },
        }
    }
}

pub open spec fn section_end(s: SectionView) -> int {
    s.offset + s.compressed_length
}

/// `(offset, end)` of `a` sorts before or equal to that of `b`.
pub open spec fn range_le(a: SectionView, b: SectionView) -> bool {
    a.offset < b.offset || (a.offset == b.offset && section_end(a) <= section_end(b))
}

/// Two distinct entries whose byte ranges overlap.
pub open spec fn ranges_overlap(v: Seq<SectionView>) -> bool {
    exists|i: int, j: int|
        0 <= i < v.len() && 0 <= j < v.len() && i != j && range_le(v[i], v[j]) && section_end(v[i])
            > v[j].offset
}

/// Number of entries of a given kind.
pub open spec fn count_kind(v: Seq<SectionView>, k: SectionKind) -> nat
    decreases v.len(),
{
    if v.len() == 0 {
        0
    } else {
        count_kind(v.drop_last(), k) + if v.last().kind == k {
            1nat
        } else {
            0nat
        }
    }
}

/// The table is accepted: no overlapping data, exactly one manifest and one
/// payload, at most one resources and one signature section.
pub open spec fn table_shape_ok(v: Seq<SectionView>) -> bool {
    &&& !ranges_overlap(v)
    &&& count_kind(v, SectionKind::Manifest) == 1
    &&& count_kind(v, SectionKind::Payload) == 1
    &&& count_kind(v, SectionKind::Resources) <= 1
    &&& count_kind(v, SectionKind::Signature) <= 1
}

/// Index of the first entry of kind `k`, or `v.len()` when there is none.
pub open spec fn first_of_kind(v: Seq<SectionView>, k: SectionKind) -> int
    decreases v.len(),
{
    if v.len() == 0 {
        0
    } else if v[0].kind == k {
        0
    } else {
        1 + first_of_kind(v.drop_first(), k)
    }
}

fn entry_field(bytes: &[u8], at: usize, n: usize) -> (res: u64)
    requires
        n == 4 || n == 8,
        at + n <= bytes@.len(),
    ensures
        res as nat == le_field(bytes@, at as int, n as int),
{
    read_le(bytes, at, n)
}

fn decode_entry(bytes: &[u8], start: usize, table_end: usize) -> (res: Result<SectionInfo, LbpError>)
    requires
        start + 64 <= table_end <= bytes@.len(),
    ensures
        match entry_result(bytes@, start as int, table_end as nat) {
            Ok(e) => res matches Ok(s) && s@ == e,
            Err(f) => res matches Err(e) && fault_of(e) == f,
        },
{
    proof {
        lemma_pow256_values();
        lemma_field_bounds(bytes@, start as int, 4);
        lemma_field_bounds(bytes@, start + 4, 4);
    }
    let code = entry_field(bytes, start, 4) as u32;
    let kind = match SectionKind::from_code(code) {
        Ok(k) => k,
        Err(e) => return Err(e),
    };
    let compression = entry_field(bytes, start + 4, 4) as u32;
    let offset = entry_field(bytes, start + 8, 8);
    let compressed_length = entry_field(bytes, start + 16, 8);
    let uncompressed_length = entry_field(bytes, start + 24, 8);
    if compression != COMPRESSION_NONE && compression != COMPRESSION_ZSTD {
        return Err(LbpError::UnsupportedCompression(compression));
    }
    if offset > u64::MAX - compressed_length {
        return Err(LbpError::NumericOverflow);
    }
    if offset + compressed_length > bytes.len() as u64 {
        return Err(LbpError::InvalidSection);
    }
    if offset < table_end as u64 {
        return Err(LbpError::InvalidSectionTable);
    }
    if uncompressed_length > MAX_SECTION_SIZE {
        return Err(LbpError::ResourceLimit);
    }
    let mut content_hash = [0u8; 32];
    let mut i: usize = 0;
    let blen = bytes.len();
    while i < 32
        invariant
            i <= 32,
            blen == bytes@.len(),
            start + 64 <= bytes@.len(),
            content_hash@.len() == 32,
            forall|j: int| 0 <= j < i ==> content_hash@[j] == bytes@[start + 32 + j],
        decreases 32 - i,
    {
        content_hash[i] = bytes[start + 32 + i];
        i = i + 1;
    }
    assert(content_hash@ =~= bytes@.subrange(start + 32, start + 64));
    Ok(SectionInfo { kind, compression, offset, compressed_length, uncompressed_length, content_hash })
}

proof fn lemma_entries_err(b: Seq<u8>, off: nat, end: nat, i: nat, n: nat)
    requires
        i <= n,
        entries_result(b, off, end, i) is Err,
    ensures
        entries_result(b, off, end, n) == entries_result(b, off, end, i),
    decreases n - i,
{
    if i < n {
        lemma_entries_err(b, off, end, i, (n - 1) as nat);
    }
}

fn decode_entries(bytes: &[u8], table_offset: usize, table_end: usize, count: usize) -> (res: Result<
    Vec<SectionInfo>,
    LbpError,
>)
    requires
        table_offset + count * 64 == table_end <= bytes@.len(),
    ensures
        match entries_result(bytes@, table_offset as nat, table_end as nat, count as nat) {
            Ok(v) => res matches Ok(s) && sections_view(s@) == v,
            Err(f) => res matches Err(e) && fault_of(e) == f,
        },
{
    let mut sections: Vec<SectionInfo> = Vec::new();
    let mut index: usize = 0;
    assert(sections_view(sections@) =~= Seq::<SectionView>::empty());
    while index < count
        invariant
            table_offset + count * 64 == table_end <= bytes@.len(),
            index <= count,
            entries_result(bytes@, table_offset as nat, table_end as nat, index as nat) == Ok::<
                Seq<SectionView>,
                LbpFault,
            >(sections_view(sections@)),
        decreases count - index,
    {
        proof {
            assert(table_offset + index * 64 + 64 <= table_offset + count * 64) by (nonlinear_arith)
                requires
                    index < count,
            ;
        }
        let start = table_offset + index * SECTION_ENTRY_SIZE;
        match decode_entry(bytes, start, table_end) {
            Ok(s) => {
                let ghost before = sections_view(sections@);
                sections.push(s);
                proof {
                    assert(sections_view(sections@) =~= before.push(s@));
                }
            },
            Err(e) => {
                proof {
                    lemma_entries_err(bytes@, table_offset as nat, table_end as nat, (index + 1) as nat, count as nat);
                }
                return Err(e);
            },
        }
        index = index + 1;
    }
    Ok(sections)
}

fn section_range_le(a: &SectionInfo, b: &SectionInfo) -> (res: bool)
    requires
        a.offset + a.compressed_length <= u64::MAX,
        b.offset + b.compressed_length <= u64::MAX,
    ensures
        res == range_le(a@, b@),
{
    a.offset < b.offset || (a.offset == b.offset && a.offset + a.compressed_length <= b.offset
        + b.compressed_length)
}

/// Whether any two entries overlap (pairwise over the sorted order).
fn any_overlap(v: &Vec<SectionInfo>) -> (res: bool)
    requires
        forall|i: int| 0 <= i < v@.len() ==> v@[i].offset + v@[i].compressed_length <= u64::MAX,
    ensures
        res == ranges_overlap(sections_view(v@)),
{
    let ghost sv = sections_view(v@);
    let mut i: usize = 0;
    while i < v.len()
        invariant
            i <= v@.len(),
            sv == sections_view(v@),
            forall|p: int| 0 <= p < v@.len() ==> v@[p].offset + v@[p].compressed_length <= u64::MAX,
            forall|p: int, q: int|
                0 <= p < i && 0 <= q < v@.len() && p != q && range_le(sv[p], sv[q])
                    ==> section_end(sv[p]) <= sv[q].offset,
        decreases v@.len() - i,
    {
        let mut j: usize = 0;
        while j < v.len()
            invariant
                i < v@.len(),
                j <= v@.len(),
                sv == sections_view(v@),
                forall|p: int| 0 <= p < v@.len() ==> v@[p].offset + v@[p].compressed_length <= u64::MAX,
                forall|p: int, q: int|
                    0 <= p < i && 0 <= q < v@.len() && p != q && range_le(sv[p], sv[q])
                        ==> section_end(sv[p]) <= sv[q].offset,
                forall|q: int|
                    0 <= q < j && i != q && range_le(sv[i as int], sv[q]) ==> section_end(sv[i as int])
                        <= sv[q].offset,
            decreases v@.len() - j,
        {
            if i != j && section_range_le(&v[i], &v[j]) && v[i].offset + v[i].compressed_length
                > v[j].offset {
                proof {
                    assert(sv[i as int] == v@[i as int]@);
                    assert(sv[j as int] == v@[j as int]@);
                }
                return true;
            }
            proof {
                assert(sv[i as int] == v@[i as int]@);
                assert(sv[j as int] == v@[j as int]@);
            }
            j = j + 1;
        }
        i = i + 1;
    }
    false
}

fn count_of_kind(v: &Vec<SectionInfo>, k: SectionKind) -> (res: usize)
    ensures
        res as nat == count_kind(sections_view(v@), k),
{
    let mut n: usize = 0;
    let mut i: usize = 0;
    while i < v.len()
        invariant
            i <= v@.len(),
            n <= i,
            n as nat == count_kind(sections_view(v@.subrange(0, i as int)), k),
        decreases v@.len() - i,
    {
        proof {
            assert(sections_view(v@.subrange(0, i + 1)).drop_last() =~= sections_view(
                v@.subrange(0, i as int),
            ));
        }
        if v[i].kind == k {
            n = n + 1;
        }
        i = i + 1;
    }
    proof {
        assert(v@.subrange(0, v@.len() as int) =~= v@);
    }
    n
}

/// Validates the overall table shape (see `table_shape_ok`).
fn check_table_shape(v: &Vec<SectionInfo>) -> (res: Result<(), LbpError>)
    requires
        forall|i: int| 0 <= i < v@.len() ==> v@[i].offset + v@[i].compressed_length <= u64::MAX,
    ensures
        res is Ok <==> table_shape_ok(sections_view(v@)),
        res matches Err(e) ==> e == LbpError::InvalidSectionTable,
{
    if any_overlap(v) {
        return Err(LbpError::InvalidSectionTable);
    }
    if count_of_kind(v, SectionKind::Manifest) != 1 || count_of_kind(v, SectionKind::Payload) != 1
        || count_of_kind(v, SectionKind::Resources) > 1 || count_of_kind(v, SectionKind::Signature)
        > 1 {
        return Err(LbpError::InvalidSectionTable);
    }
    Ok(())
}

proof fn lemma_first_of_kind(v: Seq<SectionView>, k: SectionKind, i: int)
    requires
        0 <= i <= v.len(),
        forall|j: int| 0 <= j < i ==> v[j].kind != k,
    ensures
        first_of_kind(v, k) >= i,
        i < v.len() && v[i].kind == k ==> first_of_kind(v, k) == i,
        first_of_kind(v, k) <= v.len(),
    decreases v.len(),
{
    if v.len() > 0 && v[0].kind != k {
        assert forall|j: int| 0 <= j < i - 1 implies v.drop_first()[j].kind != k by {
            assert(v.drop_first()[j] == v[j + 1]);
        }
        if i > 0 {
            lemma_first_of_kind(v.drop_first(), k, i - 1);
        } else {
            lemma_first_of_kind(v.drop_first(), k, 0);
        }
    }
}

/// Index of the first section of kind `k` (`v.len()` when there is none).
pub fn find_section(v: &Vec<SectionInfo>, k: SectionKind) -> (res: usize)
    ensures
        res as int == first_of_kind(sections_view(v@), k),
        res <= v@.len(),
        res < v@.len() ==> v@[res as int].kind == k,
{
    let ghost sv = sections_view(v@);
    let mut i: usize = 0;
    while i < v.len()
        invariant
            i <= v@.len(),
            sv == sections_view(v@),
            forall|j: int| 0 <= j < i ==> sv[j].kind != k,
        decreases v@.len() - i,
    {
        if v[i].kind == k {
            proof {
                lemma_first_of_kind(sv, k, i as int);
            }
            return i;
        }
        i = i + 1;
    }
    proof {
        lemma_first_of_kind(sv, k, i as int);
    }
    i
}


// ---------------------------------------------------------------------------
// Section data
// ---------------------------------------------------------------------------

/// Length checks on decoded section data.
pub open spec fn checked_content(d: Seq<u8>, s: SectionView) -> Result<Seq<u8>, LbpFault> {
    if d.len() != s.uncompressed_length {
        Err(LbpFault::InvalidSection)
    } else if d.len() > MAX_SECTION_SIZE {
        Err(LbpFault::ResourceLimit)
    } else {
        Ok(d)
    }
}

/// The stored bytes of a section.
pub open spec fn stored_bytes(b: Seq<u8>, s: SectionView) -> Seq<u8> {
    b.subrange(s.offset as int, s.offset + s.compressed_length)
}

/// The decoded content of section `s` of image `b`.
pub open spec fn decode_result(b: Seq<u8>, s: SectionView) -> Result<Seq<u8>, LbpFault> {
    if s.offset > usize::MAX || s.compressed_length > usize::MAX || s.offset + s.compressed_length
        > usize::MAX {
        Err(LbpFault::NumericOverflow)
    } else if s.offset + s.compressed_length > b.len() {
        Err(LbpFault::InvalidSection)
    } else if blake3_digest(stored_bytes(b, s)) != s.content_hash {
        Err(LbpFault::HashMismatch)
    } else if s.compression == 0 {
        checked_content(stored_bytes(b, s), s)
    } else if s.compression == 1 {
        match zstd_decoded(stored_bytes(b, s)) {
            None => Err(LbpFault::PayloadFormat),
            Some(d) => checked_content(d, s),
        }
    } else {
        Err(LbpFault::UnsupportedCompression(s.compression))
    }
}

/// Decodes (and verifies the digest of) one section of `bytes`.
pub fn decode_section(bytes: &[u8], section: &SectionInfo) -> (res: Result<Vec<u8>, LbpError>)
    ensures
        match decode_result(bytes@, section@) {
            Ok(d) => res matches Ok(v) && v@ == d,
            Err(f) => res matches Err(e) && fault_of(e) == f,
        },
{
    if section.offset > usize::MAX as u64 || section.compressed_length > usize::MAX as u64 {
        return Err(LbpError::NumericOverflow);
    }
    let start = section.offset as usize;
    let len = section.compressed_length as usize;
    if start > usize::MAX - len {
        return Err(LbpError::NumericOverflow);
    }
    let end = start + len;
    if end > bytes.len() {
        return Err(LbpError::InvalidSection);
    }
    let stored = &bytes[start..end];
    let digest = hash32(stored);
    if !bytes_eq(digest.as_slice(), section.content_hash.as_slice()) {
        return Err(LbpError::HashMismatch);
    }
    let decoded = if section.compression == COMPRESSION_NONE {
        vstd::slice::slice_to_vec(stored)
    } else if section.compression == COMPRESSION_ZSTD {
        match zstd_decode(stored) {
            Ok(v) => v,
            Err(message) => return Err(LbpError::PayloadFormat(message)),
        }
    } else {
        return Err(LbpError::UnsupportedCompression(section.compression));
    };
    if decoded.len() as u64 != section.uncompressed_length {
        return Err(LbpError::InvalidSection);
    }
    if decoded.len() as u64 > MAX_SECTION_SIZE {
        return Err(LbpError::ResourceLimit);
    }
    Ok(decoded)
}

/// What a well-formed container holds.
pub ghost struct ContainerView {
    pub sections: Seq<SectionView>,
    pub manifest: Seq<u8>,
    pub payload: Seq<u8>,
}

/// Structural decoding of a container image: header, table, table shape,
/// then the manifest and payload sections (in that order).
pub open spec fn container_result(b: Seq<u8>) -> Result<ContainerView, LbpFault> {
    match header_result(b) {
        Err(f) => Err(f),
        Ok(h) => match entries_result(b, h.table_offset, h.table_end, h.count) {
            Err(f) => Err(f),
            Ok(v) => if !table_shape_ok(v) {
                Err(LbpFault::InvalidSectionTable)
            } else {
                match decode_result(b, v[first_of_kind(v, SectionKind::Manifest)]) {
                    Err(f) => Err(f),
                    Ok(m) => match decode_result(b, v[first_of_kind(v, SectionKind::Payload)]) {
                        Err(f) => Err(f),
                        Ok(p) => Ok(ContainerView { sections: v, manifest: m, payload: p }),
                    },
                }
            },
        },
    }
}

/// The sections and the decoded manifest and payload of a container.
pub struct DecodedContainer {
    pub sections: Vec<SectionInfo>,
    pub manifest: Vec<u8>,
    pub payload: Vec<u8>,
}

proof fn lemma_count_pos_has(v: Seq<SectionView>, k: SectionKind)
    requires
        count_kind(v, k) >= 1,
    ensures
        0 <= first_of_kind(v, k) < v.len(),
        v[first_of_kind(v, k)].kind == k,
    decreases v.len(),
{
    if v.len() == 0 {
        assert(count_kind(v, k) == 0);
    }
    assert(v.len() > 0);
    if v[0].kind != k {
        assert(count_kind(v, k) == count_kind(v.drop_first(), k)) by {
            lemma_count_front(v, k);
        }
        lemma_count_pos_has(v.drop_first(), k);
        let f = first_of_kind(v.drop_first(), k);
        assert(0 <= f < v.drop_first().len());
        assert(v.drop_first().len() == v.len() - 1);
        assert(first_of_kind(v, k) == 1 + f);
        assert(v.drop_first()[f] == v[1 + f]);
    }
}

proof fn lemma_count_front(v: Seq<SectionView>, k: SectionKind)
    requires
        v.len() > 0,
    ensures
        count_kind(v, k) == count_kind(v.drop_first(), k) + if v[0].kind == k {
            1nat
        } else {
            0nat
        },
    decreases v.len(),
{
    if v.len() > 1 {
        lemma_count_front(v.drop_last(), k);
        assert(v.drop_last().drop_first() =~= v.drop_first().drop_last());
        assert(v.drop_first().last() == v.last());
        assert(v.drop_last()[0] == v[0]);
    } else {
        assert(v.drop_first().len() == 0);
        assert(v.drop_last().len() == 0);
        assert(v.last() == v[0]);
        assert(count_kind(v.drop_last(), k) == 0);
        assert(count_kind(v.drop_first(), k) == 0);
    }
}

proof fn lemma_entries_bounded(b: Seq<u8>, off: nat, end: nat, n: nat)
    requires
        entries_result(b, off, end, n) is Ok,
    ensures
        forall|i: int|
            0 <= i < entries_result(b, off, end, n)->Ok_0.len() ==> #[trigger] section_end(
                entries_result(b, off, end, n)->Ok_0[i],
            ) <= u64::MAX,
        entries_result(b, off, end, n)->Ok_0.len() == n,
    decreases n,
{
    if n > 0 {
        lemma_entries_bounded(b, off, end, (n - 1) as nat);
        let prev = entries_result(b, off, end, (n - 1) as nat)->Ok_0;
        assert forall|i: int|
            0 <= i < entries_result(b, off, end, n)->Ok_0.len() implies #[trigger] section_end(
            entries_result(b, off, end, n)->Ok_0[i],
        ) <= u64::MAX by {
            if i < prev.len() {
                assert(entries_result(b, off, end, n)->Ok_0[i] == prev[i]);
            }
        }
    }
}

/// Structural decoding of a container (see `container_result`).
pub fn decode_container(bytes: &[u8]) -> (res: Result<DecodedContainer, LbpError>)
    ensures
        match container_result(bytes@) {
            Ok(c) => res matches Ok(d) && sections_view(d.sections@) == c.sections && d.manifest@
                == c.manifest && d.payload@ == c.payload,
            Err(f) => res matches Err(e) && fault_of(e) == f,
        },
{
    let (count, table_offset, table_end) = match decode_header(bytes) {
        Ok(h) => h,
        Err(e) => return Err(e),
    };
    let sections = match decode_entries(bytes, table_offset, table_end, count) {
        Ok(v) => v,
        Err(e) => return Err(e),
    };
    proof {
        lemma_entries_bounded(bytes@, table_offset as nat, table_end as nat, count as nat);
        let ev = entries_result(bytes@, table_offset as nat, table_end as nat, count as nat)->Ok_0;
        assert(ev == sections_view(sections@));
        assert forall|i: int| 0 <= i < sections@.len() implies sections@[i].offset
            + sections@[i].compressed_length <= u64::MAX by {
            assert(section_end(ev[i]) <= u64::MAX);
            assert(ev[i] == sections@[i]@);
        }
    }
    match check_table_shape(&sections) {
        Ok(()) => {},
        Err(e) => return Err(e),
    }
    let ghost sv = sections_view(sections@);
    proof {
        lemma_count_pos_has(sv, SectionKind::Manifest);
        lemma_count_pos_has(sv, SectionKind::Payload);
    }
    let mi = find_section(&sections, SectionKind::Manifest);
    let pi = find_section(&sections, SectionKind::Payload);
    proof {
        assert(sv[mi as int] == sections@[mi as int]@);
        assert(sv[pi as int] == sections@[pi as int]@);
    }
    let manifest = match decode_section(bytes, &sections[mi]) {
        Ok(m) => m,
        Err(e) => return Err(e),
    };
    let payload = match decode_section(bytes, &sections[pi]) {
        Ok(p) => p,
        Err(e) => return Err(e),
    };
    Ok(DecodedContainer { sections, manifest, payload })
}


// ---------------------------------------------------------------------------
// Payload
// ---------------------------------------------------------------------------

/// Check of the `i`-th listed payload entry against the earlier ones.
pub open spec fn payload_entry_check(l: Seq<(Seq<u8>, u8)>, i: int) -> Result<(), LbpFault> {
    if has_unsafe_relative_part(l[i].0) {
        Err(LbpFault::PayloadPath)
    } else if exists|j: int| 0 <= j < i && path_parts(l[j].0) == path_parts(l[i].0) {
        Err(LbpFault::DuplicatePayloadPath)
    } else if l[i].1 != TAR_REGULAR && l[i].1 != TAR_DIRECTORY {
        Err(LbpFault::UnsupportedEntry)
    } else {
        Ok(())
    }
}

/// The first failing check among the first `n` entries.
pub open spec fn payload_entries_check(l: Seq<(Seq<u8>, u8)>, n: nat) -> Result<(), LbpFault>
    decreases n,
{
    if n == 0 {
        Ok(())
    } else {
        match payload_entries_check(l, (n - 1) as nat) {
            Err(f) => Err(f),
            Ok(()) => payload_entry_check(l, n - 1),
        }
    }
}

/// A payload archive is accepted when every entry has a safe relative path,
/// no path repeats (component-wise), every entry is a regular file or a
/// directory, and the whole archive reads without error.
pub open spec fn payload_result(listing: (Seq<(Seq<u8>, u8)>, bool)) -> Result<(), LbpFault> {
    match payload_entries_check(listing.0, listing.0.len()) {
        Err(f) => Err(f),
        Ok(()) => if listing.1 {
            Err(LbpFault::PayloadFormat)
        } else {
            Ok(())
        },
    }
}

proof fn lemma_payload_entries_err(l: Seq<(Seq<u8>, u8)>, i: nat, n: nat)
    requires
        i <= n,
        payload_entries_check(l, i) is Err,
    ensures
        payload_entries_check(l, n) == payload_entries_check(l, i),
    decreases n - i,
{
    if i < n {
        lemma_payload_entries_err(l, i, (n - 1) as nat);
    }
}

/// Validates the entries of a payload archive (see `payload_result`).
pub fn validate_payload(bytes: &[u8]) -> (res: Result<(), LbpError>)
    ensures
        match payload_result(tar_listing(bytes@)) {
            Ok(()) => res is Ok,
            Err(f) => res matches Err(e) && fault_of(e) == f,
        },
{
    let (entries, failure) = list_tar(bytes);
    let ghost l = tar_listing(bytes@).0;
    let mut seen: Vec<Vec<ExecPart>> = Vec::new();
    let mut i: usize = 0;
    while i < entries.len()
        invariant
            l == tar_entries_view(entries@),
            l == tar_listing(bytes@).0,
            i <= entries@.len(),
            seen@.len() == i,
            forall|j: int| 0 <= j < i ==> #[trigger] seen@[j].deep_view() == path_parts(l[j].0),
            payload_entries_check(l, i as nat) is Ok,
        decreases entries@.len() - i,
    {
        let entry = &entries[i];
        assert(l[i as int] == (entry.path@, entry.type_byte));
        let parts = path_parts_of(entry.path.as_slice());
        if parts_have_unsafe(&parts) {
            proof {
                let w = choose|w: int|
                    0 <= w < parts.deep_view().len() && (parts.deep_view()[w] == PathPart::CurDir
                        || parts.deep_view()[w] == PathPart::ParentDir || parts.deep_view()[w]
                        == PathPart::RootDir);
                assert(path_parts(l[i as int].0)[w] == parts.deep_view()[w]);
                assert(has_unsafe_relative_part(l[i as int].0));
                assert(payload_entries_check(l, (i + 1) as nat) == Err::<(), LbpFault>(LbpFault::PayloadPath));
                lemma_payload_entries_err(l, (i + 1) as nat, l.len());
                assert(payload_result(tar_listing(bytes@)) == Err::<(), LbpFault>(LbpFault::PayloadPath));
            }
            return Err(LbpError::PayloadPath(entry.path.clone()));
        }
        assert(!has_unsafe_relative_part(l[i as int].0));
        let mut j: usize = 0;
        while j < i
            invariant
                l == tar_entries_view(entries@),
                l == tar_listing(bytes@).0,
                i < entries@.len(),
                j <= i,
                seen@.len() == i,
                parts.deep_view() == path_parts(l[i as int].0),
                !has_unsafe_relative_part(l[i as int].0),
                payload_entries_check(l, i as nat) is Ok,
                forall|k: int| 0 <= k < i ==> #[trigger] seen@[k].deep_view() == path_parts(l[k].0),
                forall|k: int| 0 <= k < j ==> path_parts(l[k].0) != path_parts(l[i as int].0),
            decreases i - j,
        {
            if parts_eq(&seen[j], &parts) {
                proof {
                    assert(seen@[j as int].deep_view() == path_parts(l[j as int].0));
                    assert(path_parts(l[j as int].0) == path_parts(l[i as int].0));
                    assert(payload_entries_check(l, (i + 1) as nat) == Err::<(), LbpFault>(
                        LbpFault::DuplicatePayloadPath,
                    ));
                    lemma_payload_entries_err(l, (i + 1) as nat, l.len());
                    assert(payload_result(tar_listing(bytes@)) == Err::<(), LbpFault>(LbpFault::DuplicatePayloadPath));
                }
                return Err(LbpError::DuplicatePayloadPath(entry.path.clone()));
            }
            assert(seen@[j as int].deep_view() == path_parts(l[j as int].0));
            j = j + 1;
        }
        if entry.type_byte != TAR_REGULAR && entry.type_byte != TAR_DIRECTORY {
            proof {
                assert(payload_entries_check(l, (i + 1) as nat) == Err::<(), LbpFault>(
                    LbpFault::UnsupportedEntry,
                ));
                lemma_payload_entries_err(l, (i + 1) as nat, l.len());
                assert(payload_result(tar_listing(bytes@)) == Err::<(), LbpFault>(LbpFault::UnsupportedEntry));
            }
            return Err(LbpError::UnsupportedEntry(entry.path.clone()));
        }
        assert(payload_entry_check(l, i as int) is Ok);
        seen.push(parts);
        i = i + 1;
    }
    match failure {
        Some(message) => Err(LbpError::PayloadFormat(message)),
        None => Ok(()),
    }
}

/// Some listed entry has exactly the components of `p`.
pub open spec fn listed_exact(l: Seq<(Seq<u8>, u8)>, p: Seq<u8>) -> bool {
    exists|j: int| 0 <= j < l.len() && path_parts(l[j].0) == path_parts(p)
}

/// Some listed entry lies at or below `p` (component-wise).
pub open spec fn listed_under(l: Seq<(Seq<u8>, u8)>, p: Seq<u8>) -> bool {
    exists|j: int| 0 <= j < l.len() && parts_prefix(path_parts(p), path_parts(l[j].0))
}

/// The files the manifest names are present in the payload: the entry
/// executable exactly, every non-dependency mapping source as an entry or
/// as the ancestor of one.
pub open spec fn manifest_payload_result(m: &LbpManifest, listing: (Seq<(Seq<u8>, u8)>, bool)) -> Result<(), LbpFault> {
    let l = listing.0;
    if listing.1 {
        Err(LbpFault::PayloadFormat)
    } else if m.entry matches Some(e) && !listed_exact(l, vstd::utf8::encode_utf8(e.executable@)) {
        Err(LbpFault::MissingPayloadFile)
    } else if exists|i: int|
        0 <= i < m.mappings@.len() && !is_dep_source(m.mappings@[i].source@) && !listed_under(
            l,
            vstd::utf8::encode_utf8(m.mappings@[i].source@),
        ) {
        Err(LbpFault::MissingPayloadFile)
    } else {
        Ok(())
    }
}

fn any_listed(all: &Vec<Vec<ExecPart>>, target: &Vec<ExecPart>, prefix: bool) -> (res: bool)
    ensures
        res == exists|j: int|
            0 <= j < all@.len() && (if prefix {
                parts_prefix(target.deep_view(), all@[j].deep_view())
            } else {
                all@[j].deep_view() == target.deep_view()
            }),
{
    let mut j: usize = 0;
    while j < all.len()
        invariant
            j <= all@.len(),
            forall|k: int|
                0 <= k < j ==> !(if prefix {
                    parts_prefix(target.deep_view(), all@[k].deep_view())
                } else {
                    all@[k].deep_view() == target.deep_view()
                }),
        decreases all@.len() - j,
    {
        let hit = if prefix {
            parts_starts_with(&all[j], target)
        } else {
            parts_eq(&all[j], target)
        };
        if hit {
            return true;
        }
        j = j + 1;
    }
    false
}

/// Checks that the files the manifest names are in the payload (see
/// `manifest_payload_result`).
pub fn validate_manifest_payload(manifest: &LbpManifest, payload: &[u8]) -> (res: Result<(), LbpError>)
    ensures
        match manifest_payload_result(manifest, tar_listing(payload@)) {
            Ok(()) => res is Ok,
            Err(f) => res matches Err(e) && fault_of(e) == f,
        },
{
    let (entries, failure) = list_tar(payload);
    let ghost l = tar_listing(payload@).0;
    match failure {
        Some(message) => return Err(LbpError::PayloadFormat(message)),
        None => {},
    }
    let mut all: Vec<Vec<ExecPart>> = Vec::new();
    let mut i: usize = 0;
    while i < entries.len()
        invariant
            l == tar_entries_view(entries@),
            i <= entries@.len(),
            all@.len() == i,
            forall|j: int| 0 <= j < i ==> #[trigger] all@[j].deep_view() == path_parts(l[j].0),
        decreases entries@.len() - i,
    {
        assert(l[i as int].0 == entries@[i as int].path@);
        let parts = path_parts_of(entries[i].path.as_slice());
        all.push(parts);
        i = i + 1;
    }
    assert(all@.len() == l.len());
    match &manifest.entry {
        Some(entry) => {
            let target = path_parts_of(entry.executable.as_str().as_bytes());
            if !any_listed(&all, &target, false) {
                proof {
                    assert forall|j: int| 0 <= j < l.len() implies path_parts(l[j].0) != path_parts(
                        vstd::utf8::encode_utf8(entry.executable@),
                    ) by {
                        assert(all@[j].deep_view() == path_parts(l[j].0));
                    }
                }
                return Err(LbpError::MissingPayloadFile(entry.executable.clone()));
            }
            proof {
                let j = choose|j: int| 0 <= j < all@.len() && all@[j].deep_view() == target.deep_view();
                assert(all@[j].deep_view() == path_parts(l[j].0));
            }
        },
        None => {},
    }
    let dep = chars_of("@dep:");
    proof {
        reveal_strlit("@dep:");
        assert(dep@ =~= crate::manifest::dep_prefix());
    }
    let mut k: usize = 0;
    while k < manifest.mappings.len()
        invariant
            l == tar_entries_view(entries@),
            l == tar_listing(payload@).0,
            !tar_listing(payload@).1,
            all@.len() == l.len(),
            forall|j: int| 0 <= j < l.len() ==> #[trigger] all@[j].deep_view() == path_parts(l[j].0),
            dep@ == crate::manifest::dep_prefix(),
            k <= manifest.mappings@.len(),
            forall|i: int|
                0 <= i < k ==> is_dep_source(manifest.mappings@[i].source@) || listed_under(
                    l,
                    vstd::utf8::encode_utf8(manifest.mappings@[i].source@),
                ),
        decreases manifest.mappings@.len() - k,
    {
        let mapping = &manifest.mappings[k];
        let source = chars_of(mapping.source.as_str());
        if !has_prefix_at(source.as_slice(), 0, dep.as_slice()) {
            let target = path_parts_of(mapping.source.as_str().as_bytes());
            if !any_listed(&all, &target, true) {
                proof {
                    assert forall|j: int| 0 <= j < l.len() implies !parts_prefix(
                        path_parts(vstd::utf8::encode_utf8(mapping.source@)),
                        path_parts(l[j].0),
                    ) by {
                        assert(all@[j].deep_view() == path_parts(l[j].0));
                    }
                    assert(!listed_under(l, vstd::utf8::encode_utf8(manifest.mappings@[k as int].source@)));
                    assert(source@ == manifest.mappings@[k as int].source@);
                    assert(!is_dep_source(manifest.mappings@[k as int].source@));
                }
                return Err(LbpError::MissingPayloadFile(mapping.source.clone()));
            }
            proof {
                let j = choose|j: int| 0 <= j < all@.len() && parts_prefix(target.deep_view(), all@[j].deep_view());
                assert(all@[j].deep_view() == path_parts(l[j].0));
            }
        }
        k = k + 1;
    }
    Ok(())
}


// ---------------------------------------------------------------------------
// Archive
// ---------------------------------------------------------------------------

/// Acceptance of a container image together with the manifest parsed from
/// its manifest section: the structure is sound, the manifest section is
/// UTF-8, the manifest meets every rule, the payload archive is clean and
/// holds every file the manifest names.
pub open spec fn archive_result(b: Seq<u8>, m: &LbpManifest) -> Result<ContainerView, LbpFault> {
    match container_result(b) {
        Err(f) => Err(f),
        Ok(c) => if !vstd::utf8::valid_utf8(c.manifest) {
            Err(LbpFault::ManifestFormat)
        } else if m.format != 1 {
            Err(LbpFault::UnsupportedVersion(m.format))
        } else if !manifest_rules_ok(m) {
            Err(LbpFault::ManifestFormat)
        } else {
            match payload_result(tar_listing(c.payload)) {
                Err(f) => Err(f),
                Ok(()) => match manifest_payload_result(m, tar_listing(c.payload)) {
                    Err(f) => Err(f),
                    Ok(()) => Ok(c),
                },
            }
        },
    }
}

/// A validated LBP1 container.
pub struct LbpArchive {
    manifest: LbpManifest,
    sections: Vec<SectionInfo>,
    bytes: Vec<u8>,
}

impl LbpArchive {
    #[verifier::type_invariant]
    spec fn well_formed(&self) -> bool {
        container_result(self.bytes@) matches Ok(c) && c.sections == sections_view(self.sections@)
    }

    /// The container image.
    pub closed spec fn spec_bytes(&self) -> Seq<u8> {
        self.bytes@
    }

    /// The decoded section table.
    pub closed spec fn spec_sections(&self) -> Seq<SectionView> {
        sections_view(self.sections@)
    }

    /// The manifest the archive was accepted with.
    pub closed spec fn spec_manifest(&self) -> LbpManifest {
        self.manifest
    }

    /// Accepts a container image, given the manifest parsed from the text of
    /// its manifest section (see `archive_result`).
    pub fn from_bytes(bytes: Vec<u8>, manifest: LbpManifest) -> (res: Result<LbpArchive, LbpError>)
        ensures
            match archive_result(bytes@, &manifest) {
                Ok(c) => res matches Ok(a) && a.spec_bytes() == bytes@ && a.spec_manifest()
                    == manifest && a.spec_sections() == c.sections,
                Err(f) => res matches Err(e) && fault_of(e) == f,
            },
    {
        let decoded = match decode_container(bytes.as_slice()) {
            Ok(d) => d,
            Err(e) => return Err(e),
        };
        match utf8_to_string(decoded.manifest.as_slice()) {
            Some(_) => {},
            None => return Err(LbpError::ManifestFormat(String::from_str("manifest is not UTF-8"))),
        }
        match manifest.validate() {
            Ok(()) => {},
            Err(e) => return Err(e),
        }
        match validate_payload(decoded.payload.as_slice()) {
            Ok(()) => {},
            Err(e) => return Err(e),
        }
        match validate_manifest_payload(&manifest, decoded.payload.as_slice()) {
            Ok(()) => {},
            Err(e) => return Err(e),
        }
        Ok(LbpArchive { manifest, sections: decoded.sections, bytes })
    }

    /// The manifest the archive was accepted with.
    pub fn manifest(&self) -> (res: &LbpManifest)
        ensures
            *res == self.spec_manifest(),
    {
        &self.manifest
    }

    /// The section table.
    pub fn sections(&self) -> (res: &Vec<SectionInfo>)
        ensures
            sections_view(res@) == self.spec_sections(),
    {
        &self.sections
    }

    /// The decoded manifest section.
    pub fn manifest_bytes(&self) -> (res: Result<Vec<u8>, LbpError>)
        ensures
            container_result(self.spec_bytes()) matches Ok(c) && res matches Ok(v) && v@ == c.manifest,
    {
        proof {
            use_type_invariant(self);
        }
        let ghost sv = sections_view(self.sections@);
        proof {
            lemma_count_pos_has(sv, SectionKind::Manifest);
        }
        let i = find_section(&self.sections, SectionKind::Manifest);
        proof {
            assert(sv[i as int] == self.sections@[i as int]@);
        }
        decode_section(self.bytes.as_slice(), &self.sections[i])
    }

    /// The decoded payload section.
    pub fn payload_bytes(&self) -> (res: Result<Vec<u8>, LbpError>)
        ensures
            container_result(self.spec_bytes()) matches Ok(c) && res matches Ok(v) && v@ == c.payload,
    {
        proof {
            use_type_invariant(self);
        }
        let ghost sv = sections_view(self.sections@);
        proof {
            lemma_count_pos_has(sv, SectionKind::Payload);
        }
        let i = find_section(&self.sections, SectionKind::Payload);
        proof {
            assert(sv[i as int] == self.sections@[i as int]@);
        }
        decode_section(self.bytes.as_slice(), &self.sections[i])
    }

    /// The decoded content of the optional section of kind `kind`.
    fn optional_section(&self, kind: SectionKind) -> (res: Result<Option<Vec<u8>>, LbpError>)
        ensures
            optional_section_result(self.spec_bytes(), self.spec_sections(), kind) matches Ok(o)
                ==> (res matches Ok(r) && (match o {
                Some(d) => r matches Some(v) && v@ == d,
                None => r is None,
            })),
            optional_section_result(self.spec_bytes(), self.spec_sections(), kind) matches Err(f)
                ==> res matches Err(e) && fault_of(e) == f,
    {
        let ghost sv = sections_view(self.sections@);
        let i = find_section(&self.sections, kind);
        if i == self.sections.len() {
            return Ok(None);
        }
        proof {
            assert(sv[i as int] == self.sections@[i as int]@);
        }
        match decode_section(self.bytes.as_slice(), &self.sections[i]) {
            Ok(v) => Ok(Some(v)),
            Err(e) => Err(e),
        }
    }

    /// The decoded signature section, if the container has one.
    pub fn signature_bytes(&self) -> (res: Result<Option<Vec<u8>>, LbpError>)
        ensures
            optional_section_result(self.spec_bytes(), self.spec_sections(), SectionKind::Signature)
                matches Ok(o) ==> (res matches Ok(r) && (match o {
                Some(d) => r matches Some(v) && v@ == d,
                None => r is None,
            })),
            optional_section_result(self.spec_bytes(), self.spec_sections(), SectionKind::Signature)
                matches Err(f) ==> res matches Err(e) && fault_of(e) == f,
    {
        self.optional_section(SectionKind::Signature)
    }

    /// The content identity: the BLAKE3 digest of the rendered manifest
    /// text, the payload and the resources section (empty when absent), in
    /// that order.
    pub fn content_identity(&self, rendered_manifest: &str) -> (res: Result<[u8; 32], LbpError>)
        ensures
            container_result(self.spec_bytes()) matches Ok(c) && match optional_section_result(
                self.spec_bytes(),
                self.spec_sections(),
                SectionKind::Resources,
            ) {
                Ok(o) => res matches Ok(d) && d@ == blake3_digest(
                    vstd::utf8::encode_utf8(rendered_manifest@) + c.payload + match o {
                        Some(r) => r,
                        None => Seq::<u8>::empty(),
                    },
                ),
                Err(f) => res matches Err(e) && fault_of(e) == f,
            },
    {
        proof {
            use_type_invariant(self);
        }
        let payload = match self.payload_bytes() {
            Ok(p) => p,
            Err(e) => return Err(e),
        };
        let resources = match self.optional_section(SectionKind::Resources) {
            Ok(Some(r)) => r,
            Ok(None) => Vec::new(),
            Err(e) => return Err(e),
        };
        let mut joined: Vec<u8> = vstd::slice::slice_to_vec(rendered_manifest.as_bytes());
        let mut p = payload;
        let mut r = resources;
        let ghost a = joined@;
        let ghost pp = p@;
        let ghost rr = r@;
        joined.append(&mut p);
        joined.append(&mut r);
        assert(joined@ =~= a + pp + rr);
        Ok(hash32(joined.as_slice()))
    }
}

/// The decoded content of the first section of kind `kind` (`None` when
/// there is none).
pub open spec fn optional_section_result(b: Seq<u8>, v: Seq<SectionView>, kind: SectionKind) -> Result<Option<Seq<u8>>, LbpFault> {
    let i = first_of_kind(v, kind);
    if i >= v.len() {
        Ok(None)
    } else {
        match decode_result(b, v[i]) {
            Ok(d) => Ok(Some(d)),
            Err(f) => Err(f),
        }
    }
}


// ---------------------------------------------------------------------------
// Writing
// ---------------------------------------------------------------------------

/// The first 32 header bytes of a two-section container: magic `LBP1`,
/// version 1, no flags, two sections, table at offset 64 of length 128,
/// header length 64 (all little-endian).
pub open spec fn header_prefix() -> Seq<u8> {
    seq![
        76u8, 66u8, 80u8, 49u8, 1u8, 0u8, 0u8, 0u8, 2u8, 0u8, 0u8, 0u8, 64u8, 0u8, 0u8, 0u8,
        0u8, 0u8, 0u8, 0u8, 128u8, 0u8, 0u8, 0u8, 0u8, 0u8, 0u8, 0u8, 64u8, 0u8, 0u8, 0u8,
    ]
}

/// The 64 bytes of one section-table entry.
pub open spec fn entry_bytes(code: nat, compression: nat, offset: nat, clen: nat, ulen: nat, hash: Seq<u8>) -> Seq<u8> {
    le_encode(code, 4) + le_encode(compression, 4) + le_encode(offset, 8) + le_encode(clen, 8)
        + le_encode(ulen, 8) + hash
}

pub open spec fn zero_digest_field() -> Seq<u8> {
    Seq::new(32, |i: int| 0u8)
}

/// The container image holding manifest `m` stored as is and the payload
/// stored as the zstd frame `z` of a `plen`-byte payload.
pub open spec fn container_image(m: Seq<u8>, z: Seq<u8>, plen: nat) -> Seq<u8> {
    header_prefix() + blake3_digest(header_prefix() + zero_digest_field()) + entry_bytes(
        1,
        0,
        192,
        m.len(),
        m.len(),
        blake3_digest(m),
    ) + entry_bytes(2, 1, 192 + m.len(), z.len(), plen, blake3_digest(z)) + m + z
}

proof fn lemma_entry_fields(b: Seq<u8>, s: int, code: nat, compression: nat, offset: nat, clen: nat, ulen: nat, hash: Seq<u8>)
    requires
        0 <= s,
        s + 64 <= b.len(),
        hash.len() == 32,
        b.subrange(s, s + 64) == entry_bytes(code, compression, offset, clen, ulen, hash),
        code < pow256(4),
        compression < pow256(4),
        offset < pow256(8),
        clen < pow256(8),
        ulen < pow256(8),
    ensures
        le_field(b, s, 4) == code,
        le_field(b, s + 4, 4) == compression,
        le_field(b, s + 8, 8) == offset,
        le_field(b, s + 16, 8) == clen,
        le_field(b, s + 24, 8) == ulen,
        b.subrange(s + 32, s + 64) == hash,
{
    lemma_le_encode_len(code, 4);
    lemma_le_encode_len(compression, 4);
    lemma_le_encode_len(offset, 8);
    lemma_le_encode_len(clen, 8);
    lemma_le_encode_len(ulen, 8);
    let e = b.subrange(s, s + 64);
    assert(b.subrange(s, s + 4) =~= e.subrange(0, 4));
    assert(e.subrange(0, 4) =~= le_encode(code, 4));
    lemma_le_field_of(b, s, code, 4);
    assert(b.subrange(s + 4, s + 8) =~= e.subrange(4, 8));
    assert(e.subrange(4, 8) =~= le_encode(compression, 4));
    lemma_le_field_of(b, s + 4, compression, 4);
    assert(b.subrange(s + 8, s + 16) =~= e.subrange(8, 16));
    assert(e.subrange(8, 16) =~= le_encode(offset, 8));
    lemma_le_field_of(b, s + 8, offset, 8);
    assert(b.subrange(s + 16, s + 24) =~= e.subrange(16, 24));
    assert(e.subrange(16, 24) =~= le_encode(clen, 8));
    lemma_le_field_of(b, s + 16, clen, 8);
    assert(b.subrange(s + 24, s + 32) =~= e.subrange(24, 32));
    assert(e.subrange(24, 32) =~= le_encode(ulen, 8));
    lemma_le_field_of(b, s + 24, ulen, 8);
    assert(b.subrange(s + 32, s + 64) =~= e.subrange(32, 64));
    assert(e.subrange(32, 64) =~= hash);
}

#[verifier::spinoff_prover]
#[verifier::rlimit(40)]
proof fn lemma_header_fields(b: Seq<u8>)
    requires
        b.len() >= 64,
        b.subrange(0, 32) == header_prefix(),
    ensures
        b.subrange(0, 4) == magic_seq(),
        le_field(b, 4, 2) == 1,
        le_field(b, 6, 2) == 0,
        le_field(b, 8, 4) == 2,
        le_field(b, 12, 8) == 64,
        le_field(b, 20, 8) == 128,
        le_field(b, 28, 4) == 64,
        normalized_header(b) == header_prefix() + zero_digest_field(),
{
    lemma_pow256_values();
    let h = header_prefix();
    assert forall|i: int| 0 <= i < 32 implies b[i] == h[i] by {
        assert(b.subrange(0, 32)[i] == b[i]);
    }
    assert(b.subrange(0, 4) =~= magic_seq());
    assert(le_encode(1, 2) =~= seq![1u8, 0u8]) by {
        reveal_with_fuel(le_encode, 9);
    }
    assert(b.subrange(4, 6) =~= seq![1u8, 0u8]);
    lemma_le_field_of(b, 4, 1, 2);
    assert(le_encode(0, 2) =~= seq![0u8, 0u8]) by {
        reveal_with_fuel(le_encode, 9);
    }
    assert(b.subrange(6, 8) =~= seq![0u8, 0u8]);
    lemma_le_field_of(b, 6, 0, 2);
    assert(le_encode(2, 4) =~= seq![2u8, 0u8, 0u8, 0u8]) by {
        reveal_with_fuel(le_encode, 9);
    }
    assert(b.subrange(8, 12) =~= seq![2u8, 0u8, 0u8, 0u8]);
    lemma_le_field_of(b, 8, 2, 4);
    assert(le_encode(64, 8) =~= seq![64u8, 0u8, 0u8, 0u8, 0u8, 0u8, 0u8, 0u8]) by {
        reveal_with_fuel(le_encode, 9);
    }
    assert(b.subrange(12, 20) =~= seq![64u8, 0u8, 0u8, 0u8, 0u8, 0u8, 0u8, 0u8]);
    lemma_le_field_of(b, 12, 64, 8);
    assert(le_encode(128, 8) =~= seq![128u8, 0u8, 0u8, 0u8, 0u8, 0u8, 0u8, 0u8]) by {
        reveal_with_fuel(le_encode, 9);
    }
    assert(b.subrange(20, 28) =~= seq![128u8, 0u8, 0u8, 0u8, 0u8, 0u8, 0u8, 0u8]);
    lemma_le_field_of(b, 20, 128, 8);
    assert(le_encode(64, 4) =~= seq![64u8, 0u8, 0u8, 0u8]) by {
        reveal_with_fuel(le_encode, 9);
    }
    assert(b.subrange(28, 32) =~= seq![64u8, 0u8, 0u8, 0u8]);
    lemma_le_field_of(b, 28, 64, 4);
    assert(normalized_header(b) =~= header_prefix() + zero_digest_field());
}

/// The layout of a two-section container image.
pub open spec fn image_layout(b: Seq<u8>, m: Seq<u8>, z: Seq<u8>, plen: nat) -> bool {
    &&& b.len() == 192 + m.len() + z.len()
    &&& b.subrange(0, 32) == header_prefix()
    &&& b.subrange(32, 64) == blake3_digest(header_prefix() + zero_digest_field())
    &&& b.subrange(64, 128) == entry_bytes(1, 0, 192, m.len(), m.len(), blake3_digest(m))
    &&& b.subrange(128, 192) == entry_bytes(2, 1, 192 + m.len(), z.len(), plen, blake3_digest(z))
    &&& b.subrange(192, 192 + m.len() as int) == m
    &&& b.subrange(192 + m.len() as int, b.len() as int) == z
}

proof fn lemma_image_layout(m: Seq<u8>, z: Seq<u8>, plen: nat)
    requires
        blake3_digest(m).len() == 32,
        blake3_digest(z).len() == 32,
        blake3_digest(header_prefix() + zero_digest_field()).len() == 32,
    ensures
        image_layout(container_image(m, z, plen), m, z, plen),
{
    let h = header_prefix();
    let hh = blake3_digest(h + zero_digest_field());
    let e0 = entry_bytes(1, 0, 192, m.len(), m.len(), blake3_digest(m));
    let e1 = entry_bytes(2, 1, 192 + m.len(), z.len(), plen, blake3_digest(z));
    lemma_le_encode_len(1, 4);
    lemma_le_encode_len(0, 4);
    lemma_le_encode_len(2, 4);
    lemma_le_encode_len(192, 8);
    lemma_le_encode_len(m.len(), 8);
    lemma_le_encode_len((192 + m.len()) as nat, 8);
    lemma_le_encode_len(z.len(), 8);
    lemma_le_encode_len(plen, 8);
    assert(e0.len() == 64);
    assert(e1.len() == 64);
    let b = container_image(m, z, plen);
    assert(b.subrange(0, 32) =~= h);
    assert(b.subrange(32, 64) =~= hh);
    assert(b.subrange(64, 128) =~= e0);
    assert(b.subrange(128, 192) =~= e1);
    assert(b.subrange(192, 192 + m.len() as int) =~= m);
    assert(b.subrange(192 + m.len() as int, b.len() as int) =~= z);
}

proof fn lemma_image_entries(b: Seq<u8>, m: Seq<u8>, z: Seq<u8>, plen: nat)
    requires
        image_layout(b, m, z, plen),
        m.len() <= MAX_SECTION_SIZE,
        plen <= MAX_SECTION_SIZE,
        blake3_digest(m).len() == 32,
        blake3_digest(z).len() == 32,
        192 + m.len() + z.len() <= usize::MAX,
    ensures
        header_result(b) == Ok::<HeaderView, LbpFault>(
            HeaderView { count: 2, table_offset: 64, table_end: 192 },
        ),
        entries_result(b, 64, 192, 2) == Ok::<Seq<SectionView>, LbpFault>(
            seq![image_manifest_view(m), image_payload_view(m, z, plen)],
        ),
{
    lemma_pow256_values();
    lemma_header_fields(b);
    lemma_entry_fields(b, 64, 1, 0, 192, m.len(), m.len(), blake3_digest(m));
    lemma_entry_fields(b, 128, 2, 1, (192 + m.len()) as nat, z.len(), plen, blake3_digest(z));
    assert(entry_result(b, 64, 192) == Ok::<SectionView, LbpFault>(image_manifest_view(m)));
    assert(entry_result(b, 128, 192) == Ok::<SectionView, LbpFault>(image_payload_view(m, z, plen)));
    assert(Seq::<SectionView>::empty().push(image_manifest_view(m)) =~= seq![image_manifest_view(m)]);
    assert(entries_result(b, 64, 192, 0) == Ok::<Seq<SectionView>, LbpFault>(Seq::empty()));
    assert(64 + (1 - 1) * 64 == 64);
    assert(64 + (2 - 1) * 64 == 128);
    assert(entries_result(b, 64, 192, 1) == Ok::<Seq<SectionView>, LbpFault>(
        seq![image_manifest_view(m)],
    ));
    assert(seq![image_manifest_view(m)].push(image_payload_view(m, z, plen)) =~= seq![
        image_manifest_view(m),
        image_payload_view(m, z, plen),
    ]);
}

pub open spec fn image_manifest_view(m: Seq<u8>) -> SectionView {
    SectionView {
        kind: SectionKind::Manifest,
        compression: 0,
        offset: 192,
        compressed_length: m.len() as u64,
        uncompressed_length: m.len() as u64,
        content_hash: blake3_digest(m),
    }
}

pub open spec fn image_payload_view(m: Seq<u8>, z: Seq<u8>, plen: nat) -> SectionView {
    SectionView {
        kind: SectionKind::Payload,
        compression: 1,
        offset: (192 + m.len()) as u64,
        compressed_length: z.len() as u64,
        uncompressed_length: plen as u64,
        content_hash: blake3_digest(z),
    }
}

proof fn lemma_image_table(v0: SectionView, v1: SectionView)
    requires
        v0.kind == SectionKind::Manifest,
        v1.kind == SectionKind::Payload,
        v0.offset + v0.compressed_length <= v1.offset,
    ensures
        table_shape_ok(seq![v0, v1]),
        first_of_kind(seq![v0, v1], SectionKind::Manifest) == 0,
        first_of_kind(seq![v0, v1], SectionKind::Payload) == 1,
{
    let v = seq![v0, v1];
    assert forall|i: int, j: int|
        0 <= i < v.len() && 0 <= j < v.len() && i != j && range_le(v[i], v[j]) implies section_end(
        v[i],
    ) <= v[j].offset by {}
    assert(v.drop_last() =~= seq![v0]);
    assert(seq![v0].drop_last() =~= Seq::<SectionView>::empty());
    assert(v.drop_first() =~= seq![v1]);
    assert(seq![v1].drop_first() =~= Seq::<SectionView>::empty());
    assert(count_kind(Seq::<SectionView>::empty(), SectionKind::Manifest) == 0);
    assert(count_kind(Seq::<SectionView>::empty(), SectionKind::Payload) == 0);
    assert(count_kind(Seq::<SectionView>::empty(), SectionKind::Resources) == 0);
    assert(count_kind(Seq::<SectionView>::empty(), SectionKind::Signature) == 0);
    assert(count_kind(seq![v0], SectionKind::Manifest) == 1);
    assert(count_kind(seq![v0], SectionKind::Payload) == 0);
    assert(count_kind(seq![v0], SectionKind::Resources) == 0);
    assert(count_kind(seq![v0], SectionKind::Signature) == 0);
    assert(count_kind(v, SectionKind::Manifest) == 1);
    assert(count_kind(v, SectionKind::Payload) == 1);
    assert(count_kind(v, SectionKind::Resources) == 0);
    assert(count_kind(v, SectionKind::Signature) == 0);
    assert(first_of_kind(seq![v1], SectionKind::Payload) == 0);
}

/// Round trip: a container image built from a manifest and the zstd frame
/// of a payload decodes to exactly that manifest and that payload, provided
/// both fit the section size limit and the image fits in memory.
pub proof fn lemma_container_image_decodes(m: Seq<u8>, p: Seq<u8>, z: Seq<u8>)
    requires
        m.len() <= MAX_SECTION_SIZE,
        p.len() <= MAX_SECTION_SIZE,
        zstd_decoded(z) == Some(p),
        192 + m.len() + z.len() <= usize::MAX,
        blake3_digest(m).len() == 32,
        blake3_digest(z).len() == 32,
        blake3_digest(header_prefix() + zero_digest_field()).len() == 32,
    ensures
        container_result(container_image(m, z, p.len())) matches Ok(c) && c.manifest == m
            && c.payload == p,
{
    let b = container_image(m, z, p.len());
    lemma_image_layout(m, z, p.len());
    lemma_image_entries(b, m, z, p.len());
    let v0 = image_manifest_view(m);
    let v1 = image_payload_view(m, z, p.len());
    lemma_image_table(v0, v1);
    assert(stored_bytes(b, v0) == m);
    assert(stored_bytes(b, v1) == z);
    assert(decode_result(b, v0) == Ok::<Seq<u8>, LbpFault>(m));
    assert(decode_result(b, v1) == Ok::<Seq<u8>, LbpFault>(p));
}

fn push_entry(out: &mut Vec<u8>, code: u32, compression: u32, offset: u64, clen: u64, ulen: u64, hash: &[u8; 32])
    ensures
        final(out)@ == old(out)@ + entry_bytes(code as nat, compression as nat, offset as nat, clen as nat, ulen as nat, hash@),
{
    push_le(out, code as u64, 4);
    push_le(out, compression as u64, 4);
    push_le(out, offset, 8);
    push_le(out, clen, 8);
    push_le(out, ulen, 8);
    let ghost before = out@;
    let mut i: usize = 0;
    while i < 32
        invariant
            i <= 32,
            hash@.len() == 32,
            out@ == before + hash@.subrange(0, i as int),
        decreases 32 - i,
    {
        out.push(hash[i]);
        assert(out@ =~= before + hash@.subrange(0, i + 1));
        i = i + 1;
    }
    assert(hash@.subrange(0, 32) =~= hash@);
    assert(out@ =~= old(out)@ + entry_bytes(code as nat, compression as nat, offset as nat, clen as nat, ulen as nat, hash@));
}

fn append_bytes(out: &mut Vec<u8>, data: &[u8])
    ensures
        final(out)@ == old(out)@ + data@,
{
    let ghost before = out@;
    let mut i: usize = 0;
    while i < data.len()
        invariant
            i <= data@.len(),
            out@ == before + data@.subrange(0, i as int),
            before == old(out)@,
        decreases data@.len() - i,
    {
        out.push(data[i]);
        assert(out@ =~= before + data@.subrange(0, i + 1));
        i = i + 1;
    }
    assert(data@.subrange(0, data@.len() as int) =~= data@);
}

/// Tampering with the header digest is refused: changing any byte of the
/// stored digest of an image whose header checks out makes the image fail
/// with `HashMismatch`.
pub proof fn lemma_header_digest_tamper_refused(b: Seq<u8>, i: int, x: u8)
    requires
        header_result(b) is Ok,
        32 <= i < 64,
        x != b[i],
    ensures
        container_result(b.update(i, x)) == Err::<ContainerView, LbpFault>(LbpFault::HashMismatch),
{
    let t = b.update(i, x);
    assert(t.subrange(0, 32) =~= b.subrange(0, 32));
    assert(t.subrange(4, 6) =~= b.subrange(4, 6));
    assert(t.subrange(6, 8) =~= b.subrange(6, 8));
    assert(t.subrange(8, 12) =~= b.subrange(8, 12));
    assert(t.subrange(12, 20) =~= b.subrange(12, 20));
    assert(t.subrange(20, 28) =~= b.subrange(20, 28));
    assert(t.subrange(28, 32) =~= b.subrange(28, 32));
    assert(le_field(t, 4, 2) == le_field(b, 4, 2));
    assert(le_field(t, 6, 2) == le_field(b, 6, 2));
    assert(le_field(t, 8, 4) == le_field(b, 8, 4));
    assert(le_field(t, 12, 8) == le_field(b, 12, 8));
    assert(le_field(t, 20, 8) == le_field(b, 20, 8));
    assert(le_field(t, 28, 4) == le_field(b, 28, 4));
    assert(t.subrange(0, 4) =~= b.subrange(0, 4));
    assert(normalized_header(t) =~= normalized_header(b));
    assert(t.subrange(32, 64)[i - 32] == x);
    assert(b.subrange(32, 64)[i - 32] == b[i]);
    assert(t.subrange(32, 64) != b.subrange(32, 64));
}

/// The image of `manifest` and the compressed `payload` fits in memory
/// (with the 192 bytes of header and section table).
pub open spec fn container_fits(manifest: Seq<u8>, payload: Seq<u8>) -> bool {
    manifest.len() + zstd_encoded(payload, 3).len() + 192 <= usize::MAX
}

/// Builds a container image from the manifest text and the payload
/// archive: the manifest is stored as is, the payload as a zstd frame
/// (level 3). The image decodes back to the same manifest and payload when
/// both fit the section size limit. Fails only when the image would not
/// fit in memory.
pub fn assemble_container(manifest: &[u8], payload: &[u8]) -> (res: Result<Vec<u8>, LbpError>)
    ensures
        res is Ok <==> container_fits(manifest@, payload@),
        match res {
            Ok(image) => image@ == container_image(manifest@, zstd_encoded(payload@, 3), payload@.len())
                && (manifest@.len() <= MAX_SECTION_SIZE && payload@.len() <= MAX_SECTION_SIZE
                ==> (container_result(image@) matches Ok(c) && c.manifest == manifest@ && c.payload
                == payload@)),
            Err(e) => e == LbpError::NumericOverflow,
        },
{
    let compressed = match zstd_encode(payload, 3) {
        Ok(z) => z,
        Err(message) => return Err(LbpError::PayloadFormat(message)),
    };
    if manifest.len() > usize::MAX - 192 || compressed.len() > usize::MAX - 192 - manifest.len() {
        return Err(LbpError::NumericOverflow);
    }
    let prefix: [u8; 32] = [
        76, 66, 80, 49, 1, 0, 0, 0, 2, 0, 0, 0, 64, 0, 0, 0, 0, 0, 0, 0, 128, 0, 0, 0, 0, 0, 0, 0,
        64, 0, 0, 0,
    ];
    let mut header: Vec<u8> = Vec::new();
    append_bytes(&mut header, prefix.as_slice());
    assert(header@ =~= header_prefix());
    let mut normalized = header.clone();
    let zeros = [0u8; 32];
    append_bytes(&mut normalized, zeros.as_slice());
    assert(normalized@ =~= header_prefix() + zero_digest_field());
    let header_hash = hash32(normalized.as_slice());
    let manifest_hash = hash32(manifest);
    let payload_hash = hash32(compressed.as_slice());
    let mut out = header;
    append_bytes(&mut out, header_hash.as_slice());
    let table_end: u64 = 192;
    push_entry(&mut out, 1, COMPRESSION_NONE, table_end, manifest.len() as u64, manifest.len() as u64, &manifest_hash);
    push_entry(&mut out, 2, COMPRESSION_ZSTD, table_end + manifest.len() as u64, compressed.len() as u64, payload.len() as u64, &payload_hash);
    append_bytes(&mut out, manifest);
    append_bytes(&mut out, compressed.as_slice());
    proof {
        assert(out@ =~= container_image(manifest@, compressed@, payload@.len()));
        assert(compressed@ == zstd_encoded(payload@, 3));
        if manifest@.len() <= MAX_SECTION_SIZE && payload@.len() <= MAX_SECTION_SIZE {
            lemma_container_image_decodes(manifest@, payload@, compressed@);
        }
    }
    Ok(out)
}

} // verus!
