//! Listing the entries of a tar archive held in memory.

use vstd::prelude::*;

verus! {

/// Type byte of a regular file entry (`EntryType::Regular`).
pub const TAR_REGULAR: u8 = 48;

/// Type byte of a directory entry (`EntryType::Directory`).
pub const TAR_DIRECTORY: u8 = 53;

/// One archive entry: its path bytes and its type byte.
#[derive(Clone, Debug)]
pub struct TarEntry {
    pub path: Vec<u8>,
    pub type_byte: u8,
}

pub open spec fn tar_entries_view(v: Seq<TarEntry>) -> Seq<(Seq<u8>, u8)> {
    Seq::new(v.len(), |i: int| (v[i].path@, v[i].type_byte))
}

/// The entries that reading `archive` front to back yields before the first
/// read error, and whether such an error ends the reading.
pub uninterp spec fn tar_listing(archive: Seq<u8>) -> (Seq<(Seq<u8>, u8)>, bool);

/// Reads the entries of an in-memory archive with `tar::Archive::entries`.
/// The contract claims that the entries read (path bytes from
/// `Entry::path_bytes`, type byte from `EntryType::as_byte`) and whether a
/// read error stopped the reading are a function of the archive bytes alone;
/// the error text is left unsaid.
#[verifier::external_body]
pub fn list_tar(archive: &[u8]) -> (res: (Vec<TarEntry>, Option<String>))
    ensures
        tar_entries_view(res.0@) == tar_listing(archive@).0,
        res.1 is Some == tar_listing(archive@).1,
{
    let mut out = Vec::new();
    let mut reader = tar::Archive::new(std::io::Cursor::new(archive));
    let entries = match reader.entries() {
        Ok(entries) => entries,
        Err(error) => return (out, Some(error.to_string())),
    };
    for entry in entries {
        match entry {
            Ok(e) => out.push(TarEntry { path: e.path_bytes().into_owned(), type_byte: e.header().entry_type().as_byte() }),
            Err(error) => return (out, Some(error.to_string())),
        }
    }
    (out, None)
}

} // verus!
