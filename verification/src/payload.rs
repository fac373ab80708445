//! The payload archive of a bundle: which sources a manifest names, the
//! order its files are packed in, and a deterministic tar archive of them.

use vstd::prelude::*;
use crate::lbp::{LbpError, assemble_container, archive_result, container_fits, container_image, container_result, manifest_payload_result, payload_result, MAX_SECTION_SIZE};
use crate::compress::zstd_encoded;
use crate::manifest::{LbpManifest, is_dep_source, manifest_rules_ok, validate_bundle_relative_path, bundle_relative_ok};
use crate::path::{ExecPart, PathPart, parts_eq, parts_less, parts_lt, lemma_parts_order, path_parts, path_parts_of, SLASH};
use crate::tarball::{tar_listing, TAR_REGULAR};
use crate::text::chars_of;

verus! {

/// A `tar::Builder` writing into memory. Verus does not take a declaration
/// of the builder type (its writer parameter is bounded by `std::io::Write`),
/// so it is held here, opaque.
#[verifier::external_body]
pub struct TarBuilder {
    inner: tar::Builder<Vec<u8>>,
}

/// One appended file: path bytes, contents, mode, owner and group ids,
/// time, owner and group names.
pub type TarRecord = (Seq<u8>, Seq<u8>, u32, u64, u64, u64, Seq<u8>, Seq<u8>);

/// The files appended to a builder so far, in order.
pub uninterp spec fn tar_builder_records(b: TarBuilder) -> Seq<TarRecord>;

/// The archive bytes a builder holding `records` finishes into.
pub uninterp spec fn tar_archive(records: Seq<TarRecord>) -> Seq<u8>;

/// What reading an archive back lists for `records`: each path, as a
/// regular file.
pub open spec fn records_listing(records: Seq<TarRecord>) -> Seq<(Seq<u8>, u8)> {
    Seq::new(records.len(), |i: int| (records[i].0, TAR_REGULAR))
}

/// `tar::Builder::new` over an empty `Vec`: no file yet.
#[verifier::external_body]
fn tar_builder_new() -> (b: TarBuilder)
    ensures
        tar_builder_records(b) == Seq::<TarRecord>::empty(),
{
    TarBuilder { inner: tar::Builder::new(Vec::new()) }
}

/// A relative path tar stores unchanged: non-empty, no NUL byte, no leading,
/// trailing or doubled `/`, and no `.` or `..` component.
pub open spec fn plain_relative(b: Seq<u8>) -> bool {
    &&& b.len() > 0
    &&& b[0] != SLASH
    &&& b[b.len() - 1] != SLASH
    &&& forall|i: int| 0 <= i < b.len() ==> plain_at(b, i)
}

pub open spec fn plain_at(b: Seq<u8>, i: int) -> bool {
    &&& b[i] != 0
    &&& (b[i] == SLASH && i + 1 < b.len() ==> b[i + 1] != SLASH)
    &&& ((i == 0 || b[i - 1] == SLASH) ==> !dot_piece_at(b, i))
}

/// A `.` or `..` component starts at `i`.
pub open spec fn dot_piece_at(b: Seq<u8>, i: int) -> bool {
    ||| b[i] == 46 && (i + 1 == b.len() || b[i + 1] == SLASH)
    ||| b[i] == 46 && i + 1 < b.len() && b[i + 1] == 46 && (i + 2 == b.len() || b[i + 2] == SLASH)
}

/// Appends a regular file with a GNU header (`Header::new_gnu`, then the
/// path, size, owner, mode, time and owner names set, the checksum, and
/// `Builder::append`). A plain relative path is stored as it is; it fits
/// exactly when it has at most 100 bytes (the header's name field), which
/// is then the only way the call fails. Owner names of at most 32 bytes
/// without NUL always fit.
#[verifier::external_body]
fn tar_append_regular(
    b: &mut TarBuilder,
    path: &str,
    data: &[u8],
    mode: u32,
    uid: u64,
    gid: u64,
    mtime: u64,
    user: &str,
    group: &str,
) -> (res: Result<(), String>)
    requires
        plain_relative(vstd::utf8::encode_utf8(path@)),
        vstd::utf8::encode_utf8(user@).len() <= 32 && !vstd::utf8::encode_utf8(user@).contains(0u8),
        vstd::utf8::encode_utf8(group@).len() <= 32 && !vstd::utf8::encode_utf8(group@).contains(0u8),
    ensures
        res is Ok <==> vstd::utf8::encode_utf8(path@).len() <= 100,
        res is Ok ==> tar_builder_records(*final(b)) == tar_builder_records(*old(b)).push(
            (vstd::utf8::encode_utf8(path@), data@, mode, uid, gid, mtime, vstd::utf8::encode_utf8(user@), vstd::utf8::encode_utf8(group@)),
        ),
        res is Err ==> tar_builder_records(*final(b)) == tar_builder_records(*old(b)),
{
    let mut h = tar::Header::new_gnu();
    h.set_path(path).map_err(|e| e.to_string())?;
    h.set_size(data.len() as u64);
    h.set_uid(uid);
    h.set_gid(gid);
    h.set_mtime(mtime);
    h.set_mode(mode);
    h.set_username(user).map_err(|e| e.to_string())?;
    h.set_groupname(group).map_err(|e| e.to_string())?;
    h.set_cksum();
    b.inner.append(&h, data).map_err(|e| e.to_string())
}

/// `Builder::into_inner`: writes the end-of-archive blocks into memory,
/// which does not fail, and hands back the bytes: the archive named for the
/// appended files. Reading them back (see [`tar_listing`]) yields the
/// appended paths in order, as regular files, and no error.
#[verifier::external_body]
fn tar_into_bytes(b: TarBuilder) -> (res: Result<Vec<u8>, String>)
    ensures
        res is Ok,
        res matches Ok(t) ==> t@ == tar_archive(tar_builder_records(b)),
        res matches Ok(t) ==> tar_listing(t@).0 == records_listing(tar_builder_records(b)) && !tar_listing(t@).1,
{
    b.inner.into_inner().map_err(|e| e.to_string())
}

/// Mode bits of an executable payload file.
pub const MODE_EXECUTABLE: u32 = 0o755;

/// Mode bits of any other payload file.
pub const MODE_REGULAR: u32 = 0o644;

/// One file to pack: its bundle-relative path, its contents, and whether
/// any execute bit was set on it.
pub struct PayloadFile {
    pub path: String,
    pub data: Vec<u8>,
    pub executable: bool,
}

/// The entries the payload archive lists: each file's path, as a regular
/// file, in the given order.
pub open spec fn payload_listing(files: Seq<PayloadFile>) -> Seq<(Seq<u8>, u8)> {
    Seq::new(files.len(), |i: int| (vstd::utf8::encode_utf8(files[i].path@), TAR_REGULAR))
}

/// Every file has a valid bundle-relative path that tar stores as it is,
/// of at most 100 bytes.
pub open spec fn payload_paths_fit(files: Seq<PayloadFile>) -> bool {
    forall|i: int| 0 <= i < files.len() ==> plain_relative(vstd::utf8::encode_utf8(#[trigger] files[i].path@))
        && vstd::utf8::encode_utf8(files[i].path@).len() <= 100 && bundle_relative_ok(files[i].path@)
}

fn is_plain_relative(b: &[u8]) -> (res: bool)
    ensures
        res == plain_relative(b@),
{
    let n = b.len();
    if n == 0 || b[0] == SLASH || b[n - 1] == SLASH {
        return false;
    }
    let mut i: usize = 0;
    while i < n
        invariant
            n == b@.len(),
            n > 0,
            i <= n,
            forall|j: int| 0 <= j < i ==> plain_at(b@, j),
        decreases n - i,
    {
        if b[i] == 0 {
            assert(!plain_at(b@, i as int));
            return false;
        }
        if b[i] == SLASH && i + 1 < n && b[i + 1] == SLASH {
            assert(!plain_at(b@, i as int));
            return false;
        }
        if i == 0 || b[i - 1] == SLASH {
            let single = b[i] == 46 && (i + 1 == n || b[i + 1] == SLASH);
            let double = b[i] == 46 && i + 1 < n && b[i + 1] == 46 && (i + 2 == n || b[i + 2] == SLASH);
            if single || double {
                assert(!plain_at(b@, i as int));
                return false;
            }
        }
        i = i + 1;
    }
    true
}

/// The mode bits a payload file is packed with.
pub open spec fn payload_mode(executable: bool) -> u32 {
    if executable {
        MODE_EXECUTABLE
    } else {
        MODE_REGULAR
    }
}

/// What is appended for each file: its path, contents and mode, owner 0:0
/// with empty owner names, time 0.
pub open spec fn payload_records(files: Seq<PayloadFile>) -> Seq<TarRecord> {
    Seq::new(
        files.len(),
        |i: int| (vstd::utf8::encode_utf8(files[i].path@), files[i].data@, payload_mode(files[i].executable), 0u64, 0u64, 0u64, Seq::<u8>::empty(), Seq::<u8>::empty()),
    )
}

/// The payload archive of `files` (see [`build_payload_tar`]).
pub open spec fn payload_archive(files: Seq<PayloadFile>) -> Seq<u8> {
    tar_archive(payload_records(files))
}

/// Packs the files, in the given order, into a tar archive that does not
/// depend on when or by whom it is built: owner 0:0 with empty owner
/// names, time 0, mode 755 for executables and 644 otherwise. A path that
/// is not a valid bundle-relative path gives the `ManifestFormat` error of
/// that check; one that tar would not store as it is (a doubled `/`), or
/// that does not fit a header's 100-byte name field, gives `PayloadFormat`.
/// Otherwise the archive is built, and what it lists is exactly the files,
/// in order.
pub fn build_payload_tar(files: &[PayloadFile]) -> (res: Result<Vec<u8>, LbpError>)
    ensures
        payload_paths_fit(files@) <==> res is Ok,
        res matches Ok(t) ==> t@ == payload_archive(files@),
        res matches Ok(t) ==> tar_listing(t@) == (payload_listing(files@), false),
        (exists|i: int| 0 <= i < files@.len() && !bundle_relative_ok(#[trigger] files@[i].path@)) ==> res is Err,
{
    let mut b = tar_builder_new();
    let mut i: usize = 0;
    while i < files.len()
        invariant
            i <= files@.len(),
            tar_builder_records(b) == payload_records(files@.subrange(0, i as int)),
            forall|j: int| 0 <= j < i ==> plain_relative(vstd::utf8::encode_utf8(#[trigger] files@[j].path@))
                && vstd::utf8::encode_utf8(files@[j].path@).len() <= 100 && bundle_relative_ok(files@[j].path@),
        decreases files@.len() - i,
    {
        let f = &files[i];
        match validate_bundle_relative_path(f.path.as_str()) {
            Ok(()) => {},
            Err(e) => return Err(e),
        }
        let bytes = f.path.as_str().as_bytes();
        if !is_plain_relative(bytes) {
            let mut message = String::from_str("unsupported payload path: ");
            message.append(f.path.as_str());
            return Err(LbpError::PayloadFormat(message));
        }
        proof {
            reveal_strlit("");
            assert(""@.len() == 0);
            assert(vstd::utf8::encode_utf8(""@) =~= Seq::<u8>::empty());
        }
        let mode = if f.executable {
            MODE_EXECUTABLE
        } else {
            MODE_REGULAR
        };
        let ghost before = files@.subrange(0, i as int);
        match tar_append_regular(&mut b, f.path.as_str(), f.data.as_slice(), mode, 0, 0, 0, "", "") {
            Ok(()) => {},
            Err(message) => return Err(LbpError::PayloadFormat(message)),
        }
        proof {
            assert(files@.subrange(0, i + 1) =~= before.push(files@[i as int]));
            assert(payload_records(files@.subrange(0, i + 1)) =~= payload_records(before).push(
                (vstd::utf8::encode_utf8(files@[i as int].path@), files@[i as int].data@, mode, 0u64, 0u64, 0u64, Seq::<u8>::empty(), Seq::<u8>::empty()),
            ));
        }
        i = i + 1;
    }
    assert(files@.subrange(0, files@.len() as int) =~= files@);
    assert(records_listing(payload_records(files@)) =~= payload_listing(files@));
    match tar_into_bytes(b) {
        Ok(t) => Ok(t),
        Err(message) => Err(LbpError::PayloadFormat(message)),
    }
}

/// The sources a manifest packs, before directories are walked: the entry
/// executable, then every mapping source that does not name a dependency
/// (`@dep:`), in manifest order.
pub open spec fn payload_roots_spec(m: &LbpManifest) -> Seq<Seq<char>> {
    (match m.entry {
        Some(e) => seq![e.executable@],
        None => Seq::empty(),
    }) + mapping_sources(m.mappings@, m.mappings@.len() as int)
}

/// The non-dependency sources among the first `n` mappings.
pub open spec fn mapping_sources(ms: Seq<crate::manifest::MappingDeclaration>, n: int) -> Seq<Seq<char>>
    decreases n,
{
    if n <= 0 {
        Seq::empty()
    } else if is_dep_source(ms[n - 1].source@) {
        mapping_sources(ms, n - 1)
    } else {
        mapping_sources(ms, n - 1).push(ms[n - 1].source@)
    }
}

pub open spec fn strings_view(v: Seq<String>) -> Seq<Seq<char>> {
    Seq::new(v.len(), |i: int| v[i]@)
}

/// The sources a manifest packs (see [`payload_roots_spec`]).
pub fn payload_roots(m: &LbpManifest) -> (res: Vec<String>)
    ensures
        strings_view(res@) == payload_roots_spec(m),
{
    let mut out: Vec<String> = Vec::new();
    match &m.entry {
        Some(e) => {
            out.push(e.executable.clone());
        },
        None => {},
    }
    let ghost head = strings_view(out@);
    assert(head =~= match m.entry {
        Some(e) => seq![e.executable@],
        None => Seq::<Seq<char>>::empty(),
    });
    proof {
        reveal_strlit("@dep:");
    }
    let dep = chars_of("@dep:");
    assert(dep@ =~= crate::manifest::dep_prefix());
    let mut i: usize = 0;
    while i < m.mappings.len()
        invariant
            i <= m.mappings@.len(),
            dep@ == crate::manifest::dep_prefix(),
            strings_view(out@) == head + mapping_sources(m.mappings@, i as int),
        decreases m.mappings@.len() - i,
    {
        let source = chars_of(m.mappings[i].source.as_str());
        let is_dep = crate::text::has_prefix_at(source.as_slice(), 0, dep.as_slice());
        assert(is_dep == is_dep_source(m.mappings@[i as int].source@)) by {
            if source@.len() >= 5 {
                assert(source@.subrange(0, 5) == source@.subrange(0, dep@.len() as int));
            }
        }
        if !is_dep {
            let ghost before = strings_view(out@);
            out.push(m.mappings[i].source.clone());
            assert(strings_view(out@) =~= before.push(m.mappings@[i as int].source@));
        }
        i = i + 1;
        assert(strings_view(out@) =~= head + mapping_sources(m.mappings@, i as int));
    }
    out
}

/// Builds a bundle: the manifest must pass [`LbpManifest::validate`]; the
/// files are packed by [`build_payload_tar`] and the container assembled
/// from the manifest text and that archive. The result depends on its
/// arguments alone, and is built whenever the manifest is valid, the paths
/// fit and the image fits in memory.
pub fn build_container(m: &LbpManifest, manifest_text: &[u8], files: &[PayloadFile]) -> (res: Result<Vec<u8>, LbpError>)
    ensures
        m.format != 1 ==> res == Err::<Vec<u8>, LbpError>(LbpError::UnsupportedVersion(m.format)),
        m.format == 1 && !manifest_rules_ok(m) ==> (res matches Err(e) && e is ManifestFormat),
        !payload_paths_fit(files@) ==> res is Err,
        m.format == 1 && manifest_rules_ok(m) && payload_paths_fit(files@) ==> (res is Ok <==> container_fits(
            manifest_text@,
            payload_archive(files@),
        )),
        res matches Ok(image) ==> {
            let t = payload_archive(files@);
            &&& m.format == 1 && manifest_rules_ok(m) && payload_paths_fit(files@)
            &&& tar_listing(t) == (payload_listing(files@), false)
            &&& image@ == container_image(manifest_text@, zstd_encoded(t, 3), t.len())
            &&& (manifest_text@.len() <= MAX_SECTION_SIZE && t.len() <= MAX_SECTION_SIZE ==> (container_result(
                image@,
            ) matches Ok(c) && c.manifest == manifest_text@ && c.payload == t))
        },
        res matches Ok(image) ==> ({
            let t = payload_archive(files@);
            let listing = (payload_listing(files@), false);
            vstd::utf8::valid_utf8(manifest_text@) && manifest_text@.len() <= MAX_SECTION_SIZE && t.len()
                <= MAX_SECTION_SIZE && payload_result(listing) is Ok && manifest_payload_result(m, listing) is Ok
                ==> (archive_result(image@, m) matches Ok(c) && c.manifest == manifest_text@ && c.payload == t)
        }),
{
    match m.validate() {
        Ok(()) => {},
        Err(e) => return Err(e),
    }
    let payload = match build_payload_tar(files) {
        Ok(t) => t,
        Err(e) => return Err(e),
    };
    assemble_container(manifest_text, payload.as_slice())
}

/// The components of a source path, the key tar paths are ordered and
/// told apart by.
pub open spec fn source_key(p: Seq<char>) -> Seq<PathPart> {
    path_parts(vstd::utf8::encode_utf8(p))
}

/// `s` is the text of one of the strings of `v`.
pub open spec fn is_one_of(v: Seq<String>, s: Seq<char>) -> bool {
    exists|j: int| 0 <= j < v.len() && v[j]@ == s
}

/// Some path in `v` has the key `key`.
pub open spec fn has_source_key(v: Seq<String>, key: Seq<PathPart>) -> bool {
    exists|i: int| 0 <= i < v.len() && source_key(v[i]@) == key
}

/// The paths of `v` in path order (component by component), each path once:
/// every result comes from `paths`, and every path of `paths` is there
/// under its key.
pub fn payload_order(paths: &Vec<String>) -> (res: Vec<String>)
    ensures
        forall|i: int, j: int| 0 <= i < j < res@.len() ==> parts_lt(
            source_key(#[trigger] res@[i]@),
            source_key(#[trigger] res@[j]@),
        ),
        forall|i: int| 0 <= i < res@.len() ==> is_one_of(paths@, #[trigger] res@[i]@),
        forall|j: int| 0 <= j < paths@.len() ==> has_source_key(res@, source_key(#[trigger] paths@[j]@)),
{
    let mut out: Vec<String> = Vec::new();
    let mut keys: Vec<Vec<ExecPart>> = Vec::new();
    let mut n: usize = 0;
    while n < paths.len()
        invariant
            n <= paths@.len(),
            keys@.len() == out@.len(),
            forall|i: int| 0 <= i < out@.len() ==> #[trigger] keys@[i].deep_view() == source_key(out@[i]@),
            forall|i: int, j: int| 0 <= i < j < out@.len() ==> parts_lt(
                source_key(#[trigger] out@[i]@),
                source_key(#[trigger] out@[j]@),
            ),
            forall|i: int| 0 <= i < out@.len() ==> is_one_of(paths@, #[trigger] out@[i]@),
            forall|j: int| 0 <= j < n ==> has_source_key(out@, source_key(#[trigger] paths@[j]@)),
        decreases paths@.len() - n,
    {
        let p = path_parts_of(paths[n].as_str().as_bytes());
        let ghost key = p.deep_view();
        assert(key == source_key(paths@[n as int]@));
        let mut k: usize = 0;
        while k < keys.len() && parts_less(&keys[k], &p)
            invariant
                k <= keys@.len(),
                key == p.deep_view(),
                forall|j: int| 0 <= j < k ==> parts_lt(#[trigger] keys@[j].deep_view(), key),
            decreases keys@.len() - k,
        {
            k = k + 1;
        }
        if k < keys.len() && parts_eq(&keys[k], &p) {
            assert(source_key(out@[k as int]@) == key);
            assert forall|j: int| 0 <= j < n + 1 implies has_source_key(out@, source_key(#[trigger] paths@[j]@)) by {
                if j == n {
                    assert(source_key(out@[k as int]@) == source_key(paths@[j]@));
                }
            }
            n = n + 1;
            continue;
        }
        let ghost before = out@;
        let ghost before_keys = keys@;
        proof {
            if k < before.len() {
                let ok = before_keys[k as int].deep_view();
                assert(!parts_lt(ok, key));
                lemma_parts_order(ok, key, ok);
                assert(parts_lt(key, ok));
            }
        }
        out.insert(k, paths[n].clone());
        keys.insert(k, p);
        proof {
            let x = out@[k as int];
            assert(source_key(x@) == key);
            assert forall|i: int| 0 <= i < out@.len() implies #[trigger] keys@[i].deep_view() == source_key(out@[i]@) by {
                if i < k {
                    assert(out@[i] == before[i] && keys@[i] == before_keys[i]);
                } else if i > k {
                    assert(out@[i] == before[i - 1] && keys@[i] == before_keys[i - 1]);
                }
            }
            assert forall|i: int, j: int| 0 <= i < j < out@.len() implies parts_lt(
                source_key(#[trigger] out@[i]@),
                source_key(#[trigger] out@[j]@),
            ) by {
                if j < k {
                    assert(out@[i] == before[i] && out@[j] == before[j]);
                } else if j == k {
                    assert(out@[i] == before[i]);
                    assert(before_keys[i].deep_view() == source_key(before[i]@));
                } else if i < k {
                    assert(out@[i] == before[i] && out@[j] == before[j - 1]);
                    assert(before_keys[i].deep_view() == source_key(before[i]@));
                    if j - 1 > i {
                    }
                } else if i == k {
                    let kk = k as int;
                    assert(out@[j] == before[j - 1]);
                    let ok = source_key(before[kk]@);
                    assert(before_keys[kk].deep_view() == ok);
                    if j - 1 > kk {
                        lemma_parts_order(key, ok, source_key(before[j - 1]@));
                    }
                } else {
                    assert(out@[i] == before[i - 1] && out@[j] == before[j - 1]);
                }
            }
            assert forall|i: int| 0 <= i < out@.len() implies is_one_of(paths@, #[trigger] out@[i]@) by {
                if i < k {
                    assert(out@[i] == before[i]);
                } else if i > k {
                    assert(out@[i] == before[i - 1]);
                } else {
                    assert(out@[i]@ == paths@[n as int]@);
                    assert(is_one_of(paths@, paths@[n as int]@));
                }
            }
            assert forall|j: int| 0 <= j < n + 1 implies has_source_key(out@, source_key(#[trigger] paths@[j]@)) by {
                if j == n {
                    assert(source_key(out@[k as int]@) == source_key(paths@[j]@));
                } else {
                    let i = choose|i: int| 0 <= i < before.len() && source_key(before[i]@) == source_key(paths@[j]@);
                    if i < k {
                        assert(out@[i] == before[i]);
                    } else {
                        assert(out@[i + 1] == before[i]);
                    }
                }
            }
        }
        n = n + 1;
    }
    out
}

} // verus!
